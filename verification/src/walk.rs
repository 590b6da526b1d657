//! Traversal of directory trees: behaviors, errors, and the engine that
//! matches a glob against the paths read from a directory tree, pruning
//! sub-trees whose prefix cannot match.
//!
//! Reading the file system is trusted: the directory iterator is used
//! through wrappers whose results are plain values. Every decision about an
//! entry — descend, prune, or emit — is verified logic over those values.

use vstd::prelude::*;
use vstd::string::StrSliceExecFns;
use vstd::string::StringExecFns;

use crate::text::push_char;
use crate::text::str_to_chars;
use crate::text::chars_to_string;
use crate::component::components;
use crate::component::spec_components;
use crate::component::spec_components_from;
use crate::component::spec_run_end;
use crate::component::lemma_run_end;
use crate::encode::compile_tokens;
use crate::encode::regex_compiles;
use crate::encode::captures_of;
use crate::encode::matches_candidate;
use crate::encode::regex_captures;
use crate::encode::regex_match;
use crate::encode::spec_encode;
use crate::encode::CompiledRegex;
use crate::glob::spec_glob_builds;
use crate::glob::Glob;
use crate::glob::GlobError;
use crate::parse::spec_parse;
use crate::parse::lemma_wf_tokens_index;
use crate::parse::lemma_wf_tokens_from_all;
use crate::parse::parse;
use crate::parse::wf_glob;
use crate::parse::wf_token;
use crate::parse::wf_tokens;
use crate::partition::spec_invariant_prefix;
use crate::partition::spec_residual;
use crate::partition::spec_unroot_first;
use crate::partition::spec_upper_bound;
use crate::partition::lemma_upper_bound_le;
use crate::token::lemma_tokens_model_index;
use crate::token::lemma_tokens_model_len;
use crate::token::lemma_tokens_model_push;
use crate::token::lemma_any_has_token_iff;
use crate::token::spec_any_has_token;
use crate::token::spec_has_token;
use crate::token::token_model;
use crate::token::TokenQuery;
use crate::token::spec_unroot;
use crate::token::Annotation;
use crate::token::TokenKind;
use crate::token::tokens_model;
use crate::token::GToken;
use crate::token::Token;
use crate::token::Wildcard;
use crate::variance::spec_any_depth_open;
use crate::variance::spec_boundedness;
use crate::variance::spec_tokens_variance;
use crate::variance::Boundedness;

verus! {

/// How symbolic links are read during a walk.
#[derive(Clone, Copy, Debug, PartialEq, Eq, Structural)]
pub enum LinkBehavior {
    /// Read the link file itself; its target is ignored and not followed.
    ReadFile,
    /// Read the target of the link and follow it; a re-entrant link
    /// surfaces as an error instead of an entry.
    ReadTarget,
}

impl Default for LinkBehavior {
    fn default() -> (r: Self)
        ensures
            r is ReadFile,
    {
        LinkBehavior::ReadFile
    }
}

/// A minimum depth of matched files; a minimum of zero would have no
/// effect, so the bound is at least one.
#[derive(Clone, Copy, Debug, PartialEq, Eq, Structural)]
pub struct DepthMin {
    pub min: usize,
}

impl DepthMin {
    /// Builds a depth behavior bounded below, or unbounded when the given
    /// minimum is zero.
    pub fn from_min_or_unbounded(min: usize) -> (r: DepthBehavior)
        ensures
            min == 0 ==> r is Unbounded,
            min > 0 ==> (r matches DepthBehavior::Min(m) && m.min == min),
    {
        if min == 0 {
            DepthBehavior::Unbounded
        } else {
            DepthBehavior::Min(DepthMin { min })
        }
    }

    /// The minimum shifted by the pivot contributed by an invariant prefix.
    pub fn min_at_pivot(self, pivot: usize) -> (r: usize)
        ensures
            r == (if self.min >= pivot {
                self.min - pivot
            } else {
                0
            }),
    {
        if self.min >= pivot {
            self.min - pivot
        } else {
            0
        }
    }
}

/// A maximum depth of a walk; a maximum of zero yields at most the root.
#[derive(Clone, Copy, Debug, PartialEq, Eq, Structural)]
pub struct DepthMax {
    pub max: usize,
}

impl DepthMax {
    /// The maximum shifted by the pivot contributed by an invariant prefix.
    pub fn max_at_pivot(self, pivot: usize) -> (r: usize)
        ensures
            r == (if self.max >= pivot {
                self.max - pivot
            } else {
                0
            }),
    {
        if self.max >= pivot {
            self.max - pivot
        } else {
            0
        }
    }
}

/// Minimum and maximum depths of a walk; the maximum is the minimum plus
/// the extent.
#[derive(Clone, Copy, Debug, PartialEq, Eq, Structural)]
pub struct DepthMinMax {
    pub min: usize,
    pub extent: usize,
}

impl DepthMinMax {
    /// Builds a depth behavior bounded by the two given depths, in either
    /// order: bounded above and below when the smaller is non-zero, and
    /// bounded above alone otherwise.
    pub fn from_depths_or_max(p: usize, q: usize) -> (r: DepthBehavior)
        ensures
            ({
                let lo = if p <= q {
                    p
                } else {
                    q
                };
                let hi = if p <= q {
                    q
                } else {
                    p
                };
                if lo == 0 {
                    r matches DepthBehavior::Max(m) && m.max == hi
                } else {
                    r matches DepthBehavior::MinMax(m) && m.min == lo && m.extent == hi - lo
                }
            }),
    {
        let lo = if p <= q {
            p
        } else {
            q
        };
        let hi = if p <= q {
            q
        } else {
            p
        };
        if lo == 0 {
            DepthBehavior::Max(DepthMax { max: hi })
        } else {
            DepthBehavior::MinMax(DepthMinMax { min: lo, extent: hi - lo })
        }
    }

    /// The bounds shifted by the pivot contributed by an invariant prefix.
    pub fn min_max_at_pivot(self, pivot: usize) -> (r: (usize, usize))
        ensures
            r.0 == (if self.min >= pivot {
                self.min - pivot
            } else {
                0
            }),
            r.1 == (if spec_minmax_max(self) >= pivot {
                spec_minmax_max(self) - pivot
            } else {
                0
            }),
    {
        let hi = self.max();
        (
            if self.min >= pivot {
                self.min - pivot
            } else {
                0
            },
            if hi >= pivot {
                hi - pivot
            } else {
                0
            },
        )
    }

    /// The maximum depth: the minimum plus the extent, saturating.
    pub fn max(&self) -> (r: usize)
        ensures
            r == spec_minmax_max(*self),
    {
        if self.extent > usize::MAX - self.min {
            usize::MAX
        } else {
            self.min + self.extent
        }
    }
}

/// The maximum depth of a min-max bound: the minimum plus the extent,
/// saturating at the largest representable depth.
pub open spec fn spec_minmax_max(m: DepthMinMax) -> usize {
    if m.min + m.extent > usize::MAX {
        usize::MAX as usize
    } else {
        (m.min + m.extent) as usize
    }
}

/// Bounds on the depth of a walk and of the files it yields.
#[derive(Clone, Copy, Debug, PartialEq, Eq, Structural)]
pub enum DepthBehavior {
    Unbounded,
    Min(DepthMin),
    Max(DepthMax),
    MinMax(DepthMinMax),
}

impl Default for DepthBehavior {
    fn default() -> (r: Self)
        ensures
            r is Unbounded,
    {
        DepthBehavior::Unbounded
    }
}

impl DepthBehavior {
    /// Builds a bounded depth behavior from a minimum and/or a maximum
    /// depth: nothing when both are absent, or when both are given but
    /// misordered, or when the given minimum is zero.
    pub fn bounded(min: Option<usize>, max: Option<usize>) -> (r: Option<DepthBehavior>)
        ensures
            match (min, max) {
                (Some(lo), None) => if lo > 0 {
                    r matches Some(DepthBehavior::Min(m)) && m.min == lo
                } else {
                    r is None
                },
                (None, Some(hi)) => r matches Some(DepthBehavior::Max(m)) && m.max == hi,
                (Some(lo), Some(hi)) => if 0 < lo <= hi {
                    r matches Some(DepthBehavior::MinMax(m)) && m.min == lo && m.extent == hi
                        - lo
                } else {
                    r is None
                },
                (None, None) => r is None,
            },
    {
        match (min, max) {
            (Some(lo), None) => {
                if lo > 0 {
                    Some(DepthBehavior::Min(DepthMin { min: lo }))
                } else {
                    None
                }
            },
            (None, Some(hi)) => Some(DepthBehavior::Max(DepthMax { max: hi })),
            (Some(lo), Some(hi)) => {
                if 0 < lo && lo <= hi {
                    Some(DepthBehavior::MinMax(DepthMinMax { min: lo, extent: hi - lo }))
                } else {
                    None
                }
            },
            (None, None) => None,
        }
    }
}

/// How a walk reads the directory tree: its depth bounds and its link
/// behavior.
#[derive(Clone, Copy, Debug, PartialEq, Eq, Structural)]
pub struct WalkBehavior {
    pub depth: DepthBehavior,
    pub link: LinkBehavior,
}

impl Default for WalkBehavior {
    fn default() -> (r: Self)
        ensures
            r.depth is Unbounded,
            r.link is ReadFile,
    {
        WalkBehavior { depth: DepthBehavior::Unbounded, link: LinkBehavior::ReadFile }
    }
}

/// Why reading an entry of the directory tree failed.
#[derive(Debug)]
pub enum WalkErrorKind {
    /// The file at the path, when one is known, could not be read.
    Io { path: Option<String>, message: String },
    /// A symbolic link from `root` to `leaf` re-enters the tree.
    LinkCycle { root: String, leaf: String },
}

impl WalkErrorKind {
    /// The path at which the error occurred, if one is known.
    pub fn path(&self) -> (r: Option<&String>)
        ensures
            match *self {
                WalkErrorKind::Io { path: Some(p), .. } => r matches Some(q) && *q == p,
                WalkErrorKind::Io { path: None, .. } => r is None,
                WalkErrorKind::LinkCycle { leaf, .. } => r matches Some(q) && *q == leaf,
            },
    {
        match self {
            WalkErrorKind::Io { path: Some(p), .. } => Some(p),
            WalkErrorKind::Io { path: None, .. } => None,
            WalkErrorKind::LinkCycle { leaf, .. } => Some(leaf),
        }
    }
}

/// Describes a failure met while walking a directory tree; failures are
/// yielded beside entries and never abort the walk.
#[derive(Debug)]
pub struct WalkError {
    pub depth: usize,
    pub kind: WalkErrorKind,
}

impl WalkError {
    /// The path at which the error occurred, if one is known.
    pub fn path(&self) -> (r: Option<&String>)
        ensures
            match self.kind {
                WalkErrorKind::Io { path: Some(p), .. } => r matches Some(q) && *q == p,
                WalkErrorKind::Io { path: None, .. } => r is None,
                WalkErrorKind::LinkCycle { leaf, .. } => r matches Some(q) && *q == leaf,
            },
    {
        self.kind.path()
    }

    /// The depth from the walk root at which the error occurred.
    pub fn depth(&self) -> (r: usize)
        ensures
            r == self.depth,
    {
        self.depth
    }
}

// The directory iterator of the walkdir crate, used through trusted
// wrappers whose results are plain values.

/// The walk builder of the directory-walking crate, opaque to verification.
#[verifier::external_type_specification]
#[verifier::external_body]
pub struct ExWalkDir(walkdir::WalkDir);

/// The directory iterator of the directory-walking crate.
#[verifier::external_type_specification]
#[verifier::external_body]
pub struct ExWalkDirIter(walkdir::IntoIter);

/// One entry read from the directory tree.
#[verifier::external_type_specification]
#[verifier::external_body]
pub struct ExDirEntry(walkdir::DirEntry);

/// An error of the directory-walking crate.
#[verifier::external_type_specification]
#[verifier::external_body]
pub struct ExWalkDirError(walkdir::Error);

/// Relies on walkdir::WalkDir::new: builds a walk rooted at the path.
#[verifier::external_body]
fn wd_new(root: &String) -> walkdir::WalkDir {
    walkdir::WalkDir::new(root.as_str())
}

/// Relies on walkdir::WalkDir::follow_links: sets whether traversal follows
/// symbolic links.
#[verifier::external_body]
fn wd_follow_links(w: walkdir::WalkDir, yes: bool) -> walkdir::WalkDir {
    w.follow_links(yes)
}

/// Relies on walkdir::WalkDir::max_depth: directories deeper than the bound
/// are not read.
#[verifier::external_body]
fn wd_max_depth(w: walkdir::WalkDir, depth: usize) -> walkdir::WalkDir {
    w.max_depth(depth)
}

/// Relies on walkdir::WalkDir::into_iter: starts the traversal.
#[verifier::external_body]
fn wd_into_iter(w: walkdir::WalkDir) -> walkdir::IntoIter {
    w.into_iter()
}

/// Relies on walkdir::IntoIter::next: yields the next entry of the
/// traversal, a failure, or nothing when the traversal is done. What comes
/// back depends on the file system; the walk logic is verified for every
/// outcome.
#[verifier::external_body]
fn wd_next(it: &mut walkdir::IntoIter) -> Option<Result<walkdir::DirEntry, walkdir::Error>> {
    it.next()
}

/// Relies on walkdir::IntoIter::skip_current_dir: the children of the most
/// recently yielded directory are not read.
#[verifier::external_body]
fn wd_skip_current_dir(it: &mut walkdir::IntoIter) {
    it.skip_current_dir()
}

/// Relies on walkdir::DirEntry::path, converted to text.
#[verifier::external_body]
fn entry_path_string(e: &walkdir::DirEntry) -> String {
    e.path().to_string_lossy().into_owned()
}

/// Relies on walkdir::DirEntry::depth: the depth of the entry below the
/// walk root.
#[verifier::external_body]
fn entry_depth(e: &walkdir::DirEntry) -> usize {
    e.depth()
}

/// Relies on walkdir::DirEntry::file_type and its is_dir query: whether
/// the entry names a directory.
#[verifier::external_body]
fn entry_is_dir(e: &walkdir::DirEntry) -> bool {
    e.file_type().is_dir()
}

/// Relies on walkdir::Error::depth.
#[verifier::external_body]
fn wderr_depth(e: &walkdir::Error) -> usize {
    e.depth()
}

/// Relies on walkdir::Error::path, converted to text.
#[verifier::external_body]
fn wderr_path(e: &walkdir::Error) -> Option<String> {
    e.path().map(|p| p.to_string_lossy().into_owned())
}

/// Relies on walkdir::Error::io_error, rendered as text.
#[verifier::external_body]
fn wderr_io_message(e: &walkdir::Error) -> Option<String> {
    e.io_error().map(|io| format!("{}", io))
}

/// Relies on walkdir::Error::loop_ancestor, converted to text.
#[verifier::external_body]
fn wderr_loop_ancestor(e: &walkdir::Error) -> Option<String> {
    e.loop_ancestor().map(|p| p.to_string_lossy().into_owned())
}

impl WalkError {
    /// Builds a walk error from the plain values read from an error of the
    /// directory-walking crate: a present loop ancestor yields a link
    /// cycle whose leaf is the error's path (or empty), and anything else
    /// carries its path and rendered message (or empty).
    pub fn from_parts(
        depth: usize,
        path: Option<String>,
        message: Option<String>,
        ancestor: Option<String>,
    ) -> (r: WalkError)
        ensures
            r.depth == depth,
            match ancestor {
                Some(root) => r.kind matches WalkErrorKind::LinkCycle {
                    root: rt,
                    leaf,
                } && rt == root && leaf@ == (match path {
                    Some(p) => p@,
                    None => Seq::<char>::empty(),
                }),
                None => r.kind matches WalkErrorKind::Io { path: p2, message: m2 } && p2 == path
                    && m2@ == (match message {
                    Some(m) => m@,
                    None => Seq::<char>::empty(),
                }),
            },
    {
        match ancestor {
            Some(root) => {
                let leaf = match path {
                    Some(p) => p,
                    None => String::new(),
                };
                WalkError { depth, kind: WalkErrorKind::LinkCycle { root, leaf } }
            },
            None => {
                let message = match message {
                    Some(m) => m,
                    None => String::new(),
                };
                WalkError { depth, kind: WalkErrorKind::Io { path, message } }
            },
        }
    }

    /// Builds a walk error from an error of the directory-walking crate,
    /// reading its parts through the trusted wrappers and assembling them
    /// with `from_parts`.
    pub fn from(e: &walkdir::Error) -> (r: WalkError)
        ensures
            r.kind is LinkCycle || r.kind is Io,
    {
        let depth = wderr_depth(e);
        let path = wderr_path(e);
        let message = wderr_io_message(e);
        let ancestor = wderr_loop_ancestor(e);
        WalkError::from_parts(depth, path, message, ancestor)
    }
}

} // verus!

verus! {

/// The index of the last separator of the path, or minus one when it has
/// none.
pub open spec fn spec_rfind_sep(s: Seq<char>) -> int
    decreases s,
{
    if s.len() == 0 {
        -1
    } else if s[s.len() - 1] == '/' {
        s.len() - 1
    } else {
        spec_rfind_sep(s.drop_last())
    }
}

pub proof fn lemma_rfind_sep(s: Seq<char>)
    ensures
        -1 <= spec_rfind_sep(s) < s.len(),
        forall|k: int| spec_rfind_sep(s) < k < s.len() ==> s[k] != '/',
        spec_rfind_sep(s) >= 0 ==> s[spec_rfind_sep(s)] == '/',
    decreases s,
{
    if s.len() > 0 && s[s.len() - 1] != '/' {
        lemma_rfind_sep(s.drop_last());
        assert forall|k: int| spec_rfind_sep(s) < k < s.len() implies s[k] != '/' by {
            if k < s.len() - 1 {
                assert(s.drop_last()[k] == s[k]);
            }
        }
    }
}

/// The last path component of the text: everything after its last
/// separator.
pub open spec fn spec_last_component(s: Seq<char>) -> Seq<char> {
    s.subrange(spec_rfind_sep(s) + 1, s.len() as int)
}

/// The last path component of the given path.
#[verifier::loop_isolation(false)]
pub fn last_component(rel: &String) -> (r: String)
    ensures
        r@ == spec_last_component(rel@),
{
    let chars = str_to_chars(rel.as_str());
    let n = chars.len();
    let mut cut: usize = 0;
    for k in 0..n
        invariant
            cut <= k <= n,
            n == rel@.len(),
            chars@ == rel@,
            cut == 0 ==> forall|j: int| 0 <= j < k ==> rel@[j] != '/',
            cut >= 1 ==> rel@[cut - 1] == '/' && (forall|j: int|
                cut <= j < k ==> rel@[j] != '/'),
        decreases n - k,
    {
        if chars[k] == '/' {
            cut = k + 1;
        }
    }
    proof {
        if cut == 0 {
            lemma_rfind_sep_none(rel@);
        } else {
            lemma_rfind_sep_unique(rel@, cut - 1);
        }
    }
    let mut out: Vec<char> = Vec::new();
    let mut k = cut;
    proof {
        assert(rel@.subrange(cut as int, cut as int) =~= Seq::<char>::empty());
    }
    while k < n
        invariant
            cut <= k <= n,
            out@ == rel@.subrange(cut as int, k as int),
        decreases n - k,
    {
        out.push(chars[k]);
        k = k + 1;
        proof {
            assert(rel@.subrange(cut as int, k - 1).push(rel@[k - 1]) =~= rel@.subrange(
                cut as int,
                k as int,
            ));
        }
    }
    proof {
        assert(out@ =~= spec_last_component(rel@));
    }
    chars_to_string(&out)
}

proof fn lemma_rfind_sep_unique(s: Seq<char>, p: int)
    requires
        0 <= p < s.len(),
        s[p] == '/',
        forall|k: int| p < k < s.len() ==> s[k] != '/',
    ensures
        spec_rfind_sep(s) == p,
    decreases s,
{
    if s.len() - 1 > p {
        assert(s.drop_last()[p] == s[p]);
        assert forall|k: int| p < k < s.drop_last().len() implies s.drop_last()[k] != '/' by {
            assert(s.drop_last()[k] == s[k]);
        }
        lemma_rfind_sep_unique(s.drop_last(), p);
    }
}

proof fn lemma_rfind_sep_none(s: Seq<char>)
    requires
        forall|k: int| 0 <= k < s.len() ==> s[k] != '/',
    ensures
        spec_rfind_sep(s) == -1,
    decreases s,
{
    if s.len() > 0 {
        assert forall|k: int| 0 <= k < s.drop_last().len() implies s.drop_last()[k] != '/' by {
            assert(s.drop_last()[k] == s[k]);
        }
        lemma_rfind_sep_none(s.drop_last());
    }
}

/// The path relative to the root: nothing when the path does not lie under
/// the root.
pub open spec fn spec_strip_root(full: Seq<char>, root: Seq<char>) -> Option<Seq<char>> {
    if root.len() == 0 {
        Some(full)
    } else if full == root {
        Some(Seq::empty())
    } else if full.len() > root.len() && full.subrange(0, root.len() as int) == root && full[
        root.len() as int
    ] == '/' {
        Some(full.subrange(root.len() as int + 1, full.len() as int))
    } else {
        None
    }
}

/// Strips the root from the path, when the path lies under it.
#[verifier::loop_isolation(false)]
pub fn strip_root(full: &String, root: &String) -> (r: Option<String>)
    ensures
        match spec_strip_root(full@, root@) {
            Some(t) => r matches Some(p) && p@ == t,
            None => r is None,
        },
{
    let f = str_to_chars(full.as_str());
    let g = str_to_chars(root.as_str());
    let nf = f.len();
    let ng = g.len();
    if ng == 0 {
        return Some(full.clone());
    }
    if nf < ng {
        proof {
            assert(full@ != root@) by {
                assert(full@.len() != root@.len());
            }
        }
        return None;
    }
    let mut i: usize = 0;
    while i < ng
        invariant
            0 <= i <= ng <= nf,
            nf == full@.len(),
            ng == root@.len(),
            f@ == full@,
            g@ == root@,
            forall|k: int| 0 <= k < i ==> full@[k] == root@[k],
        decreases ng - i,
    {
        if f[i] != g[i] {
            proof {
                assert(full@.subrange(0, root@.len() as int)[i as int] != root@[i as int]);
                assert(full@.subrange(0, root@.len() as int) != root@);
                if full@.len() == root@.len() {
                    assert(full@[i as int] != root@[i as int]);
                    assert(full@ != root@);
                }
            }
            return None;
        }
        i = i + 1;
    }
    if nf == ng {
        proof {
            assert(full@ =~= root@);
        }
        let out = String::new();
        return Some(out);
    }
    proof {
        assert(full@.subrange(0, root@.len() as int) =~= root@);
        assert(full@ != root@) by {
            assert(full@.len() != root@.len());
        }
    }
    if f[ng] != '/' {
        return None;
    }
    let mut out: Vec<char> = Vec::new();
    let mut k = ng + 1;
    while k < nf
        invariant
            ng + 1 <= k <= nf,
            out@ == full@.subrange(ng as int + 1, k as int),
        decreases nf - k,
    {
        out.push(f[k]);
        k = k + 1;
        proof {
            assert(full@.subrange(ng as int + 1, k - 1).push(full@[k - 1]) =~= full@.subrange(
                ng as int + 1,
                k as int,
            ));
        }
    }
    Some(chars_to_string(&out))
}

/// Joins two paths with a separator; either side may be empty.
pub fn join_paths(a: &String, b: &String) -> (r: String)
    ensures
        r@ == (if a@.len() == 0 {
            b@
        } else if b@.len() == 0 {
            a@
        } else {
            a@ + seq!['/'] + b@
        }),
{
    if a.as_str().is_empty() {
        return b.clone();
    }
    if b.as_str().is_empty() {
        return a.clone();
    }
    let mut out = a.clone();
    push_char(&mut out, '/');
    out.append(b.as_str());
    proof {
        assert(out@ =~= a@ + seq!['/'] + b@);
    }
    out
}

/// The number of path components of the text: the count of positions that
/// begin a maximal run of non-separator characters.
pub open spec fn spec_segments(s: Seq<char>, i: int) -> int
    decreases s.len() - i,
{
    if i < 0 || i >= s.len() {
        0
    } else if s[i] != '/' && (i == 0 || s[i - 1] == '/') {
        1 + spec_segments(s, i + 1)
    } else {
        spec_segments(s, i + 1)
    }
}

pub proof fn lemma_segments_le(s: Seq<char>, i: int)
    ensures
        0 <= spec_segments(s, i) <= s.len() - i || spec_segments(s, i) == 0,
    decreases s.len() - i,
{
    if 0 <= i < s.len() {
        lemma_segments_le(s, i + 1);
    }
}

/// The number of path components of the given path.
#[verifier::loop_isolation(false)]
pub fn count_segments(s: &String) -> (r: usize)
    ensures
        r == spec_segments(s@, 0),
{
    let chars = str_to_chars(s.as_str());
    let n = chars.len();
    let mut count: usize = 0;
    let mut i: usize = 0;
    proof {
        lemma_segments_le(s@, 0);
    }
    while i < n
        invariant
            0 <= i <= n,
            n == s@.len(),
            chars@ == s@,
            count + spec_segments(s@, i as int) == spec_segments(s@, 0),
            count <= i,
        decreases n - i,
    {
        proof {
            lemma_segments_le(s@, i + 1);
        }
        let starts = chars[i] != '/' && (i == 0 || chars[i - 1] == '/');
        if starts {
            count = count + 1;
        }
        i = i + 1;
    }
    count
}

} // verus!

verus! {

/// Whether any of the patterns accepts the text.
pub open spec fn spec_any_regex_match(pats: Seq<Seq<char>>, text: Seq<char>) -> bool {
    exists|i: int| 0 <= i < pats.len() && regex_match(#[trigger] pats[i], text)
}

/// The pattern texts of a sequence of compiled patterns.
pub open spec fn spec_patterns_of(v: Seq<CompiledRegex>) -> Seq<Seq<char>> {
    Seq::new(v.len(), |i: int| v[i].spec_pattern())
}

/// Whether any of the compiled patterns accepts the text.
#[verifier::loop_isolation(false)]
fn any_match(pats: &Vec<CompiledRegex>, text: &String) -> (r: bool)
    ensures
        r == spec_any_regex_match(spec_patterns_of(pats@), text@),
{
    let n = pats.len();
    for i in 0..n
        invariant
            n == pats@.len(),
            forall|p: int| 0 <= p < i ==> !regex_match(#[trigger] spec_patterns_of(pats@)[p], text@),
        decreases n - i,
    {
        if matches_candidate(&pats[i], text) {
            proof {
                assert(regex_match(spec_patterns_of(pats@)[i as int], text@));
            }
            return true;
        }
    }
    false
}

/// The deny filters of a walk, compiled from negation patterns. A terminal
/// pattern also matches every path below the paths it matches, so a match
/// prunes the whole sub-tree; a non-terminal match only withholds the entry.
#[derive(Debug)]
pub struct Negation {
    pub terminal: Vec<CompiledRegex>,
    pub nonterminal: Vec<CompiledRegex>,
}

/// Whether every one of the pattern texts builds as a glob.
pub open spec fn spec_all_globs_build(pats: Seq<String>) -> bool {
    forall|i: int| 0 <= i < pats.len() ==> spec_glob_builds(#[trigger] pats[i]@)
}

/// The encoded patterns of the terminal negation globs, in order: those
/// whose final component has open depth and open variance.
pub open spec fn spec_negation_terminal_texts(pats: Seq<String>) -> Seq<Seq<char>>
    decreases pats.len(),
{
    if pats.len() == 0 {
        Seq::empty()
    } else {
        (match spec_parse(pats[0]@) {
            Some(gs) => if spec_is_terminal(gs) {
                seq![spec_encode(gs)]
            } else {
                Seq::empty()
            },
            None => Seq::empty(),
        }) + spec_negation_terminal_texts(pats.drop_first())
    }
}

/// The encoded patterns of the non-terminal negation globs, in order.
pub open spec fn spec_negation_nonterminal_texts(pats: Seq<String>) -> Seq<Seq<char>>
    decreases pats.len(),
{
    if pats.len() == 0 {
        Seq::empty()
    } else {
        (match spec_parse(pats[0]@) {
            Some(gs) => if spec_is_terminal(gs) {
                Seq::empty()
            } else {
                seq![spec_encode(gs)]
            },
            None => Seq::empty(),
        }) + spec_negation_nonterminal_texts(pats.drop_first())
    }
}

/// Pushing a compiled pattern appends its text to the recorded patterns.
proof fn lemma_patterns_of_push(v: Seq<CompiledRegex>, c: CompiledRegex)
    ensures
        spec_patterns_of(v.push(c)) == spec_patterns_of(v).push(c.spec_pattern()),
{
    assert(spec_patterns_of(v.push(c)) =~= spec_patterns_of(v).push(c.spec_pattern()));
}

/// Appending one pattern text and then a rest concatenates associatively.
proof fn lemma_text_concat_assoc(a: Seq<Seq<char>>, x: Seq<char>, r: Seq<Seq<char>>)
    ensures
        a.push(x) + r == a + (seq![x] + r),
{
    assert(a.push(x) + r =~= a + (seq![x] + r));
}

/// Whether the glob is terminal: its final component has open depth and
/// open variance, so a match implies that every path below also matches.
pub open spec fn spec_is_terminal(s: Seq<GToken>) -> bool {
    let cs = spec_components(s);
    cs.len() > 0 && spec_any_depth_open(cs[cs.len() - 1]) && spec_boundedness(
        spec_tokens_variance(cs[cs.len() - 1]),
    ) is Open
}

/// Whether the glob is terminal: its final component has open depth and
/// open variance, as `**` has, so that when it is used as a negation a
/// matching directory can be pruned whole.
pub fn is_terminal(glob: &Glob) -> (r: bool)
    ensures
        r == spec_is_terminal(tokens_model(glob.tokenized.tokens@)),
{
    let comps = components(&glob.tokenized.tokens);
    let n = comps.len();
    if n == 0 {
        return false;
    }
    let last = &comps[n - 1];
    let depth_open = match last.depth() {
        Boundedness::Open => true,
        Boundedness::Closed => false,
    };
    let variance_open = match last.variance().boundedness() {
        Boundedness::Open => true,
        Boundedness::Closed => false,
    };
    depth_open && variance_open
}

impl Negation {
    /// Compiles a set of negation patterns, split into terminal and
    /// non-terminal deny filters: it builds exactly when every pattern
    /// builds as a glob, and the recorded deny patterns are exactly the
    /// encodings of the given globs, split by `is_terminal`.
    #[verifier::loop_isolation(false)]
    pub fn try_from_patterns(patterns: &Vec<String>) -> (r: Result<Negation, GlobError>)
        ensures
            r is Ok <==> spec_all_globs_build(patterns@),
            r matches Ok(n) ==> {
                &&& spec_patterns_of(n.terminal@) == spec_negation_terminal_texts(patterns@)
                &&& spec_patterns_of(n.nonterminal@) == spec_negation_nonterminal_texts(
                    patterns@,
                )
            },
    {
        let mut terminal: Vec<CompiledRegex> = Vec::new();
        let mut nonterminal: Vec<CompiledRegex> = Vec::new();
        let n = patterns.len();
        proof {
            assert(patterns@.skip(0) =~= patterns@);
            assert(spec_patterns_of(terminal@) =~= Seq::<Seq<char>>::empty());
            assert(spec_patterns_of(nonterminal@) =~= Seq::<Seq<char>>::empty());
            assert(Seq::<Seq<char>>::empty() + spec_negation_terminal_texts(patterns@)
                =~= spec_negation_terminal_texts(patterns@));
            assert(Seq::<Seq<char>>::empty() + spec_negation_nonterminal_texts(patterns@)
                =~= spec_negation_nonterminal_texts(patterns@));
        }
        for i in 0..n
            invariant
                n == patterns@.len(),
                forall|p: int| 0 <= p < i ==> spec_glob_builds(#[trigger] patterns@[p]@),
                spec_negation_terminal_texts(patterns@) == spec_patterns_of(terminal@)
                    + spec_negation_terminal_texts(patterns@.skip(i as int)),
                spec_negation_nonterminal_texts(patterns@) == spec_patterns_of(nonterminal@)
                    + spec_negation_nonterminal_texts(patterns@.skip(i as int)),
            decreases n - i,
        {
            proof {
                assert(patterns@.skip(i as int)[0] == patterns@[i as int]);
                assert(patterns@.skip(i as int).drop_first() =~= patterns@.skip(i + 1));
            }
            let glob = match Glob::new(patterns[i].as_str()) {
                Ok(g) => g,
                Err(e) => {
                    proof {
                        assert(!spec_glob_builds(patterns@[i as int]@));
                    }
                    return Err(e);
                },
            };
            let compiled = glob.program().clone();
            if is_terminal(&glob) {
                proof {
                    lemma_patterns_of_push(terminal@, compiled);
                    lemma_text_concat_assoc(
                        spec_patterns_of(terminal@),
                        compiled.spec_pattern(),
                        spec_negation_terminal_texts(patterns@.skip(i + 1)),
                    );
                }
                terminal.push(compiled);
            } else {
                proof {
                    lemma_patterns_of_push(nonterminal@, compiled);
                    lemma_text_concat_assoc(
                        spec_patterns_of(nonterminal@),
                        compiled.spec_pattern(),
                        spec_negation_nonterminal_texts(patterns@.skip(i + 1)),
                    );
                }
                nonterminal.push(compiled);
            }
        }
        proof {
            assert(patterns@.skip(n as int) =~= Seq::<String>::empty());
            assert(spec_patterns_of(terminal@) + Seq::<Seq<char>>::empty() =~= spec_patterns_of(
                terminal@,
            ));
            assert(spec_patterns_of(nonterminal@) + Seq::<Seq<char>>::empty()
                =~= spec_patterns_of(nonterminal@));
        }
        Ok(Negation { terminal, nonterminal })
    }
}

/// What the engine does with one entry: yield it, pass it over, or pass it
/// over and not read the tree below it.
#[derive(Clone, Copy, Debug, PartialEq, Eq, Structural)]
pub enum WalkDecision {
    Emit,
    Skip,
    Prune,
}

/// The decision for one entry. The deny filters come first: a terminal
/// match prunes and a non-terminal match skips. The entry's last path
/// component is then held against its positional matcher: a mismatch
/// prunes, except beyond the compiled components. An entry is emitted only
/// within the depth bounds and only when the whole pattern accepts its
/// relative path.
pub open spec fn spec_decide(
    pattern: Seq<char>,
    comps: Seq<Seq<char>>,
    terms: Seq<Seq<char>>,
    nonterms: Seq<Seq<char>>,
    min_depth: usize,
    max_depth: usize,
    rel: Seq<char>,
    depth: usize,
) -> WalkDecision {
    if spec_any_regex_match(terms, rel) {
        WalkDecision::Prune
    } else if spec_any_regex_match(nonterms, rel) {
        WalkDecision::Skip
    } else if depth == 0 {
        if comps.len() == 0 && min_depth == 0 && regex_match(pattern, rel) {
            WalkDecision::Emit
        } else {
            WalkDecision::Skip
        }
    } else {
        let lc = spec_last_component(rel);
        if depth < comps.len() {
            if regex_match(comps[depth - 1], lc) {
                WalkDecision::Skip
            } else {
                WalkDecision::Prune
            }
        } else if depth == comps.len() {
            if regex_match(comps[depth - 1], lc) {
                if min_depth <= depth <= max_depth && regex_match(pattern, rel) {
                    WalkDecision::Emit
                } else {
                    WalkDecision::Skip
                }
            } else {
                WalkDecision::Prune
            }
        } else {
            if min_depth <= depth <= max_depth && regex_match(pattern, rel) {
                WalkDecision::Emit
            } else {
                WalkDecision::Skip
            }
        }
    }
}

/// The spec deny-filter texts of an optional negation.
pub open spec fn spec_neg_terms(n: Option<Negation>) -> Seq<Seq<char>> {
    match n {
        Some(neg) => spec_patterns_of(neg.terminal@),
        None => Seq::empty(),
    }
}

/// The spec non-terminal deny-filter texts of an optional negation.
pub open spec fn spec_neg_nonterms(n: Option<Negation>) -> Seq<Seq<char>> {
    match n {
        Some(neg) => spec_patterns_of(neg.nonterminal@),
        None => Seq::empty(),
    }
}

/// Decides what the engine does with one entry.
pub fn decide_entry(
    pattern: &CompiledRegex,
    comps: &Vec<CompiledRegex>,
    negation: &Option<Negation>,
    min_depth: usize,
    max_depth: usize,
    rel: &String,
    depth: usize,
) -> (r: WalkDecision)
    ensures
        r == spec_decide(
            pattern.spec_pattern(),
            spec_patterns_of(comps@),
            spec_neg_terms(*negation),
            spec_neg_nonterms(*negation),
            min_depth,
            max_depth,
            rel@,
            depth,
        ),
{
    match negation {
        Some(neg) => {
            if any_match(&neg.terminal, rel) {
                return WalkDecision::Prune;
            }
            if any_match(&neg.nonterminal, rel) {
                return WalkDecision::Skip;
            }
        },
        None => {
        },
    }
    if depth == 0 {
        if comps.len() == 0 && min_depth == 0 && matches_candidate(pattern, rel) {
            WalkDecision::Emit
        } else {
            WalkDecision::Skip
        }
    } else {
        let lc = last_component(rel);
        if depth < comps.len() {
            if matches_candidate(&comps[depth - 1], &lc) {
                WalkDecision::Skip
            } else {
                WalkDecision::Prune
            }
        } else if depth == comps.len() {
            if matches_candidate(&comps[depth - 1], &lc) {
                if min_depth <= depth && depth <= max_depth && matches_candidate(pattern, rel) {
                    WalkDecision::Emit
                } else {
                    WalkDecision::Skip
                }
            } else {
                WalkDecision::Prune
            }
        } else {
            if min_depth <= depth && depth <= max_depth && matches_candidate(pattern, rel) {
                WalkDecision::Emit
            } else {
                WalkDecision::Skip
            }
        }
    }
}

/// An emitted entry is accepted by the whole pattern and lies within the
/// depth bounds.
pub proof fn lemma_walk_emit_accepted(
    pattern: Seq<char>,
    comps: Seq<Seq<char>>,
    terms: Seq<Seq<char>>,
    nonterms: Seq<Seq<char>>,
    min_depth: usize,
    max_depth: usize,
    rel: Seq<char>,
    depth: usize,
)
    requires
        spec_decide(pattern, comps, terms, nonterms, min_depth, max_depth, rel, depth)
            is Emit,
    ensures
        regex_match(pattern, rel),
        min_depth <= depth <= max_depth,
{
}

/// An entry matching a terminal deny filter is pruned: nothing below it is
/// read.
pub proof fn lemma_walk_terminal_negation_prunes(
    pattern: Seq<char>,
    comps: Seq<Seq<char>>,
    terms: Seq<Seq<char>>,
    nonterms: Seq<Seq<char>>,
    min_depth: usize,
    max_depth: usize,
    rel: Seq<char>,
    depth: usize,
)
    requires
        spec_any_regex_match(terms, rel),
    ensures
        spec_decide(pattern, comps, terms, nonterms, min_depth, max_depth, rel, depth)
            is Prune,
{
}

/// A directory whose last component fails its positional matcher is pruned,
/// unless it stands beyond the compiled components or a deny filter spoke
/// first.
pub proof fn lemma_walk_component_mismatch_prunes(
    pattern: Seq<char>,
    comps: Seq<Seq<char>>,
    terms: Seq<Seq<char>>,
    nonterms: Seq<Seq<char>>,
    min_depth: usize,
    max_depth: usize,
    rel: Seq<char>,
    depth: usize,
)
    requires
        !spec_any_regex_match(terms, rel),
        !spec_any_regex_match(nonterms, rel),
        1 <= depth <= comps.len(),
        !regex_match(comps[depth - 1], spec_last_component(rel)),
    ensures
        spec_decide(pattern, comps, terms, nonterms, min_depth, max_depth, rel, depth)
            is Prune,
{
}

/// A file yielded by a walk: its full path, its path relative to the walk
/// root, its depth below that root, whether it is a directory, and the
/// capture table of the match (empty for entries that were not matched).
#[derive(Debug)]
pub struct WalkEntry {
    pub path: String,
    pub relative: String,
    pub depth: usize,
    pub is_dir: bool,
    pub matched: Vec<Option<(usize, usize)>>,
}

impl WalkEntry {
    /// Returns the entry with any borrowed text copied into owned storage.
    /// Entries store their text owned, so the entry is returned unchanged.
    pub fn into_owned(self) -> (r: WalkEntry)
        ensures
            r == self,
    {
        self
    }

    /// Surrenders the full path of the entry.
    pub fn into_path(self) -> (r: String)
        ensures
            r == self.path,
    {
        self.path
    }

    /// The full path of the entry.
    pub fn path(&self) -> (r: &String)
        ensures
            *r == self.path,
    {
        &self.path
    }

    /// The path of the entry relative to the walk root: the candidate that
    /// the pattern was matched against.
    pub fn to_candidate_path(&self) -> (r: String)
        ensures
            r@ == self.relative@,
    {
        self.relative.clone()
    }

    /// The depth of the entry below the walk root.
    pub fn depth(&self) -> (r: usize)
        ensures
            r == self.depth,
    {
        self.depth
    }

    /// The capture table of the match: for each capturing token, in order,
    /// the byte range of the relative path it matched.
    pub fn matched(&self) -> (r: &Vec<Option<(usize, usize)>>)
        ensures
            *r == self.matched,
    {
        &self.matched
    }
}

/// One step of a walk.
#[derive(Debug)]
pub enum WalkStep {
    /// The traversal is done.
    Done,
    /// An entry could not be read; the walk goes on.
    Fault(WalkError),
    /// The entry matched and is yielded.
    Matched(WalkEntry),
    /// The entry did not match; the walk goes on below it.
    Skipped,
    /// The entry was denied and the tree below it will not be read.
    Pruned(WalkEntry),
}

/// A walk of a directory tree that yields the files matching a glob.
#[derive(Debug)]
pub struct Walk {
    pub pattern: CompiledRegex,
    pub components: Vec<CompiledRegex>,
    pub negation: Option<Negation>,
    pub root: String,
    pub min_depth: usize,
    pub max_depth: usize,
    pub follow_links: bool,
    pub iter: walkdir::IntoIter,
}

impl Walk {
    /// Returns the walk with any borrowed data copied into owning storage.
    /// Walks own their state, so the walk is returned unchanged.
    pub fn into_owned(self) -> (r: Walk)
        ensures
            r.pattern == self.pattern,
            r.components == self.components,
            r.negation == self.negation,
            r.root == self.root,
            r.min_depth == self.min_depth,
            r.max_depth == self.max_depth,
            r.follow_links == self.follow_links,
    {
        self
    }

    /// Adds negation patterns: entries matching any of them are withheld,
    /// and a directory matching a terminal one is pruned whole. It builds
    /// exactly when every pattern builds as a glob; the installed deny
    /// patterns are the encodings of the given globs, split by
    /// `is_terminal`.
    pub fn not(self, patterns: &Vec<String>) -> (r: Result<Walk, GlobError>)
        ensures
            r is Ok <==> spec_all_globs_build(patterns@),
            r matches Ok(w) ==> {
                &&& w.pattern == self.pattern
                &&& w.components == self.components
                &&& w.root == self.root
                &&& w.min_depth == self.min_depth
                &&& w.max_depth == self.max_depth
                &&& w.follow_links == self.follow_links
                &&& (w.negation matches Some(neg) && spec_patterns_of(neg.terminal@)
                    == spec_negation_terminal_texts(patterns@) && spec_patterns_of(
                    neg.nonterminal@,
                ) == spec_negation_nonterminal_texts(patterns@))
            },
    {
        let negation = Negation::try_from_patterns(patterns)?;
        let Walk { pattern, components, root, min_depth, max_depth, follow_links, iter, .. } =
            self;
        Ok(
            Walk {
                pattern,
                components,
                negation: Some(negation),
                root,
                min_depth,
                max_depth,
                follow_links,
                iter,
            },
        )
    }

    /// Cancels descent below the most recently read directory entry: the
    /// tree under it is not read. This is what a filter calls when it
    /// discards a directory whole, as the `Tree` residue asks.
    pub fn skip_tree(&mut self)
        ensures
            final(self).pattern == old(self).pattern,
            final(self).components == old(self).components,
            final(self).negation == old(self).negation,
            final(self).root == old(self).root,
            final(self).min_depth == old(self).min_depth,
            final(self).max_depth == old(self).max_depth,
            final(self).follow_links == old(self).follow_links,
    {
        wd_skip_current_dir(&mut self.iter);
    }

    /// Performs one step of the walk: reads the next entry and decides it.
    /// A matched entry is accepted by the whole pattern and lies within the
    /// depth bounds; when a directory is pruned, the walk will not read the
    /// tree below it.
    pub fn advance(&mut self) -> (r: WalkStep)
        ensures
            final(self).pattern == old(self).pattern,
            final(self).components == old(self).components,
            final(self).negation == old(self).negation,
            final(self).root == old(self).root,
            final(self).min_depth == old(self).min_depth,
            final(self).max_depth == old(self).max_depth,
            final(self).follow_links == old(self).follow_links,
            r matches WalkStep::Matched(e) ==> {
                &&& regex_match(old(self).pattern.spec_pattern(), e.relative@)
                &&& old(self).min_depth <= e.depth <= old(self).max_depth
                &&& spec_strip_root(e.path@, old(self).root@) == Some(e.relative@)
                &&& e.matched@ == regex_captures(old(self).pattern.spec_pattern(), e.relative@)
                &&& spec_decide(
                    old(self).pattern.spec_pattern(),
                    spec_patterns_of(old(self).components@),
                    spec_neg_terms(old(self).negation),
                    spec_neg_nonterms(old(self).negation),
                    old(self).min_depth,
                    old(self).max_depth,
                    e.relative@,
                    e.depth,
                ) is Emit
            },
            r matches WalkStep::Pruned(e) ==> {
                &&& spec_strip_root(e.path@, old(self).root@) == Some(e.relative@)
                &&& spec_decide(
                    old(self).pattern.spec_pattern(),
                    spec_patterns_of(old(self).components@),
                    spec_neg_terms(old(self).negation),
                    spec_neg_nonterms(old(self).negation),
                    old(self).min_depth,
                    old(self).max_depth,
                    e.relative@,
                    e.depth,
                ) is Prune
            },
    {
        let next = wd_next(&mut self.iter);
        match next {
            None => WalkStep::Done,
            Some(Err(e)) => WalkStep::Fault(WalkError::from(&e)),
            Some(Ok(entry)) => {
                let path = entry_path_string(&entry);
                let depth = entry_depth(&entry);
                let is_dir = entry_is_dir(&entry);
                let rel = match strip_root(&path, &self.root) {
                    Some(r) => r,
                    None => {
                        return WalkStep::Skipped;
                    },
                };
                let decision = decide_entry(
                    &self.pattern,
                    &self.components,
                    &self.negation,
                    self.min_depth,
                    self.max_depth,
                    &rel,
                    depth,
                );
                match decision {
                    WalkDecision::Emit => {
                        proof {
                            lemma_walk_emit_accepted(
                                self.pattern.spec_pattern(),
                                spec_patterns_of(self.components@),
                                spec_neg_terms(self.negation),
                                spec_neg_nonterms(self.negation),
                                self.min_depth,
                                self.max_depth,
                                rel@,
                                depth,
                            );
                        }
                        let matched = match captures_of(&self.pattern, &rel) {
                            Some(v) => v,
                            None => {
                                proof {
                                    assert(false);
                                }
                                Vec::new()
                            },
                        };
                        WalkStep::Matched(
                            WalkEntry { path, relative: rel, depth, is_dir, matched },
                        )
                    },
                    WalkDecision::Skip => WalkStep::Skipped,
                    WalkDecision::Prune => {
                        if is_dir {
                            wd_skip_current_dir(&mut self.iter);
                        }
                        WalkStep::Pruned(
                            WalkEntry {
                                path,
                                relative: rel,
                                depth,
                                is_dir,
                                matched: Vec::new(),
                            },
                        )
                    },
                }
            },
        }
    }
}

} // verus!

verus! {

/// Unrooting a token keeps it well formed.
proof fn lemma_wf_unroot(g: GToken)
    requires
        wf_token(g),
    ensures
        wf_token(spec_unroot(g)),
{
}

/// The residual of a well-formed expression is well formed.
pub proof fn lemma_wf_residual(s: Seq<GToken>)
    requires
        wf_glob(s),
    ensures
        wf_tokens(spec_residual(s)),
{
    let b = spec_upper_bound(s);
    lemma_upper_bound_le(s, 0, None);
    let sub = s.subrange(b, s.len() as int);
    let res = spec_residual(s);
    assert forall|i: int| 0 <= i < res.len() implies wf_token(#[trigger] res[i]) by {
        lemma_wf_tokens_index(s, b + i);
        if i == 0 {
            lemma_wf_unroot(s[b]);
        }
    }
    lemma_wf_tokens_from_all(res);
}

/// Every component of a well-formed sequence is well formed.
proof fn lemma_components_wf(s: Seq<GToken>, i: int)
    requires
        0 <= i <= s.len(),
        forall|m: int| 0 <= m < s.len() ==> wf_token(#[trigger] s[m]),
    ensures
        forall|k: int|
            0 <= k < spec_components_from(s, i).len() ==> wf_tokens(
                #[trigger] spec_components_from(s, i)[k],
            ),
    decreases s.len() - i,
{
    if i < s.len() {
        if s[i] is Separator {
            lemma_components_wf(s, i + 1);
            assert forall|k: int| 0 <= k < spec_components_from(s, i).len() implies wf_tokens(
                #[trigger] spec_components_from(s, i)[k],
            ) by {
                assert(spec_components_from(s, i)[k] == spec_components_from(s, i + 1)[k]);
            }
        } else if s[i] matches GToken::Wildcard(Wildcard::Tree { .. }) {
            lemma_components_wf(s, i + 1);
            assert(wf_tokens(seq![s[i]])) by {
                assert(seq![s[i]][0] == s[i]);
                assert(seq![s[i]].drop_first() =~= Seq::<GToken>::empty());
                assert(wf_tokens(Seq::<GToken>::empty()));
            }
            assert forall|k: int| 0 <= k < spec_components_from(s, i).len() implies wf_tokens(
                #[trigger] spec_components_from(s, i)[k],
            ) by {
                if k > 0 {
                    assert(spec_components_from(s, i)[k] == spec_components_from(s, i + 1)[k
                        - 1]);
                }
            }
        } else {
            let e = spec_run_end(s, i);
            lemma_run_end(s, i);
            lemma_components_wf(s, e);
            assert(wf_tokens(s.subrange(i, e))) by {
                assert forall|m: int| 0 <= m < e - i implies wf_token(
                    #[trigger] s.subrange(i, e)[m],
                ) by {
                    assert(s.subrange(i, e)[m] == s[i + m]);
                }
                lemma_wf_tokens_from_all(s.subrange(i, e));
            }
            assert forall|k: int| 0 <= k < spec_components_from(s, i).len() implies wf_tokens(
                #[trigger] spec_components_from(s, i)[k],
            ) by {
                if k > 0 {
                    assert(spec_components_from(s, i)[k] == spec_components_from(s, e)[k - 1]);
                }
            }
        }
    } else {
        assert(spec_components_from(s, i).len() == 0);
    }
}

/// The invariant prefix path of an expression as text; empty when there is
/// none.
pub open spec fn spec_prefix_text(gs: Seq<GToken>) -> Seq<char> {
    match spec_invariant_prefix(gs) {
        Some(t) => t,
        None => Seq::empty(),
    }
}

/// The root a walk reads from: the prefix alone when it is absolute, and
/// the directory joined with the prefix otherwise.
pub open spec fn spec_walk_root(directory: Seq<char>, prefix: Seq<char>) -> Seq<char> {
    if prefix.len() > 0 && prefix[0] == '/' {
        prefix
    } else if directory.len() == 0 {
        prefix
    } else if prefix.len() == 0 {
        directory
    } else {
        directory + seq!['/'] + prefix
    }
}

/// The minimum emission depth of a behavior, shifted by the pivot.
pub open spec fn spec_shifted_min(depth: DepthBehavior, pivot: int) -> usize {
    match depth {
        DepthBehavior::Unbounded => 0 as usize,
        DepthBehavior::Min(m) => if m.min >= pivot {
            (m.min - pivot) as usize
        } else {
            0 as usize
        },
        DepthBehavior::Max(_) => 0 as usize,
        DepthBehavior::MinMax(m) => if m.min >= pivot {
            (m.min - pivot) as usize
        } else {
            0 as usize
        },
    }
}

/// The maximum traversal depth of a behavior, shifted by the pivot.
pub open spec fn spec_shifted_max(depth: DepthBehavior, pivot: int) -> usize {
    match depth {
        DepthBehavior::Unbounded => usize::MAX as usize,
        DepthBehavior::Min(_) => usize::MAX as usize,
        DepthBehavior::Max(m) => if m.max >= pivot {
            (m.max - pivot) as usize
        } else {
            0 as usize
        },
        DepthBehavior::MinMax(m) => if spec_minmax_max(m) >= pivot {
            (spec_minmax_max(m) - pivot) as usize
        } else {
            0 as usize
        },
    }
}

/// The encoded per-component matcher patterns of a residual: one for each
/// leading component free of component boundaries.
pub open spec fn spec_leading_matcher_texts(cs: Seq<Seq<GToken>>) -> Seq<Seq<char>>
    decreases cs.len(),
{
    if cs.len() == 0 {
        Seq::empty()
    } else if spec_any_has_token(cs[0], TokenQuery::ComponentBoundary) {
        Seq::empty()
    } else {
        seq![spec_encode(cs[0])] + spec_leading_matcher_texts(cs.drop_first())
    }
}

/// Whether the engine accepts every pattern a walk of the residual needs:
/// the whole pattern and each per-component matcher.
pub open spec fn spec_walk_builds(gres: Seq<GToken>) -> bool {
    &&& regex_compiles(spec_encode(gres))
    &&& (forall|k: int|
        0 <= k < spec_leading_matcher_texts(spec_components(gres)).len() ==> regex_compiles(
            #[trigger] spec_leading_matcher_texts(spec_components(gres))[k],
        ))
}

/// Builds the walk of a directory for a glob: the expression is split into
/// its invariant prefix and residual, the walk is rooted at the directory
/// joined with the prefix (the prefix alone when absolute), depth bounds
/// are shifted by the prefix's component count, and per-component matchers
/// are compiled from the residual's leading boundary-free components. It
/// builds exactly when the engine accepts every needed pattern.
#[verifier::loop_isolation(false)]
#[verifier::rlimit(100)]
pub fn walk(glob: &Glob, directory: &String, behavior: WalkBehavior) -> (r: Result<
    Walk,
    GlobError,
>)
    requires
        glob.wf(),
    ensures
        ({
            let gs = tokens_model(glob.tokenized.tokens@);
            let gres = spec_residual(gs);
            let ptext = spec_prefix_text(gs);
            let pivot = spec_segments(ptext, 0);
            &&& (r is Ok <==> spec_walk_builds(gres))
            &&& (r matches Err(e) ==> e is Build)
            &&& (r matches Ok(w) ==> {
                &&& w.pattern.spec_pattern() == spec_encode(gres)
                &&& spec_patterns_of(w.components@) == spec_leading_matcher_texts(
                    spec_components(gres),
                )
                &&& w.negation is None
                &&& w.root@ == spec_walk_root(directory@, ptext)
                &&& w.min_depth == spec_shifted_min(behavior.depth, pivot)
                &&& w.max_depth == spec_shifted_max(behavior.depth, pivot)
                &&& w.follow_links == (behavior.link is ReadTarget)
            })
        }),
{
    let ghost gs = tokens_model(glob.tokenized.tokens@);
    let tokenized = glob.tokenized.clone();
    let (prefix, residual) = tokenized.partition();
    let ghost gres = tokens_model(residual.tokens@);
    proof {
        lemma_wf_residual(gs);
    }
    let pivot = count_segments(&prefix);
    let chars = str_to_chars(prefix.as_str());
    let absolute = chars.len() > 0 && chars[0] == '/';
    let root = if absolute {
        prefix.clone()
    } else {
        join_paths(directory, &prefix)
    };
    let (min_depth, max_depth): (usize, usize) = match behavior.depth {
        DepthBehavior::Unbounded => (0, usize::MAX),
        DepthBehavior::Min(m) => (m.min_at_pivot(pivot), usize::MAX),
        DepthBehavior::Max(m) => (0, m.max_at_pivot(pivot)),
        DepthBehavior::MinMax(m) => m.min_max_at_pivot(pivot),
    };
    let follow = match behavior.link {
        LinkBehavior::ReadFile => false,
        LinkBehavior::ReadTarget => true,
    };
    let pattern = match compile_tokens(&residual.tokens) {
        Some(p) => p,
        None => {
            return Err(GlobError::Build);
        },
    };
    let comps = components(&residual.tokens);
    let ghost cs = spec_components(gres);
    let ghost leading = spec_leading_matcher_texts(cs);
    proof {
        lemma_tokens_model_len(residual.tokens@);
        assert forall|m: int| 0 <= m < gres.len() implies wf_token(#[trigger] gres[m]) by {
            lemma_wf_tokens_index(gres, m);
        }
        lemma_components_wf(gres, 0);
        assert(cs.skip(0) =~= cs);
        assert(spec_patterns_of(Seq::<CompiledRegex>::empty()) =~= Seq::<Seq<char>>::empty());
        assert(Seq::<Seq<char>>::empty() + spec_leading_matcher_texts(cs.skip(0))
            =~= spec_leading_matcher_texts(cs.skip(0)));
    }
    let mut matchers: Vec<CompiledRegex> = Vec::new();
    let n = comps.len();
    let mut k: usize = 0;
    while k < n
        invariant
            k <= n,
            n == comps@.len(),
            n == cs.len(),
            matchers@.len() == k,
            forall|p: int|
                0 <= p < n ==> tokens_model(#[trigger] comps@[p].tokens@) == cs[p],
            forall|p: int|
                0 <= p < cs.len() ==> wf_tokens(#[trigger] spec_components_from(gres, 0)[p]),
            leading == spec_patterns_of(matchers@) + spec_leading_matcher_texts(
                cs.skip(k as int),
            ),
            forall|p: int|
                0 <= p < matchers@.len() ==> regex_compiles(
                    #[trigger] spec_patterns_of(matchers@)[p],
                ),
        decreases n - k,
    {
        proof {
            assert(cs.skip(k as int)[0] == cs[k as int]);
            assert(cs.skip(k as int).drop_first() =~= cs.skip(k + 1));
        }
        let c = &comps[k];
        let ghost ts = tokens_model(c.tokens@);
        let m = c.tokens.len();
        let mut has_boundary = false;
        proof {
            lemma_tokens_model_len(c.tokens@);
        }
        for j in 0..m
            invariant
                m == c.tokens@.len(),
                c == comps@[k as int],
                has_boundary ==> spec_any_has_token(ts, TokenQuery::ComponentBoundary),
                !has_boundary ==> forall|q: int|
                    0 <= q < j ==> !spec_has_token(#[trigger] ts[q], TokenQuery::ComponentBoundary),
            decreases m - j,
        {
            proof {
                lemma_tokens_model_index(c.tokens@, j as int);
            }
            if c.tokens[j].has_component_boundary() {
                proof {
                    if !has_boundary {
                        assert(spec_has_token(ts[j as int], TokenQuery::ComponentBoundary));
                        lemma_any_has_token_iff(ts, TokenQuery::ComponentBoundary);
                    }
                }
                has_boundary = true;
            }
        }
        if has_boundary {
            // The remaining components lie beyond a boundary, so no more
            // matchers are compiled: the walk is complete here.
            proof {
                assert(spec_leading_matcher_texts(cs.skip(k as int)) =~= Seq::<Seq<char>>::empty());
                assert(spec_patterns_of(matchers@) + Seq::<Seq<char>>::empty()
                    =~= spec_patterns_of(matchers@));
            }
            let builder = wd_max_depth(wd_follow_links(wd_new(&root), follow), max_depth);
            let iter = wd_into_iter(builder);
            return Ok(
                Walk {
                    pattern,
                    components: matchers,
                    negation: None,
                    root,
                    min_depth,
                    max_depth,
                    follow_links: follow,
                    iter,
                },
            );
        }
        proof {
            lemma_any_has_token_iff(ts, TokenQuery::ComponentBoundary);
            assert(!spec_any_has_token(cs[k as int], TokenQuery::ComponentBoundary));
            assert(spec_leading_matcher_texts(cs.skip(k as int)) == seq![spec_encode(
                cs[k as int],
            )] + spec_leading_matcher_texts(cs.skip(k + 1)));
        }
        let compiled = match compile_tokens(&c.tokens) {
            Some(p) => p,
            None => {
                proof {
                    assert(leading.len() > k);
                    assert(leading[k as int] == spec_encode(cs[k as int]));
                    assert(!regex_compiles(leading[k as int]));
                }
                return Err(GlobError::Build);
            },
        };
        proof {
            lemma_patterns_of_push(matchers@, compiled);
            lemma_text_concat_assoc(
                spec_patterns_of(matchers@),
                compiled.spec_pattern(),
                spec_leading_matcher_texts(cs.skip(k + 1)),
            );
        }
        matchers.push(compiled);
        k = k + 1;
    }
    proof {
        assert(cs.skip(n as int) =~= Seq::<Seq<GToken>>::empty());
        assert(spec_patterns_of(matchers@) + Seq::<Seq<char>>::empty() =~= spec_patterns_of(
            matchers@,
        ));
    }
    let builder = wd_max_depth(wd_follow_links(wd_new(&root), follow), max_depth);
    let iter = wd_into_iter(builder);
    Ok(
        Walk {
            pattern,
            components: matchers,
            negation: None,
            root,
            min_depth,
            max_depth,
            follow_links: follow,
            iter,
        },
    )
}

/// Walks the directory itself, without a pattern: a walk for the
/// all-matching tree wildcard, rooted at the directory, with the
/// behavior's depth bounds applied unshifted.
pub fn walk_path(directory: &String, behavior: WalkBehavior) -> (r: Result<Walk, GlobError>)
    ensures
        r is Ok <==> regex_compiles(
            spec_encode(seq![GToken::Wildcard(Wildcard::Tree { is_rooted: false })]),
        ),
        r matches Err(e) ==> e is Build,
        r matches Ok(w) ==> {
            &&& w.pattern.spec_pattern() == spec_encode(
                seq![GToken::Wildcard(Wildcard::Tree { is_rooted: false })],
            )
            &&& w.components@.len() == 0
            &&& w.negation is None
            &&& w.root@ == directory@
            &&& w.min_depth == spec_shifted_min(behavior.depth, 0)
            &&& w.max_depth == spec_shifted_max(behavior.depth, 0)
            &&& w.follow_links == (behavior.link is ReadTarget)
        },
{
    let tree = Token {
        kind: TokenKind::Wildcard(Wildcard::Tree { is_rooted: false }),
        annotation: Annotation { offset: 0, extent: 0 },
    };
    let ghost gtree = token_model(tree);
    let mut tokens: Vec<Token> = Vec::new();
    proof {
        assert(tokens_model(tokens@) =~= Seq::<GToken>::empty());
        lemma_tokens_model_push(tokens@, tree);
        assert(Seq::<GToken>::empty().push(gtree) =~= seq![gtree]);
        assert(wf_tokens(Seq::<GToken>::empty()));
        assert(seq![gtree].drop_first() =~= Seq::<GToken>::empty());
        assert(gtree == GToken::Wildcard(Wildcard::Tree { is_rooted: false }));
        assert(wf_token(gtree));
        assert(seq![gtree][0] == gtree);
        assert(wf_tokens(seq![gtree]));
    }
    tokens.push(tree);
    let pattern = match compile_tokens(&tokens) {
        Some(p) => p,
        None => {
            return Err(GlobError::Build);
        },
    };
    let (min_depth, max_depth): (usize, usize) = match behavior.depth {
        DepthBehavior::Unbounded => (0, usize::MAX),
        DepthBehavior::Min(m) => (m.min_at_pivot(0), usize::MAX),
        DepthBehavior::Max(m) => (0, m.max_at_pivot(0)),
        DepthBehavior::MinMax(m) => m.min_max_at_pivot(0),
    };
    let follow = match behavior.link {
        LinkBehavior::ReadFile => false,
        LinkBehavior::ReadTarget => true,
    };
    let root = directory.clone();
    let builder = wd_max_depth(wd_follow_links(wd_new(&root), follow), max_depth);
    let iter = wd_into_iter(builder);
    Ok(
        Walk {
            pattern,
            components: Vec::new(),
            negation: None,
            root,
            min_depth,
            max_depth,
            follow_links: follow,
            iter,
        },
    )
}

impl Glob {
    /// Walks the directory with the default behavior, yielding the files
    /// this glob matches.
    pub fn walk(&self, directory: &String) -> (r: Result<Walk, GlobError>)
        requires
            self.wf(),
        ensures
            r is Ok <==> spec_walk_builds(spec_residual(tokens_model(self.tokenized.tokens@))),
            r matches Ok(w) ==> {
                &&& w.pattern.spec_pattern() == spec_encode(
                    spec_residual(tokens_model(self.tokenized.tokens@)),
                )
                &&& spec_patterns_of(w.components@) == spec_leading_matcher_texts(
                    spec_components(spec_residual(tokens_model(self.tokenized.tokens@))),
                )
                &&& w.negation is None
                &&& w.root@ == spec_walk_root(
                    directory@,
                    spec_prefix_text(tokens_model(self.tokenized.tokens@)),
                )
                &&& w.min_depth == 0
                &&& w.max_depth == usize::MAX
                &&& !w.follow_links
            },
    {
        walk(self, directory, WalkBehavior::default())
    }

    /// Walks the directory with the given behavior, yielding the files this
    /// glob matches.
    pub fn walk_with_behavior(&self, directory: &String, behavior: WalkBehavior) -> (r: Result<
        Walk,
        GlobError,
    >)
        requires
            self.wf(),
        ensures
            r is Ok <==> spec_walk_builds(spec_residual(tokens_model(self.tokenized.tokens@))),
            r matches Ok(w) ==> {
                &&& w.pattern.spec_pattern() == spec_encode(
                    spec_residual(tokens_model(self.tokenized.tokens@)),
                )
                &&& spec_patterns_of(w.components@) == spec_leading_matcher_texts(
                    spec_components(spec_residual(tokens_model(self.tokenized.tokens@))),
                )
                &&& w.negation is None
                &&& w.root@ == spec_walk_root(
                    directory@,
                    spec_prefix_text(tokens_model(self.tokenized.tokens@)),
                )
                &&& w.min_depth == spec_shifted_min(
                    behavior.depth,
                    spec_segments(spec_prefix_text(tokens_model(self.tokenized.tokens@)), 0),
                )
                &&& w.max_depth == spec_shifted_max(
                    behavior.depth,
                    spec_segments(spec_prefix_text(tokens_model(self.tokenized.tokens@)), 0),
                )
                &&& w.follow_links == (behavior.link is ReadTarget)
            },
    {
        walk(self, directory, behavior)
    }
}

} // verus!

verus! {

/// How a filter discards an entry: the file alone, or the file and the
/// whole tree below it, which is then not read.
#[derive(Clone, Copy, Debug, PartialEq, Eq, Structural, Hash)]
pub enum EntryResidue {
    /// Discard the file; a directory's tree is still read.
    File,
    /// Discard the file and, for a directory, its whole tree.
    Tree,
}

} // verus!
