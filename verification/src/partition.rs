//! The partitioner: splits a token tree into its invariant directory prefix
//! and a residual pattern that matches relative to that prefix.

use vstd::prelude::*;
use vstd::string::StrSliceExecFns;
use vstd::string::StringExecFns;

use crate::component::components;
use crate::component::lemma_run_end;
use crate::component::spec_components;
use crate::component::spec_components_from;
use crate::component::spec_run_end;
use crate::text::push_char;
use crate::token::kind_model;
use crate::token::lemma_tokens_model_index;
use crate::token::lemma_tokens_model_len;
use crate::token::spec_has_preceding_token;
use crate::token::spec_has_sub_tokens;
use crate::token::spec_is_component_boundary;
use crate::token::spec_unroot;
use crate::token::token_model;
use crate::token::tokens_model;
use crate::token::GToken;
use crate::token::Token;
use crate::token::TokenQuery;
use crate::token::Tokenized;
use crate::token::Wildcard;
use crate::token::SEPARATOR;
use crate::variance::spec_token_variance;
use crate::variance::spec_tokens_variance;
use crate::variance::spec_variance_add;
use crate::variance::Boundedness;
use crate::variance::GVariance;
use crate::variance::Variance;
use crate::variance::variance_model;

verus! {

/// The texts of the leading run of components whose variance is invariant.
pub open spec fn spec_invariant_texts(comps: Seq<Seq<GToken>>) -> Seq<Seq<char>>
    decreases comps.len(),
{
    if comps.len() == 0 {
        Seq::empty()
    } else {
        match spec_tokens_variance(comps[0]) {
            GVariance::Invariant(t) => seq![t] + spec_invariant_texts(comps.drop_first()),
            GVariance::Variant(_) => Seq::empty(),
        }
    }
}

/// The given texts joined by the path separator.
pub open spec fn spec_join(texts: Seq<Seq<char>>) -> Seq<char>
    decreases texts.len(),
{
    if texts.len() == 0 {
        Seq::empty()
    } else if texts.len() == 1 {
        texts[0]
    } else {
        texts[0] + seq![SEPARATOR] + spec_join(texts.drop_first())
    }
}

/// Whether the token sequence begins rooted: its first token is not a
/// compound and is a separator or a rooted tree wildcard.
pub open spec fn spec_prefix_is_rooted(s: Seq<GToken>) -> bool {
    s.len() > 0 && !spec_has_sub_tokens(s[0]) && spec_has_preceding_token(
        s[0],
        TokenQuery::Rooting,
    )
}

/// The invariant prefix path of a token sequence: a leading separator when
/// the sequence is rooted, then the texts of the leading invariant
/// components joined by separators; nothing when that path is empty.
pub open spec fn spec_invariant_prefix(s: Seq<GToken>) -> Option<Seq<char>> {
    let root: Seq<char> = if spec_prefix_is_rooted(s) {
        seq![SEPARATOR]
    } else {
        Seq::empty()
    };
    let joined = root + spec_join(spec_invariant_texts(spec_components(s)));
    if joined.len() == 0 {
        None
    } else {
        Some(joined)
    }
}

/// The index up to which tokens belong to the invariant prefix: scanning
/// from the start, a tree wildcard stops the prefix before itself, and a
/// variant token stops it just after the most recent separator.
pub open spec fn spec_upper_bound_from(s: Seq<GToken>, i: int, last_sep: Option<int>) -> int
    decreases s.len() - i,
{
    if i < 0 || i >= s.len() {
        s.len() as int
    } else if s[i] is Separator {
        spec_upper_bound_from(s, i + 1, Some(i))
    } else if s[i] matches GToken::Wildcard(Wildcard::Tree { .. }) {
        i
    } else if spec_token_variance(s[i]) is Invariant {
        spec_upper_bound_from(s, i + 1, last_sep)
    } else {
        match last_sep {
            Some(n) => n + 1,
            None => 0,
        }
    }
}

/// The invariant prefix upper bound of a whole sequence.
pub open spec fn spec_upper_bound(s: Seq<GToken>) -> int {
    spec_upper_bound_from(s, 0, None)
}

/// The scan stays within the sequence.
pub proof fn lemma_upper_bound_le(s: Seq<GToken>, i: int, last_sep: Option<int>)
    requires
        0 <= i <= s.len(),
        last_sep matches Some(n) ==> 0 <= n < i,
    ensures
        0 <= spec_upper_bound_from(s, i, last_sep) <= s.len(),
    decreases s.len() - i,
{
    if i < s.len() {
        if s[i] is Separator {
            lemma_upper_bound_le(s, i + 1, Some(i));
        } else if s[i] matches GToken::Wildcard(Wildcard::Tree { .. }) {
        } else if spec_token_variance(s[i]) is Invariant {
            lemma_upper_bound_le(s, i + 1, last_sep);
        }
    }
}

/// The sequence with its first token unrooted; an empty sequence is
/// unchanged.
pub open spec fn spec_unroot_first(s: Seq<GToken>) -> Seq<GToken> {
    if s.len() == 0 {
        s
    } else {
        s.update(0, spec_unroot(s[0]))
    }
}

/// The residual of a partition: the tokens after the invariant prefix upper
/// bound, with the first token unrooted.
pub open spec fn spec_residual(s: Seq<GToken>) -> Seq<GToken> {
    spec_unroot_first(s.subrange(spec_upper_bound(s), s.len() as int))
}

/// The models of a token subrange are the subrange of the models.
pub proof fn lemma_tokens_model_subrange(s: Seq<Token>, a: int, b: int)
    requires
        0 <= a <= b <= s.len(),
    ensures
        tokens_model(s.subrange(a, b)) == tokens_model(s).subrange(a, b),
{
    lemma_tokens_model_len(s);
    lemma_tokens_model_len(s.subrange(a, b));
    assert forall|p: int| 0 <= p < b - a implies tokens_model(s.subrange(a, b))[p]
        == tokens_model(s).subrange(a, b)[p] by {
        lemma_tokens_model_index(s.subrange(a, b), p);
        lemma_tokens_model_index(s, a + p);
    }
    assert(tokens_model(s.subrange(a, b)) =~= tokens_model(s).subrange(a, b));
}

/// Appending a text joins it with a separator when texts came before.
proof fn lemma_join_push(texts: Seq<Seq<char>>, t: Seq<char>)
    ensures
        spec_join(texts.push(t)) == if texts.len() == 0 {
            t
        } else {
            spec_join(texts) + seq![SEPARATOR] + t
        },
    decreases texts.len(),
{
    if texts.len() == 0 {
        assert(spec_join(texts.push(t)) == texts.push(t)[0]);
    } else if texts.len() == 1 {
        assert(texts.push(t).drop_first() =~= seq![t]);
        assert(spec_join(seq![t]) == t);
        assert(spec_join(texts) == texts[0]);
    } else {
        assert(texts.push(t).drop_first() =~= texts.drop_first().push(t));
        lemma_join_push(texts.drop_first(), t);
        assert(texts[0] + seq![SEPARATOR] + (spec_join(texts.drop_first()) + seq![SEPARATOR]
            + t) =~= (texts[0] + seq![SEPARATOR] + spec_join(texts.drop_first()))
            + seq![SEPARATOR] + t);
    }
}

/// The invariant prefix path of the token sequence, when it is not empty.
#[verifier::loop_isolation(false)]
pub fn invariant_prefix_path(tokens: &Vec<Token>) -> (r: Option<String>)
    ensures
        match spec_invariant_prefix(tokens_model(tokens@)) {
            Some(t) => r matches Some(p) && p@ == t,
            None => r is None,
        },
{
    let ghost gs = tokens_model(tokens@);
    proof {
        lemma_tokens_model_len(tokens@);
    }
    let mut prefix = String::new();
    if tokens.len() > 0 {
        proof {
            lemma_tokens_model_index(tokens@, 0);
        }
        if !tokens[0].kind.has_sub_tokens() && tokens[0].is_rooted() {
            push_char(&mut prefix, SEPARATOR);
        }
    }
    let ghost root = prefix@;
    let ghost gcomps = spec_components(gs);
    let comps = components(tokens);
    let n = comps.len();
    let ghost texts = spec_invariant_texts(gcomps);
    let mut k: usize = 0;
    let ghost mut tb: Seq<Seq<char>> = Seq::empty();
    proof {
        assert(gcomps.skip(0) =~= gcomps);
        assert(tb + spec_invariant_texts(gcomps.skip(0)) =~= texts);
    }
    while k < n
        invariant
            k <= n,
            texts == tb + spec_invariant_texts(gcomps.skip(k as int)),
            prefix@ == root + spec_join(tb),
            tb.len() == k,
        decreases n - k,
    {
        let v = comps[k].variance();
        match v.to_invariant_string() {
            Some(t) => {
                proof {
                    assert(gcomps.skip(k as int)[0] == gcomps[k as int]);
                    assert(gcomps.skip(k as int).drop_first() =~= gcomps.skip(k + 1));
                    assert(spec_tokens_variance(gcomps[k as int]) == GVariance::Invariant(t@));
                    assert(spec_invariant_texts(gcomps.skip(k as int)) == seq![t@]
                        + spec_invariant_texts(gcomps.skip(k + 1)));
                    lemma_join_push(tb, t@);
                }
                if k > 0 {
                    push_char(&mut prefix, SEPARATOR);
                }
                out_append(&mut prefix, &t);
                proof {
                    assert(tb.push(t@) =~= tb + seq![t@]);
                    assert(root + spec_join(tb.push(t@)) =~= prefix@);
                    assert((tb + seq![t@]) + spec_invariant_texts(gcomps.skip(k + 1)) =~= tb
                        + (seq![t@] + spec_invariant_texts(gcomps.skip(k + 1))));
                    tb = tb.push(t@);
                    assert(tb + spec_invariant_texts(gcomps.skip(k + 1)) =~= texts);
                }
                k = k + 1;
            },
            None => {
                proof {
                    assert(gcomps.skip(k as int)[0] == gcomps[k as int]);
                    assert(spec_invariant_texts(gcomps.skip(k as int)) =~= Seq::<
                        Seq<char>,
                    >::empty());
                    assert(texts =~= tb);
                }
                if prefix.as_str().is_empty() {
                    return None;
                } else {
                    return Some(prefix);
                }
            },
        }
    }
    proof {
        assert(gcomps.skip(n as int) =~= Seq::<Seq<GToken>>::empty());
        assert(spec_invariant_texts(gcomps.skip(n as int)) =~= Seq::<Seq<char>>::empty());
        assert(texts =~= tb);
    }
    if prefix.as_str().is_empty() {
        None
    } else {
        Some(prefix)
    }
}

/// Appends a string to the prefix being built.
fn out_append(s: &mut String, t: &String)
    ensures
        final(s)@ == old(s)@ + t@,
{
    s.append(t.as_str());
}

/// The invariant prefix upper bound: the count of leading tokens that the
/// partition drains into the prefix.
#[verifier::loop_isolation(false)]
pub fn invariant_prefix_upper_bound(tokens: &Vec<Token>) -> (r: usize)
    ensures
        r == spec_upper_bound(tokens_model(tokens@)),
        r <= tokens@.len(),
{
    let ghost gs = tokens_model(tokens@);
    proof {
        lemma_tokens_model_len(tokens@);
        lemma_upper_bound_le(gs, 0, None);
    }
    let n = tokens.len();
    let mut last_sep: Option<usize> = None;
    let mut i: usize = 0;
    while i < n
        invariant
            i <= n,
            last_sep matches Some(p) ==> p < i,
            spec_upper_bound(gs) == spec_upper_bound_from(
                gs,
                i as int,
                match last_sep {
                    Some(p) => Some(p as int),
                    None => None,
                },
            ),
        decreases n - i,
    {
        proof {
            lemma_tokens_model_index(tokens@, i as int);
        }
        match &tokens[i].kind {
            crate::token::TokenKind::Separator => {
                last_sep = Some(i);
                i = i + 1;
            },
            crate::token::TokenKind::Wildcard(Wildcard::Tree { .. }) => {
                return i;
            },
            _ => {
                let v = tokens[i].kind.variance();
                if v.is_invariant() {
                    i = i + 1;
                } else {
                    match last_sep {
                        Some(p) => {
                            return p + 1;
                        },
                        None => {
                            return 0;
                        },
                    }
                }
            },
        }
    }
    n
}

impl Tokenized {
    /// Splits this expression into its invariant prefix path and the
    /// residual pattern: the prefix tokens are drained and the first
    /// remaining token, if any, is unrooted.
    pub fn partition(self) -> (r: (String, Tokenized))
        ensures
            r.0@ == (match spec_invariant_prefix(tokens_model(self.tokens@)) {
                Some(t) => t,
                None => Seq::<char>::empty(),
            }),
            tokens_model(r.1.tokens@) == spec_residual(tokens_model(self.tokens@)),
            r.1.expression@ == self.expression@,
    {
        let ghost gs = tokens_model(self.tokens@);
        proof {
            lemma_tokens_model_len(self.tokens@);
        }
        let prefix = match invariant_prefix_path(&self.tokens) {
            Some(p) => p,
            None => String::new(),
        };
        let bound = invariant_prefix_upper_bound(&self.tokens);
        let Tokenized { expression, mut tokens } = self;
        let mut residual = tokens.split_off(bound);
        proof {
            lemma_tokens_model_subrange(tokens@ + residual@, bound as int, (tokens@
                + residual@).len() as int);
            assert(tokens@ + residual@ =~= self.tokens@);
            assert(residual@ =~= self.tokens@.subrange(bound as int, self.tokens@.len() as int));
            lemma_tokens_model_subrange(self.tokens@, bound as int, self.tokens@.len() as int);
        }
        if residual.len() > 0 {
            let mut first = residual.remove(0);
            first.unroot();
            let ghost mid = residual@;
            residual.insert(0, first);
            proof {
                lemma_tokens_model_len(residual@);
                lemma_tokens_model_len(self.tokens@.subrange(
                    bound as int,
                    self.tokens@.len() as int,
                ));
                let sub = tokens_model(self.tokens@).subrange(
                    bound as int,
                    tokens_model(self.tokens@).len() as int,
                );
                assert forall|p: int| 0 <= p < residual@.len() implies tokens_model(
                    residual@,
                )[p] == spec_unroot_first(sub)[p] by {
                    lemma_tokens_model_index(residual@, p);
                    if p > 0 {
                        lemma_tokens_model_index(self.tokens@.subrange(
                            bound as int,
                            self.tokens@.len() as int,
                        ), p);
                    } else {
                        lemma_tokens_model_index(self.tokens@.subrange(
                            bound as int,
                            self.tokens@.len() as int,
                        ), 0);
                    }
                }
                assert(tokens_model(residual@) =~= spec_unroot_first(sub));
            }
            (prefix, Tokenized { expression, tokens: residual })
        } else {
            proof {
                lemma_tokens_model_len(residual@);
                assert(tokens_model(residual@) =~= spec_residual(gs));
            }
            (prefix, Tokenized { expression, tokens: residual })
        }
    }
}

} // verus!

verus! {

/// Every component that contributes to the invariant prefix is invariant,
/// with exactly the recorded text.
pub proof fn lemma_invariant_prefix_components(comps: Seq<Seq<GToken>>, k: int)
    requires
        0 <= k < spec_invariant_texts(comps).len(),
    ensures
        k < comps.len(),
        spec_tokens_variance(comps[k]) == GVariance::Invariant(spec_invariant_texts(comps)[k]),
    decreases comps.len(),
{
    if comps.len() > 0 {
        match spec_tokens_variance(comps[0]) {
            GVariance::Invariant(t) => {
                if k > 0 {
                    lemma_invariant_prefix_components(comps.drop_first(), k - 1);
                    assert(comps.drop_first()[k - 1] == comps[k]);
                }
            },
            GVariance::Variant(_) => {},
        }
    }
}

/// The conjunctive variance of a sequence holding a variant token is
/// variant.
pub proof fn lemma_conj_with_variant(s: Seq<GToken>, k: int)
    requires
        0 <= k < s.len(),
        spec_token_variance(s[k]) is Variant,
    ensures
        spec_tokens_variance(s) is Variant,
    decreases s.len(),
{
    if s.len() > 1 {
        if k == s.len() - 1 {
        } else {
            lemma_conj_with_variant(s.drop_last(), k);
        }
    }
}

/// Where the prefix scan stops: at the end of the sequence, at a tree
/// wildcard, or at the start of a component that holds a variant token.
proof fn lemma_upper_bound_cases(s: Seq<GToken>, i: int, ls: Option<int>)
    requires
        0 <= i <= s.len(),
        ls matches Some(n) ==> 0 <= n < i,
        forall|k: int|
            (match ls {
                Some(n) => n + 1,
                None => 0,
            }) <= k < i ==> !spec_is_component_boundary(#[trigger] s[k]),
    ensures
        ({
            let b = spec_upper_bound_from(s, i, ls);
            ||| b == s.len()
            ||| (0 <= b < s.len() && s[b] matches GToken::Wildcard(Wildcard::Tree { .. }))
            ||| (0 <= b < s.len() && exists|j: int|
                b <= j < s.len() && (#[trigger] spec_token_variance(s[j])) is Variant
                    && !spec_is_component_boundary(s[j]) && (forall|k: int|
                    b <= k < j ==> !spec_is_component_boundary(#[trigger] s[k])))
        }),
    decreases s.len() - i,
{
    if i < s.len() {
        if s[i] is Separator {
            lemma_upper_bound_cases(s, i + 1, Some(i));
        } else if s[i] matches GToken::Wildcard(Wildcard::Tree { .. }) {
        } else if spec_token_variance(s[i]) is Invariant {
            lemma_upper_bound_cases(s, i + 1, ls);
        } else {
            let b = spec_upper_bound_from(s, i, ls);
            assert(b <= i < s.len());
            assert(spec_token_variance(s[i]) is Variant && !spec_is_component_boundary(s[i])
                && (forall|k: int| b <= k < i ==> !spec_is_component_boundary(#[trigger] s[k])));
        }
    }
}

/// The residual of a partition has no invariant prefix of its own: it is
/// empty, begins with an unrooted tree wildcard, or begins with a component
/// that holds a variant token.
pub proof fn lemma_partition_residual_prefix_none(s: Seq<GToken>)
    ensures
        spec_invariant_prefix(spec_residual(s)) is None,
{
    let b = spec_upper_bound(s);
    lemma_upper_bound_le(s, 0, None);
    lemma_upper_bound_cases(s, 0, None);
    let sub = s.subrange(b, s.len() as int);
    let res = spec_residual(s);
    assert(spec_join(Seq::<Seq<char>>::empty()) == Seq::<char>::empty());
    if b == s.len() {
        assert(res.len() == 0);
        assert(spec_components_from(res, 0) == Seq::<Seq<GToken>>::empty());
        assert(spec_invariant_texts(spec_components(res)) == Seq::<Seq<char>>::empty());
        assert(!spec_prefix_is_rooted(res));
        assert((Seq::<char>::empty() + Seq::<char>::empty()).len() == 0);
    } else if s[b] matches GToken::Wildcard(Wildcard::Tree { .. }) {
        assert(res.len() > 0);
        assert(res[0] == spec_unroot(sub[0]));
        assert(res[0] == GToken::Wildcard(Wildcard::Tree { is_rooted: false }));
        assert(!spec_prefix_is_rooted(res));
        assert(spec_components_from(res, 0) == seq![seq![res[0]]] + spec_components_from(
            res,
            1,
        ));
        let comps = spec_components(res);
        assert(comps[0] == seq![res[0]]);
        assert(seq![res[0]].len() == 1);
        assert(seq![res[0]][0] == res[0]);
        assert(spec_token_variance(res[0]) == GVariance::Variant(Boundedness::Open));
        assert(spec_tokens_variance(seq![res[0]]) == GVariance::Variant(Boundedness::Open));
        assert(spec_invariant_texts(comps) == Seq::<Seq<char>>::empty());
        assert((Seq::<char>::empty() + Seq::<char>::empty()).len() == 0);
    } else {
        let j = choose|j: int|
            b <= j < s.len() && (#[trigger] spec_token_variance(s[j])) is Variant
                && !spec_is_component_boundary(s[j]) && (forall|k: int|
                b <= k < j ==> !spec_is_component_boundary(#[trigger] s[k]));
        assert(spec_unroot(sub[0]) == sub[0]);
        assert(res =~= sub);
        assert(res.len() > 0);
        assert forall|k: int| 0 <= k <= j - b implies !spec_is_component_boundary(
            #[trigger] res[k],
        ) by {
            assert(res[k] == s[b + k]);
        }
        assert(!(res[0] is Separator));
        assert(!(res[0] matches GToken::Wildcard(Wildcard::Tree { .. })));
        lemma_run_end(res, 0);
        let e = spec_run_end(res, 0);
        assert(e > j - b);
        let comp0 = res.subrange(0, e);
        assert(comp0[j - b] == res[j - b]);
        assert(res[j - b] == s[j]);
        lemma_conj_with_variant(comp0, j - b);
        assert(spec_components_from(res, 0) == seq![comp0] + spec_components_from(res, e));
        let comps = spec_components(res);
        assert(comps[0] == comp0);
        assert(spec_invariant_texts(comps) == Seq::<Seq<char>>::empty());
        assert(!spec_prefix_is_rooted(res)) by {
            if !spec_has_sub_tokens(res[0]) {
                assert(!crate::token::spec_is_rooting(res[0]));
            }
        }
        assert((Seq::<char>::empty() + Seq::<char>::empty()).len() == 0);
    }
}

/// When the expression is rooted, so that its prefix path is absolute, the
/// residual of its partition is not rooted. The first remaining token must
/// not be a compound: a compound can hide a rooted branch of its own.
pub proof fn lemma_partition_rooted_residual(s: Seq<GToken>)
    requires
        spec_prefix_is_rooted(s),
        spec_residual(s).len() > 0 ==> !spec_has_sub_tokens(spec_residual(s)[0]),
    ensures
        spec_residual(s).len() > 0 ==> !spec_has_preceding_token(
            spec_residual(s)[0],
            TokenQuery::Rooting,
        ),
{
    let b = spec_upper_bound(s);
    lemma_upper_bound_le(s, 0, None);
    lemma_upper_bound_cases(s, 0, None);
    let sub = s.subrange(b, s.len() as int);
    let res = spec_residual(s);
    if b == s.len() {
    } else if s[b] matches GToken::Wildcard(Wildcard::Tree { .. }) {
        assert(res[0] == GToken::Wildcard(Wildcard::Tree { is_rooted: false }));
        assert(!crate::token::spec_is_rooting(res[0]));
    } else {
        let j = choose|j: int|
            b <= j < s.len() && (#[trigger] spec_token_variance(s[j])) is Variant
                && !spec_is_component_boundary(s[j]) && (forall|k: int|
                b <= k < j ==> !spec_is_component_boundary(#[trigger] s[k]));
        assert(spec_unroot(sub[0]) == sub[0]);
        assert(res =~= sub);
        if j == b {
            assert(!spec_is_component_boundary(s[b]));
        } else {
            assert(!spec_is_component_boundary(s[b]));
        }
        assert(res[0] == s[b]);
        assert(!(res[0] is Separator));
        assert(!(res[0] matches GToken::Wildcard(Wildcard::Tree { .. })));
        if res.len() > 0 && !spec_has_sub_tokens(res[0]) {
            assert(!crate::token::spec_is_rooting(res[0]));
        }
    }
}

} // verus!
