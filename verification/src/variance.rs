//! The variance analyzer: classifies every subtree as invariant (matching
//! exactly one known text) or variant, with open or closed bounds, and
//! computes depth and breadth boundedness.
//!
//! Path comparison here is case-sensitive, as on POSIX platforms, so two
//! invariant texts are equal exactly when their characters are equal.

use vstd::prelude::*;

use crate::case::has_casing;
use crate::case::spec_has_casing;
use crate::text::char_to_string;
use crate::text::str_to_chars;
use crate::token::kind_model;
use crate::token::lemma_branches_model_index;
use crate::token::lemma_branches_model_len;
use crate::token::lemma_tokens_model_index;
use crate::token::lemma_tokens_model_len;
use crate::token::token_model;
use crate::token::tokens_model;
use crate::token::branches_model;
use crate::token::spec_any_branch_has_token;
use crate::token::spec_any_has_token;
use crate::token::spec_has_token;
use crate::token::spec_matches_query;
use crate::token::lemma_any_has_token_iff;
use crate::token::lemma_any_branch_has_token_iff;
use crate::token::Alternative;
use crate::token::Archetype;
use crate::token::GToken;
use crate::token::Literal;
use crate::token::Class;
use crate::token::Repetition;
use crate::token::Token;
use crate::token::TokenKind;
use crate::token::TokenQuery;
use crate::token::Tokenized;
use crate::token::Wildcard;
use crate::token::SEPARATOR;

verus! {

/// Whether path text on this platform is compared without regard to case.
/// Paths here are case-sensitive, as on POSIX platforms.
pub const PATHS_ARE_CASE_INSENSITIVE: bool = false;

/// Whether a variant subtree is constrained (closed) to some set of matches
/// or unconstrained (open) along some axis.
#[derive(Clone, Copy, Debug, PartialEq, Eq, Structural, Hash)]
pub enum Boundedness {
    Closed,
    Open,
}

impl Boundedness {
    /// Whether the bounds are closed.
    pub fn is_closed(&self) -> (r: bool)
        ensures
            r == (*self is Closed),
    {
        match self {
            Boundedness::Closed => true,
            Boundedness::Open => false,
        }
    }

    /// Whether the bounds are open.
    pub fn is_open(&self) -> (r: bool)
        ensures
            r == (*self is Open),
    {
        match self {
            Boundedness::Closed => false,
            Boundedness::Open => true,
        }
    }
}

/// The variance of a subtree: it matches exactly the one given text, or it
/// matches a variant set of texts with the given bounds.
#[derive(Debug)]
pub enum Variance {
    Invariant(String),
    Variant(Boundedness),
}

/// The mathematical model of a variance, with text as a character sequence.
pub enum GVariance {
    Invariant(Seq<char>),
    Variant(Boundedness),
}

/// The model of an executable variance.
pub open spec fn variance_model(v: Variance) -> GVariance {
    match v {
        Variance::Invariant(t) => GVariance::Invariant(t@),
        Variance::Variant(b) => GVariance::Variant(b),
    }
}

/// The conjunction of two variances: invariant texts concatenate, two open
/// variances stay open, and any other combination is closed.
pub open spec fn spec_variance_add(a: GVariance, b: GVariance) -> GVariance {
    match (a, b) {
        (GVariance::Invariant(x), GVariance::Invariant(y)) => GVariance::Invariant(x + y),
        (GVariance::Variant(Boundedness::Open), GVariance::Variant(Boundedness::Open)) =>
            GVariance::Variant(Boundedness::Open),
        _ => GVariance::Variant(Boundedness::Closed),
    }
}

/// The conjunction of variances is associative.
pub proof fn lemma_variance_add_assoc(a: GVariance, b: GVariance, c: GVariance)
    ensures
        spec_variance_add(spec_variance_add(a, b), c) == spec_variance_add(
            a,
            spec_variance_add(b, c),
        ),
{
    match (a, b, c) {
        (GVariance::Invariant(x), GVariance::Invariant(y), GVariance::Invariant(z)) => {
            assert((x + y) + z =~= x + (y + z));
        },
        _ => {},
    }
}

/// The variance of a single class member. A single character matches exactly
/// itself; a range of more than one character is variant and closed.
pub open spec fn spec_archetype_variance(a: Archetype) -> GVariance {
    match a {
        Archetype::Character(c) => if PATHS_ARE_CASE_INSENSITIVE {
            GVariance::Variant(Boundedness::Closed)
        } else {
            GVariance::Invariant(seq![c])
        },
        Archetype::Range(lo, hi) => if lo != hi || PATHS_ARE_CASE_INSENSITIVE {
            GVariance::Variant(Boundedness::Closed)
        } else {
            GVariance::Invariant(seq![lo])
        },
    }
}

/// The variances of a sequence of class members.
pub open spec fn spec_arch_variances(s: Seq<Archetype>) -> Seq<GVariance> {
    Seq::new(s.len(), |i: int| spec_archetype_variance(s[i]))
}

/// Whether every variance of the sequence equals the first.
pub open spec fn spec_all_eq(s: Seq<GVariance>) -> bool {
    forall|i: int| 0 <= i < s.len() ==> #[trigger] s[i] == s[0]
}

/// The disjunction of variances: their common value when all are equal, and
/// variant with closed bounds otherwise.
pub open spec fn spec_disj(s: Seq<GVariance>) -> GVariance {
    if s.len() == 0 {
        GVariance::Invariant(Seq::empty())
    } else if spec_all_eq(s) {
        s[0]
    } else {
        GVariance::Variant(Boundedness::Closed)
    }
}

/// The variance of a class: negated classes are variant and closed, and
/// other classes take the disjunction of their members.
pub open spec fn spec_class_variance(is_negated: bool, archetypes: Seq<Archetype>) -> GVariance {
    if is_negated {
        GVariance::Variant(Boundedness::Closed)
    } else {
        spec_disj(spec_arch_variances(archetypes))
    }
}

/// The variance of a literal: variant and closed when its recorded case
/// sensitivity disagrees with the platform and its text has cased characters,
/// and invariant in its text otherwise.
pub open spec fn spec_literal_variance(text: Seq<char>, is_case_insensitive: bool) -> GVariance {
    if (PATHS_ARE_CASE_INSENSITIVE != is_case_insensitive) && spec_has_casing(text) {
        GVariance::Variant(Boundedness::Closed)
    } else {
        GVariance::Invariant(text)
    }
}

/// The given text repeated `n` times.
pub open spec fn spec_seq_repeat(s: Seq<char>, n: nat) -> Seq<char>
    decreases n,
{
    if n == 0 {
        Seq::empty()
    } else {
        s + spec_seq_repeat(s, (n - 1) as nat)
    }
}

/// The variance of a token.
pub open spec fn spec_token_variance(g: GToken) -> GVariance
    decreases g, 1int,
{
    match g {
        GToken::Alternative(bs) => spec_disj(spec_branch_variances(bs)),
        GToken::Class { is_negated, archetypes } => spec_class_variance(is_negated, archetypes),
        GToken::Literal { text, is_case_insensitive } => spec_literal_variance(
            text,
            is_case_insensitive,
        ),
        GToken::Repetition { tokens, lower, step } => {
            let pairs = spec_variances_of(tokens);
            let base = if pairs.len() == 0 {
                GVariance::Invariant(Seq::empty())
            } else {
                spec_coalesce_fold(pairs[0], pairs.drop_first())
            };
            match step {
                Some(s) => if s == 0 {
                    match base {
                        GVariance::Invariant(t) => GVariance::Invariant(
                            spec_seq_repeat(t, lower as nat),
                        ),
                        v => v,
                    }
                } else {
                    spec_variance_add(base, GVariance::Variant(Boundedness::Open))
                },
                None => spec_variance_add(base, GVariance::Variant(Boundedness::Open)),
            }
        },
        GToken::Separator => GVariance::Invariant(seq![SEPARATOR]),
        GToken::Wildcard(_) => GVariance::Variant(Boundedness::Open),
    }
}

/// The conjunctive variance of a token sequence: the fold of `add` over the
/// tokens' variances, from the left. An empty sequence is invariant in the
/// empty text.
pub open spec fn spec_tokens_variance(s: Seq<GToken>) -> GVariance
    decreases s, 2int,
{
    if s.len() == 0 {
        GVariance::Invariant(Seq::empty())
    } else if s.len() == 1 {
        spec_token_variance(s[0])
    } else {
        spec_variance_add(spec_tokens_variance(s.drop_last()), spec_token_variance(s.last()))
    }
}

/// The conjunctive variances of a sequence of branches.
pub open spec fn spec_branch_variances(bs: Seq<Seq<GToken>>) -> Seq<GVariance>
    decreases bs,
{
    if bs.len() == 0 {
        Seq::empty()
    } else {
        seq![spec_tokens_variance(bs[0])] + spec_branch_variances(bs.drop_first())
    }
}

/// Each token of a sequence paired with whether it is a separator and with
/// its variance, in order.
pub open spec fn spec_variances_of(s: Seq<GToken>) -> Seq<(bool, GVariance)>
    decreases s,
{
    if s.len() == 0 {
        Seq::empty()
    } else {
        seq![(s[0] is Separator, spec_token_variance(s[0]))] + spec_variances_of(s.drop_first())
    }
}

/// The conjunctive variance of a coalesced sequence: a separator next to an
/// open variance merges into that open variance, which keeps separators from
/// breaking the open variance of a repeated sub-pattern.
pub open spec fn spec_coalesce_fold(cur: (bool, GVariance), rest: Seq<(bool, GVariance)>) ->
    GVariance
    decreases rest.len(),
{
    if rest.len() == 0 {
        cur.1
    } else {
        let x = rest[0];
        if cur.0 && x.1 == GVariance::Variant(Boundedness::Open) {
            spec_coalesce_fold(x, rest.drop_first())
        } else if cur.1 == GVariance::Variant(Boundedness::Open) && x.0 {
            spec_coalesce_fold(cur, rest.drop_first())
        } else {
            spec_variance_add(cur.1, spec_coalesce_fold(x, rest.drop_first()))
        }
    }
}

pub proof fn lemma_branch_variances_len(bs: Seq<Seq<GToken>>)
    ensures
        spec_branch_variances(bs).len() == bs.len(),
    decreases bs,
{
    if bs.len() > 0 {
        lemma_branch_variances_len(bs.drop_first());
    }
}

pub proof fn lemma_branch_variances_index(bs: Seq<Seq<GToken>>, i: int)
    requires
        0 <= i < bs.len(),
    ensures
        spec_branch_variances(bs)[i] == spec_tokens_variance(bs[i]),
    decreases bs,
{
    lemma_branch_variances_len(bs);
    if i > 0 {
        lemma_branch_variances_index(bs.drop_first(), i - 1);
    }
}

pub proof fn lemma_variances_of_len(s: Seq<GToken>)
    ensures
        spec_variances_of(s).len() == s.len(),
    decreases s,
{
    if s.len() > 0 {
        lemma_variances_of_len(s.drop_first());
    }
}

pub proof fn lemma_variances_of_index(s: Seq<GToken>, i: int)
    requires
        0 <= i < s.len(),
    ensures
        spec_variances_of(s)[i] == (s[i] is Separator, spec_token_variance(s[i])),
    decreases s,
{
    lemma_variances_of_len(s);
    if i > 0 {
        lemma_variances_of_index(s.drop_first(), i - 1);
    }
}

/// Appending a token on the right folds its variance into the conjunction.
pub proof fn lemma_tokens_variance_push(s: Seq<GToken>, g: GToken)
    ensures
        spec_tokens_variance(s.push(g)) == if s.len() == 0 {
            spec_token_variance(g)
        } else {
            spec_variance_add(spec_tokens_variance(s), spec_token_variance(g))
        },
{
    assert(s.push(g).drop_last() =~= s);
    assert(s.push(g).last() == g);
}

/// The conjunctive variance of a concatenation of two non-empty token
/// sequences is the conjunction of their variances.
pub proof fn lemma_variance_concatenation(a: Seq<GToken>, b: Seq<GToken>)
    requires
        a.len() > 0,
        b.len() > 0,
    ensures
        spec_tokens_variance(a + b) == spec_variance_add(
            spec_tokens_variance(a),
            spec_tokens_variance(b),
        ),
    decreases b.len(),
{
    if b.len() == 1 {
        assert((a + b).drop_last() =~= a);
        assert((a + b).last() == b[0]);
    } else {
        lemma_variance_concatenation(a, b.drop_last());
        assert((a + b).drop_last() =~= a + b.drop_last());
        assert((a + b).last() == b.last());
        lemma_variance_add_assoc(
            spec_tokens_variance(a),
            spec_tokens_variance(b.drop_last()),
            spec_token_variance(b.last()),
        );
    }
}

impl Clone for Variance {
    fn clone(&self) -> (r: Self)
        ensures
            variance_model(r) == variance_model(*self),
    {
        match self {
            Variance::Invariant(t) => Variance::Invariant(t.clone()),
            Variance::Variant(b) => Variance::Variant(*b),
        }
    }
}

impl PartialEq for Variance {
    fn eq(&self, other: &Self) -> (r: bool) {
        match (self, other) {
            (Variance::Invariant(x), Variance::Invariant(y)) => *x == *y,
            (Variance::Variant(x), Variance::Variant(y)) => match (x, y) {
                (Boundedness::Closed, Boundedness::Closed) => true,
                (Boundedness::Open, Boundedness::Open) => true,
                _ => false,
            },
            _ => false,
        }
    }
}

impl vstd::std_specs::cmp::PartialEqSpecImpl for Variance {
    open spec fn obeys_eq_spec() -> bool {
        true
    }

    open spec fn eq_spec(&self, other: &Self) -> bool {
        variance_model(*self) == variance_model(*other)
    }
}

impl Variance {
    /// Applies a function to the text of an invariant variance, leaving a
    /// variant variance unchanged.
    pub fn map_invariant<F: FnOnce(String) -> String>(self, f: F) -> (r: Variance)
        requires
            self matches Variance::Invariant(t) ==> f.requires((t,)),
        ensures
            self matches Variance::Variant(b) ==> r == self,
            self matches Variance::Invariant(t) ==> (r matches Variance::Invariant(u)
                && f.ensures((t,), u)),
    {
        match self {
            Variance::Invariant(t) => Variance::Invariant(f(t)),
            v => v,
        }
    }

    /// The text of an invariant variance.
    pub fn to_invariant_string(&self) -> (r: Option<String>)
        ensures
            match variance_model(*self) {
                GVariance::Invariant(t) => r matches Some(u) && u@ == t,
                GVariance::Variant(_) => r is None,
            },
    {
        match self {
            Variance::Invariant(t) => Some(t.clone()),
            _ => None,
        }
    }

    /// The bounds of this variance; an invariant variance is closed.
    pub fn boundedness(&self) -> (r: Boundedness)
        ensures
            r == spec_boundedness(variance_model(*self)),
    {
        match self {
            Variance::Variant(b) => *b,
            _ => Boundedness::Closed,
        }
    }

    /// Whether this variance is invariant.
    pub fn is_invariant(&self) -> (r: bool)
        ensures
            r == (variance_model(*self) is Invariant),
    {
        match self {
            Variance::Invariant(_) => true,
            _ => false,
        }
    }

    /// Whether this variance is variant.
    pub fn is_variant(&self) -> (r: bool)
        ensures
            r == (variance_model(*self) is Variant),
    {
        match self {
            Variance::Variant(_) => true,
            _ => false,
        }
    }

    /// The conjunction of this variance with another.
    pub fn add(self, rhs: Variance) -> (r: Variance)
        ensures
            variance_model(r) == spec_variance_add(variance_model(self), variance_model(rhs)),
    {
        match (self, rhs) {
            (Variance::Invariant(x), Variance::Invariant(y)) => {
                let joined = x.concat(y.as_str());
                Variance::Invariant(joined)
            },
            (Variance::Variant(Boundedness::Open), Variance::Variant(Boundedness::Open)) =>
                Variance::Variant(Boundedness::Open),
            _ => Variance::Variant(Boundedness::Closed),
        }
    }
}

/// The bounds of a variance; an invariant variance is closed.
pub open spec fn spec_boundedness(v: GVariance) -> Boundedness {
    match v {
        GVariance::Variant(b) => b,
        _ => Boundedness::Closed,
    }
}

impl Archetype {
    /// The variance of this class member.
    pub fn variance(&self) -> (r: Variance)
        ensures
            variance_model(r) == spec_archetype_variance(*self),
    {
        match self {
            Archetype::Character(c) => Variance::Invariant(char_to_string(*c)),
            Archetype::Range(lo, hi) => {
                if lo == hi {
                    Variance::Invariant(char_to_string(*lo))
                } else {
                    Variance::Variant(Boundedness::Closed)
                }
            },
        }
    }
}

impl Class {
    /// The members of this class.
    pub fn archetypes(&self) -> (r: &Vec<Archetype>)
        ensures
            *r == self.archetypes,
    {
        &self.archetypes
    }

    /// Whether this class is negated.
    pub fn is_negated(&self) -> (r: bool)
        ensures
            r == self.is_negated,
    {
        self.is_negated
    }

    /// The variance of this class: the disjunction of its members, and
    /// variant with closed bounds when negated.
    pub fn variance(&self) -> (r: Variance)
        ensures
            variance_model(r) == spec_class_variance(self.is_negated, self.archetypes@),
    {
        if self.is_negated {
            return Variance::Variant(Boundedness::Closed);
        }
        let ghost vars = spec_arch_variances(self.archetypes@);
        let n = self.archetypes.len();
        if n == 0 {
            return Variance::Invariant(String::new());
        }
        let first = self.archetypes[0].variance();
        let mut all_eq = true;
        for i in 1..n
            invariant
                n == self.archetypes@.len(),
                n == vars.len(),
                vars == spec_arch_variances(self.archetypes@),
                variance_model(first) == vars[0],
                all_eq == (forall|p: int| 0 <= p < i ==> #[trigger] vars[p] == vars[0]),
            decreases n - i,
        {
            let v = self.archetypes[i].variance();
            proof {
                assert(vars[i as int] == variance_model(v));
            }
            if !(v == first) {
                proof {
                    assert(vars[i as int] != vars[0]);
                }
                all_eq = false;
            }
        }
        if all_eq {
            first
        } else {
            Variance::Variant(Boundedness::Closed)
        }
    }
}

impl Literal {
    /// The text of this literal.
    pub fn text(&self) -> (r: &String)
        ensures
            *r == self.text,
    {
        &self.text
    }

    /// Whether this literal was parsed under a case-insensitive flag.
    pub fn is_case_insensitive(&self) -> (r: bool)
        ensures
            r == self.is_case_insensitive,
    {
        self.is_case_insensitive
    }

    /// Whether this literal can match more than one spelling: its recorded
    /// case sensitivity disagrees with the platform and its text has cased
    /// characters.
    pub fn has_variant_casing(&self) -> (r: bool)
        ensures
            r == ((PATHS_ARE_CASE_INSENSITIVE != self.is_case_insensitive) && spec_has_casing(
                self.text@,
            )),
    {
        let chars = str_to_chars(self.text.as_str());
        (PATHS_ARE_CASE_INSENSITIVE != self.is_case_insensitive) && has_casing(&chars)
    }

    /// The variance of this literal.
    pub fn variance(&self) -> (r: Variance)
        ensures
            variance_model(r) == spec_literal_variance(self.text@, self.is_case_insensitive),
    {
        if self.has_variant_casing() {
            Variance::Variant(Boundedness::Closed)
        } else {
            Variance::Invariant(self.text.clone())
        }
    }
}

/// The conjunctive variance of a token sequence.
pub fn conjunctive_variance(tokens: &Vec<Token>) -> (r: Variance)
    ensures
        variance_model(r) == spec_tokens_variance(tokens_model(tokens@)),
    decreases *tokens,
{
    let ghost gs = tokens_model(tokens@);
    proof {
        lemma_tokens_model_len(tokens@);
    }
    let n = tokens.len();
    if n == 0 {
        return Variance::Invariant(String::new());
    }
    proof {
        lemma_tokens_model_index(tokens@, 0);
    }
    let mut acc = tokens[0].kind.variance();
    proof {
        assert(gs.subrange(0, 1) =~= seq![gs[0]]);
    }
    for i in 1..n
        invariant
            n == tokens@.len(),
            n == gs.len(),
            gs == tokens_model(tokens@),
            n >= 1,
            variance_model(acc) == spec_tokens_variance(gs.subrange(0, i as int)),
        decreases n - i,
    {
        proof {
            lemma_tokens_model_index(tokens@, i as int);
        }
        let v = tokens[i].kind.variance();
        proof {
            assert(gs.subrange(0, i + 1) =~= gs.subrange(0, i as int).push(gs[i as int]));
            lemma_tokens_variance_push(gs.subrange(0, i as int), gs[i as int]);
        }
        acc = acc.add(v);
    }
    proof {
        assert(gs.subrange(0, n as int) =~= gs);
    }
    acc
}

impl Alternative {
    /// The variance of this alternative: the disjunction of the conjunctive
    /// variances of its branches.
    pub fn variance(&self) -> (r: Variance)
        ensures
            variance_model(r) == spec_disj(spec_branch_variances(branches_model(self.0@))),
        decreases *self,
    {
        let ghost bs = branches_model(self.0@);
        let ghost vars = spec_branch_variances(bs);
        proof {
            lemma_branches_model_len(self.0@);
            lemma_branch_variances_len(bs);
        }
        let n = self.0.len();
        if n == 0 {
            return Variance::Invariant(String::new());
        }
        proof {
            lemma_branches_model_index(self.0@, 0);
            lemma_branch_variances_index(bs, 0);
        }
        let first = conjunctive_variance(&self.0[0]);
        let mut all_eq = true;
        for i in 1..n
            invariant
                n == self.0@.len(),
                n == bs.len(),
                n == vars.len(),
                bs == branches_model(self.0@),
                vars == spec_branch_variances(bs),
                variance_model(first) == vars[0],
                all_eq == (forall|p: int| 0 <= p < i ==> #[trigger] vars[p] == vars[0]),
            decreases n - i,
        {
            proof {
                lemma_branches_model_index(self.0@, i as int);
                lemma_branch_variances_index(bs, i as int);
            }
            let v = conjunctive_variance(&self.0[i]);
            proof {
                assert(vars[i as int] == variance_model(v));
            }
            if !(v == first) {
                proof {
                    assert(vars[i as int] != vars[0]);
                }
                all_eq = false;
            }
        }
        if all_eq {
            first
        } else {
            Variance::Variant(Boundedness::Closed)
        }
    }
}

/// Folds the variance of the coalesced pair sequence from position `i`, with
/// `cur` the most recently kept pair.
fn coalesce_fold_exec(
    pairs: &Vec<(bool, Variance)>,
    cur_sep: bool,
    cur_var: Variance,
    i: usize,
    Ghost(gp): Ghost<Seq<(bool, GVariance)>>,
) -> (r: Variance)
    requires
        i <= pairs@.len(),
        gp.len() == pairs@.len(),
        forall|k: int|
            0 <= k < pairs@.len() ==> #[trigger] gp[k] == (
                pairs@[k].0,
                variance_model(pairs@[k].1),
            ),
    ensures
        variance_model(r) == spec_coalesce_fold(
            (cur_sep, variance_model(cur_var)),
            gp.subrange(i as int, gp.len() as int),
        ),
    decreases pairs@.len() - i,
{
    if i >= pairs.len() {
        proof {
            assert(gp.subrange(i as int, gp.len() as int) =~= Seq::empty());
        }
        return cur_var;
    }
    proof {
        assert(gp.subrange(i as int, gp.len() as int)[0] == gp[i as int]);
        assert(gp.subrange(i as int, gp.len() as int).drop_first() =~= gp.subrange(
            i + 1,
            gp.len() as int,
        ));
    }
    let x_sep = pairs[i].0;
    let x_var = pairs[i].1.clone();
    let x_is_open = match x_var {
        Variance::Variant(Boundedness::Open) => true,
        _ => false,
    };
    let cur_is_open = match cur_var {
        Variance::Variant(Boundedness::Open) => true,
        _ => false,
    };
    if cur_sep && x_is_open {
        coalesce_fold_exec(pairs, x_sep, x_var, i + 1, Ghost(gp))
    } else if cur_is_open && x_sep {
        coalesce_fold_exec(pairs, cur_sep, cur_var, i + 1, Ghost(gp))
    } else {
        let rest = coalesce_fold_exec(pairs, x_sep, x_var, i + 1, Ghost(gp));
        cur_var.add(rest)
    }
}

impl Repetition {
    /// The variance of this repetition: the conjunctive variance of its
    /// coalesced sub-pattern; a repetition with equal bounds repeats an
    /// invariant text, and any other repetition adds open variance.
    pub fn variance(&self) -> (r: Variance)
        ensures
            variance_model(r) == spec_token_variance(
                GToken::Repetition {
                    tokens: tokens_model(self.tokens@),
                    lower: self.lower,
                    step: self.step,
                },
            ),
        decreases *self,
    {
        let ghost gs = tokens_model(self.tokens@);
        let ghost gpairs = spec_variances_of(gs);
        proof {
            lemma_tokens_model_len(self.tokens@);
            lemma_variances_of_len(gs);
        }
        let n = self.tokens.len();
        let mut pairs: Vec<(bool, Variance)> = Vec::new();
        for i in 0..n
            invariant
                n == self.tokens@.len(),
                n == gs.len(),
                n == gpairs.len(),
                gs == tokens_model(self.tokens@),
                gpairs == spec_variances_of(gs),
                pairs@.len() == i,
                forall|k: int|
                    0 <= k < i ==> #[trigger] gpairs[k] == (
                        pairs@[k].0,
                        variance_model(pairs@[k].1),
                    ),
            decreases n - i,
        {
            proof {
                lemma_tokens_model_index(self.tokens@, i as int);
                lemma_variances_of_index(gs, i as int);
            }
            let is_sep = match &self.tokens[i].kind {
                TokenKind::Separator => true,
                _ => false,
            };
            let v = self.tokens[i].kind.variance();
            pairs.push((is_sep, v));
        }
        let base = if pairs.len() == 0 {
            Variance::Invariant(String::new())
        } else {
            proof {
                assert(gpairs.subrange(1, gpairs.len() as int) =~= gpairs.drop_first());
            }
            let first_sep = pairs[0].0;
            let first_var = pairs[0].1.clone();
            coalesce_fold_exec(&pairs, first_sep, first_var, 1, Ghost(gpairs))
        };
        match self.step {
            Some(s) => {
                if s == 0 {
                    match base {
                        Variance::Invariant(t) => {
                            let repeated = repeat_text(&t, self.lower);
                            Variance::Invariant(repeated)
                        },
                        v => v,
                    }
                } else {
                    base.add(Variance::Variant(Boundedness::Open))
                }
            },
            None => base.add(Variance::Variant(Boundedness::Open)),
        }
    }
}

/// The given text repeated `n` times.
fn repeat_text(t: &String, n: usize) -> (r: String)
    ensures
        r@ == spec_seq_repeat(t@, n as nat),
{
    let mut out = String::new();
    let mut k: usize = 0;
    while k < n
        invariant
            k <= n,
            out@ == spec_seq_repeat(t@, k as nat),
        decreases n - k,
    {
        out.append(t.as_str());
        k = k + 1;
        proof {
            lemma_seq_repeat_push(t@, (k - 1) as nat);
        }
    }
    out
}

/// Repeating once more appends the text on the right.
proof fn lemma_seq_repeat_push(s: Seq<char>, n: nat)
    ensures
        spec_seq_repeat(s, n + 1) == spec_seq_repeat(s, n) + s,
    decreases n,
{
    if n == 0 {
        assert(spec_seq_repeat(s, 0) == Seq::<char>::empty());
        assert(spec_seq_repeat(s, 1) =~= s);
        assert(spec_seq_repeat(s, 0) + s =~= s);
    } else {
        lemma_seq_repeat_push(s, (n - 1) as nat);
        assert(spec_seq_repeat(s, n + 1) == s + spec_seq_repeat(s, n));
        assert(s + (spec_seq_repeat(s, (n - 1) as nat) + s) =~= (s + spec_seq_repeat(
            s,
            (n - 1) as nat,
        )) + s);
    }
}

impl TokenKind {
    /// The variance of this token.
    pub fn variance(&self) -> (r: Variance)
        ensures
            variance_model(r) == spec_token_variance(kind_model(*self)),
        decreases *self,
    {
        match self {
            TokenKind::Alternative(a) => a.variance(),
            TokenKind::Class(c) => c.variance(),
            TokenKind::Literal(l) => l.variance(),
            TokenKind::Repetition(rep) => rep.variance(),
            TokenKind::Separator => {
                let sep = char_to_string(SEPARATOR);
                Variance::Invariant(sep)
            },
            TokenKind::Wildcard(_) => Variance::Variant(Boundedness::Open),
        }
    }
}

impl Tokenized {
    /// The variance of the whole expression: the conjunctive variance of its
    /// tokens.
    pub fn variance(&self) -> (r: Variance)
        ensures
            variance_model(r) == spec_tokens_variance(tokens_model(self.tokens@)),
    {
        conjunctive_variance(&self.tokens)
    }
}

} // verus!

verus! {

/// The depth boundedness of a token: open exactly when the token is a tree
/// wildcard, an alternative or repetition with an open-depth token inside, or
/// an unbounded repetition whose sub-pattern crosses a component boundary.
pub open spec fn spec_token_depth(g: GToken) -> Boundedness
    decreases g,
{
    match g {
        GToken::Wildcard(Wildcard::Tree { .. }) => Boundedness::Open,
        GToken::Alternative(bs) => if spec_any_branch_depth_open(bs) {
            Boundedness::Open
        } else {
            Boundedness::Closed
        },
        GToken::Repetition { tokens, step, .. } => if spec_any_depth_open(tokens) || (step
            is None && spec_any_has_token(tokens, TokenQuery::ComponentBoundary)) {
            Boundedness::Open
        } else {
            Boundedness::Closed
        },
        _ => Boundedness::Closed,
    }
}

/// Whether any token of the sequence has open depth.
pub open spec fn spec_any_depth_open(s: Seq<GToken>) -> bool
    decreases s,
{
    s.len() > 0 && (spec_token_depth(s[0]) is Open || spec_any_depth_open(s.drop_first()))
}

/// Whether any branch holds a token with open depth.
pub open spec fn spec_any_branch_depth_open(bs: Seq<Seq<GToken>>) -> bool
    decreases bs,
{
    bs.len() > 0 && (spec_any_depth_open(bs[0]) || spec_any_branch_depth_open(bs.drop_first()))
}

/// The breadth boundedness of a token: open exactly when the token is a tree
/// or zero-or-more wildcard, or an alternative or repetition with an
/// open-breadth token inside.
pub open spec fn spec_token_breadth(g: GToken) -> Boundedness
    decreases g,
{
    match g {
        GToken::Wildcard(Wildcard::Tree { .. }) => Boundedness::Open,
        GToken::Wildcard(Wildcard::ZeroOrMore(_)) => Boundedness::Open,
        GToken::Alternative(bs) => if spec_any_branch_breadth_open(bs) {
            Boundedness::Open
        } else {
            Boundedness::Closed
        },
        GToken::Repetition { tokens, .. } => if spec_any_breadth_open(tokens) {
            Boundedness::Open
        } else {
            Boundedness::Closed
        },
        _ => Boundedness::Closed,
    }
}

/// Whether any token of the sequence has open breadth.
pub open spec fn spec_any_breadth_open(s: Seq<GToken>) -> bool
    decreases s,
{
    s.len() > 0 && (spec_token_breadth(s[0]) is Open || spec_any_breadth_open(s.drop_first()))
}

/// Whether any branch holds a token with open breadth.
pub open spec fn spec_any_branch_breadth_open(bs: Seq<Seq<GToken>>) -> bool
    decreases bs,
{
    bs.len() > 0 && (spec_any_breadth_open(bs[0]) || spec_any_branch_breadth_open(
        bs.drop_first(),
    ))
}

/// `spec_any_depth_open` holds exactly when some token has open depth.
pub proof fn lemma_any_depth_open_iff(s: Seq<GToken>)
    ensures
        spec_any_depth_open(s) <==> (exists|i: int|
            0 <= i < s.len() && (#[trigger] spec_token_depth(s[i])) is Open),
    decreases s,
{
    if s.len() > 0 {
        lemma_any_depth_open_iff(s.drop_first());
        if spec_any_depth_open(s) {
            if !(spec_token_depth(s[0]) is Open) {
                let k = choose|i: int|
                    0 <= i < s.drop_first().len() && (#[trigger] spec_token_depth(
                        s.drop_first()[i],
                    )) is Open;
                assert(s.drop_first()[k] == s[k + 1]);
                assert(spec_token_depth(s[k + 1]) is Open);
            }
        }
        if exists|i: int| 0 <= i < s.len() && (#[trigger] spec_token_depth(s[i])) is Open {
            let k = choose|i: int|
                0 <= i < s.len() && (#[trigger] spec_token_depth(s[i])) is Open;
            if k > 0 {
                assert(s.drop_first()[k - 1] == s[k]);
                assert(spec_token_depth(s.drop_first()[k - 1]) is Open);
            }
        }
    }
}

/// `spec_any_branch_depth_open` holds exactly when some branch has a token
/// with open depth.
pub proof fn lemma_any_branch_depth_open_iff(bs: Seq<Seq<GToken>>)
    ensures
        spec_any_branch_depth_open(bs) <==> (exists|i: int|
            0 <= i < bs.len() && #[trigger] spec_any_depth_open(bs[i])),
    decreases bs,
{
    if bs.len() > 0 {
        lemma_any_branch_depth_open_iff(bs.drop_first());
        if spec_any_branch_depth_open(bs) {
            if !spec_any_depth_open(bs[0]) {
                let k = choose|i: int|
                    0 <= i < bs.drop_first().len() && #[trigger] spec_any_depth_open(
                        bs.drop_first()[i],
                    );
                assert(bs.drop_first()[k] == bs[k + 1]);
                assert(spec_any_depth_open(bs[k + 1]));
            }
        }
        if exists|i: int| 0 <= i < bs.len() && #[trigger] spec_any_depth_open(bs[i]) {
            let k = choose|i: int| 0 <= i < bs.len() && #[trigger] spec_any_depth_open(bs[i]);
            if k > 0 {
                assert(bs.drop_first()[k - 1] == bs[k]);
                assert(spec_any_depth_open(bs.drop_first()[k - 1]));
            }
        }
    }
}

/// `spec_any_breadth_open` holds exactly when some token has open breadth.
pub proof fn lemma_any_breadth_open_iff(s: Seq<GToken>)
    ensures
        spec_any_breadth_open(s) <==> (exists|i: int|
            0 <= i < s.len() && (#[trigger] spec_token_breadth(s[i])) is Open),
    decreases s,
{
    if s.len() > 0 {
        lemma_any_breadth_open_iff(s.drop_first());
        if spec_any_breadth_open(s) {
            if !(spec_token_breadth(s[0]) is Open) {
                let k = choose|i: int|
                    0 <= i < s.drop_first().len() && (#[trigger] spec_token_breadth(
                        s.drop_first()[i],
                    )) is Open;
                assert(s.drop_first()[k] == s[k + 1]);
                assert(spec_token_breadth(s[k + 1]) is Open);
            }
        }
        if exists|i: int| 0 <= i < s.len() && (#[trigger] spec_token_breadth(s[i])) is Open {
            let k = choose|i: int|
                0 <= i < s.len() && (#[trigger] spec_token_breadth(s[i])) is Open;
            if k > 0 {
                assert(s.drop_first()[k - 1] == s[k]);
                assert(spec_token_breadth(s.drop_first()[k - 1]) is Open);
            }
        }
    }
}

/// `spec_any_branch_breadth_open` holds exactly when some branch has a token
/// with open breadth.
pub proof fn lemma_any_branch_breadth_open_iff(bs: Seq<Seq<GToken>>)
    ensures
        spec_any_branch_breadth_open(bs) <==> (exists|i: int|
            0 <= i < bs.len() && #[trigger] spec_any_breadth_open(bs[i])),
    decreases bs,
{
    if bs.len() > 0 {
        lemma_any_branch_breadth_open_iff(bs.drop_first());
        if spec_any_branch_breadth_open(bs) {
            if !spec_any_breadth_open(bs[0]) {
                let k = choose|i: int|
                    0 <= i < bs.drop_first().len() && #[trigger] spec_any_breadth_open(
                        bs.drop_first()[i],
                    );
                assert(bs.drop_first()[k] == bs[k + 1]);
                assert(spec_any_breadth_open(bs[k + 1]));
            }
        }
        if exists|i: int| 0 <= i < bs.len() && #[trigger] spec_any_breadth_open(bs[i]) {
            let k = choose|i: int| 0 <= i < bs.len() && #[trigger] spec_any_breadth_open(bs[i]);
            if k > 0 {
                assert(bs.drop_first()[k - 1] == bs[k]);
                assert(spec_any_breadth_open(bs.drop_first()[k - 1]));
            }
        }
    }
}

/// A token with a tree wildcard among its descendants has open depth.
pub proof fn lemma_tree_depth_open(g: GToken)
    requires
        spec_has_token(g, TokenQuery::TreeWildcard),
    ensures
        spec_token_depth(g) is Open,
    decreases g,
{
    match g {
        GToken::Alternative(bs) => {
            lemma_tree_depth_open_branches(bs);
        },
        GToken::Repetition { tokens, .. } => {
            lemma_tree_depth_open_tokens(tokens);
        },
        _ => {},
    }
}

/// A token sequence with a tree wildcard among its descendants has a token
/// with open depth.
pub proof fn lemma_tree_depth_open_tokens(s: Seq<GToken>)
    requires
        spec_any_has_token(s, TokenQuery::TreeWildcard),
    ensures
        spec_any_depth_open(s),
    decreases s,
{
    if spec_has_token(s[0], TokenQuery::TreeWildcard) {
        lemma_tree_depth_open(s[0]);
    } else {
        lemma_tree_depth_open_tokens(s.drop_first());
    }
}

/// A branch sequence with a tree wildcard among its descendants has a branch
/// with an open-depth token.
pub proof fn lemma_tree_depth_open_branches(bs: Seq<Seq<GToken>>)
    requires
        spec_any_branch_has_token(bs, TokenQuery::TreeWildcard),
    ensures
        spec_any_branch_depth_open(bs),
    decreases bs,
{
    if spec_any_has_token(bs[0], TokenQuery::TreeWildcard) {
        lemma_tree_depth_open_tokens(bs[0]);
    } else {
        lemma_tree_depth_open_branches(bs.drop_first());
    }
}

/// Whether any token of the sequence has open depth.
pub fn any_depth_open(tokens: &Vec<Token>) -> (r: bool)
    ensures
        r == spec_any_depth_open(tokens_model(tokens@)),
    decreases *tokens,
{
    let ghost ts = tokens_model(tokens@);
    proof {
        lemma_tokens_model_len(tokens@);
    }
    let n = tokens.len();
    for i in 0..n
        invariant
            ts == tokens_model(tokens@),
            n == tokens@.len(),
            n == ts.len(),
            forall|p: int| 0 <= p < i ==> !((#[trigger] spec_token_depth(ts[p])) is Open),
        decreases n - i,
    {
        proof {
            lemma_tokens_model_index(tokens@, i as int);
        }
        let d = tokens[i].kind.depth();
        if d.is_open() {
            proof {
                assert(0 <= i < ts.len() && (spec_token_depth(ts[i as int])) is Open);
                lemma_any_depth_open_iff(ts);
            }
            return true;
        }
    }
    proof {
        lemma_any_depth_open_iff(ts);
    }
    false
}

/// Whether any token of the sequence has open breadth.
pub fn any_breadth_open(tokens: &Vec<Token>) -> (r: bool)
    ensures
        r == spec_any_breadth_open(tokens_model(tokens@)),
    decreases *tokens,
{
    let ghost ts = tokens_model(tokens@);
    proof {
        lemma_tokens_model_len(tokens@);
    }
    let n = tokens.len();
    for i in 0..n
        invariant
            ts == tokens_model(tokens@),
            n == tokens@.len(),
            n == ts.len(),
            forall|p: int| 0 <= p < i ==> !((#[trigger] spec_token_breadth(ts[p])) is Open),
        decreases n - i,
    {
        proof {
            lemma_tokens_model_index(tokens@, i as int);
        }
        let d = tokens[i].kind.breadth();
        if d.is_open() {
            proof {
                assert(0 <= i < ts.len() && (spec_token_breadth(ts[i as int])) is Open);
                lemma_any_breadth_open_iff(ts);
            }
            return true;
        }
    }
    proof {
        lemma_any_breadth_open_iff(ts);
    }
    false
}

impl TokenKind {
    /// The depth boundedness of this token.
    #[verifier::loop_isolation(false)]
    pub fn depth(&self) -> (r: Boundedness)
        ensures
            r == spec_token_depth(kind_model(*self)),
        decreases *self,
    {
        match self {
            TokenKind::Wildcard(Wildcard::Tree { .. }) => Boundedness::Open,
            TokenKind::Alternative(a) => {
                let ghost bs = branches_model(a.0@);
                proof {
                    lemma_branches_model_len(a.0@);
                }
                let n = a.0.len();
                let mut found = false;
                for i in 0..n
                    invariant
                        bs == branches_model(a.0@),
                        n == a.0@.len(),
                        n == bs.len(),
                        !found ==> forall|p: int|
                            0 <= p < i ==> !#[trigger] spec_any_depth_open(bs[p]),
                        found ==> spec_any_branch_depth_open(bs),
                    decreases n - i,
                {
                    if !found {
                        proof {
                            lemma_branches_model_index(a.0@, i as int);
                            assert(decreases_to!(*self => *a));
                            assert(decreases_to!(*a => a.0@[i as int]));
                        }
                        if any_depth_open(&a.0[i]) {
                            proof {
                                assert(spec_any_depth_open(bs[i as int]));
                                lemma_any_branch_depth_open_iff(bs);
                            }
                            found = true;
                        }
                    }
                }
                proof {
                    if !found {
                        lemma_any_branch_depth_open_iff(bs);
                    }
                }
                if found {
                    Boundedness::Open
                } else {
                    Boundedness::Closed
                }
            },
            TokenKind::Repetition(rep) => {
                let inner_open = any_depth_open(&rep.tokens);
                let unbounded_boundary = match rep.step {
                    None => rep.has_component_boundary(),
                    Some(_) => false,
                };
                if inner_open || unbounded_boundary {
                    Boundedness::Open
                } else {
                    Boundedness::Closed
                }
            },
            _ => Boundedness::Closed,
        }
    }

    /// The breadth boundedness of this token.
    #[verifier::loop_isolation(false)]
    pub fn breadth(&self) -> (r: Boundedness)
        ensures
            r == spec_token_breadth(kind_model(*self)),
        decreases *self,
    {
        match self {
            TokenKind::Wildcard(Wildcard::Tree { .. }) => Boundedness::Open,
            TokenKind::Wildcard(Wildcard::ZeroOrMore(_)) => Boundedness::Open,
            TokenKind::Alternative(a) => {
                let ghost bs = branches_model(a.0@);
                proof {
                    lemma_branches_model_len(a.0@);
                }
                let n = a.0.len();
                let mut found = false;
                for i in 0..n
                    invariant
                        bs == branches_model(a.0@),
                        n == a.0@.len(),
                        n == bs.len(),
                        !found ==> forall|p: int|
                            0 <= p < i ==> !#[trigger] spec_any_breadth_open(bs[p]),
                        found ==> spec_any_branch_breadth_open(bs),
                    decreases n - i,
                {
                    if !found {
                        proof {
                            lemma_branches_model_index(a.0@, i as int);
                            assert(decreases_to!(*self => *a));
                            assert(decreases_to!(*a => a.0@[i as int]));
                        }
                        if any_breadth_open(&a.0[i]) {
                            proof {
                                assert(spec_any_breadth_open(bs[i as int]));
                                lemma_any_branch_breadth_open_iff(bs);
                            }
                            found = true;
                        }
                    }
                }
                proof {
                    if !found {
                        lemma_any_branch_breadth_open_iff(bs);
                    }
                }
                if found {
                    Boundedness::Open
                } else {
                    Boundedness::Closed
                }
            },
            TokenKind::Repetition(rep) => {
                if any_breadth_open(&rep.tokens) {
                    Boundedness::Open
                } else {
                    Boundedness::Closed
                }
            },
            _ => Boundedness::Closed,
        }
    }
}

} // verus!
