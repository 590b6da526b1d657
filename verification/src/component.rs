//! Path components of a token sequence: maximal runs of non-separator
//! tokens, with a tree wildcard always forming a component of its own.

use vstd::prelude::*;
use vstd::string::StringExecFns;

use crate::token::branches_model;
use crate::token::clone_tokens;
use crate::token::lemma_branches_model_index;
use crate::token::lemma_branches_model_len;
use crate::token::kind_model;
use crate::token::lemma_tokens_model_index;
use crate::token::lemma_tokens_model_len;
use crate::token::spec_is_component_boundary;
use crate::token::token_model;
use crate::token::tokens_model;
use crate::token::GToken;
use crate::token::Literal;
use crate::token::Token;
use crate::token::TokenKind;
use crate::token::Wildcard;
use crate::variance::any_depth_open;
use crate::variance::conjunctive_variance;
use crate::variance::spec_any_depth_open;
use crate::variance::spec_tokens_variance;
use crate::variance::Boundedness;
use crate::variance::Variance;
use crate::variance::variance_model;

verus! {

/// The index of the first component boundary at or after `i`, or the length
/// of the sequence when none follows.
pub open spec fn spec_run_end(s: Seq<GToken>, i: int) -> int
    decreases s.len() - i,
{
    if i < 0 || i >= s.len() {
        s.len() as int
    } else if spec_is_component_boundary(s[i]) {
        i
    } else {
        spec_run_end(s, i + 1)
    }
}

/// The run end lies between `i` and the length, and no token before it is a
/// boundary.
pub proof fn lemma_run_end(s: Seq<GToken>, i: int)
    requires
        0 <= i <= s.len(),
    ensures
        i <= spec_run_end(s, i) <= s.len(),
        forall|k: int| i <= k < spec_run_end(s, i) ==> !spec_is_component_boundary(#[trigger] s[k]),
        spec_run_end(s, i) < s.len() ==> spec_is_component_boundary(s[spec_run_end(s, i)]),
    decreases s.len() - i,
{
    if i < s.len() && !spec_is_component_boundary(s[i]) {
        lemma_run_end(s, i + 1);
    }
}

/// The components of the token sequence from position `i` on: separators are
/// elided, a tree wildcard stands alone, and any other run of non-separator
/// tokens up to the next boundary is one component.
pub open spec fn spec_components_from(s: Seq<GToken>, i: int) -> Seq<Seq<GToken>>
    decreases s.len() - i,
    via spec_components_from_decreases
{
    if i < 0 || i >= s.len() {
        Seq::empty()
    } else if s[i] is Separator {
        spec_components_from(s, i + 1)
    } else if s[i] matches GToken::Wildcard(Wildcard::Tree { .. }) {
        seq![seq![s[i]]] + spec_components_from(s, i + 1)
    } else {
        seq![s.subrange(i, spec_run_end(s, i))] + spec_components_from(s, spec_run_end(s, i))
    }
}

#[via_fn]
proof fn spec_components_from_decreases(s: Seq<GToken>, i: int) {
    if 0 <= i < s.len() && !(s[i] is Separator) && !(s[i] matches GToken::Wildcard(
        Wildcard::Tree { .. },
    )) {
        lemma_run_end(s, i + 1);
        assert(!spec_is_component_boundary(s[i]));
        assert(spec_run_end(s, i) == spec_run_end(s, i + 1));
    }
}

/// The components of a whole token sequence.
pub open spec fn spec_components(s: Seq<GToken>) -> Seq<Seq<GToken>> {
    spec_components_from(s, 0)
}

/// A single path component: an ordered run of tokens with no component
/// boundary inside, or one tree wildcard.
#[derive(Debug)]
pub struct Component {
    pub tokens: Vec<Token>,
}

impl Component {
    /// The tokens of this component.
    pub fn tokens(&self) -> (t: &Vec<Token>)
        ensures
            *t == self.tokens,
    {
        &self.tokens
    }

    /// The conjunctive variance of this component.
    pub fn variance(&self) -> (r: Variance)
        ensures
            variance_model(r) == spec_tokens_variance(tokens_model(self.tokens@)),
    {
        conjunctive_variance(&self.tokens)
    }

    /// The depth boundedness of this component: open when any of its tokens
    /// has open depth.
    pub fn depth(&self) -> (r: Boundedness)
        ensures
            r == (if spec_any_depth_open(tokens_model(self.tokens@)) {
                Boundedness::Open
            } else {
                Boundedness::Closed
            }),
    {
        if any_depth_open(&self.tokens) {
            Boundedness::Open
        } else {
            Boundedness::Closed
        }
    }

    /// The literal sequence of this component: its literals, in order, when
    /// every token is a literal; nothing otherwise. An empty component has no
    /// literal sequence.
    pub fn literal(&self) -> (r: Option<LiteralSequence>)
        ensures
            match r {
                Some(ls) => {
                    &&& self.tokens@.len() > 0
                    &&& ls.literals@.len() == self.tokens@.len()
                    &&& forall|k: int|
                        0 <= k < self.tokens@.len() ==> token_model(#[trigger] self.tokens@[k])
                            == (GToken::Literal {
                            text: ls.literals@[k].text@,
                            is_case_insensitive: ls.literals@[k].is_case_insensitive,
                        })
                },
                None => self.tokens@.len() == 0 || (exists|k: int|
                    0 <= k < self.tokens@.len() && !(token_model(#[trigger] self.tokens@[k])
                        is Literal)),
            },
    {
        let n = self.tokens.len();
        if n == 0 {
            return None;
        }
        let mut literals: Vec<Literal> = Vec::new();
        for k in 0..n
            invariant
                n == self.tokens@.len(),
                literals@.len() == k,
                forall|p: int|
                    0 <= p < k ==> token_model(#[trigger] self.tokens@[p]) == (GToken::Literal {
                        text: literals@[p].text@,
                        is_case_insensitive: literals@[p].is_case_insensitive,
                    }),
            decreases n - k,
        {
            match &self.tokens[k].kind {
                TokenKind::Literal(l) => {
                    literals.push(l.clone());
                },
                _ => {
                    proof {
                        assert(!(token_model(self.tokens@[k as int]) is Literal));
                    }
                    return None;
                },
            }
        }
        Some(LiteralSequence { literals })
    }
}

/// The literals of a component whose tokens are all literals.
#[derive(Debug)]
pub struct LiteralSequence {
    pub literals: Vec<Literal>,
}

/// The concatenated text of a sequence of literals.
pub open spec fn spec_literals_text(ls: Seq<Literal>) -> Seq<char>
    decreases ls.len(),
{
    if ls.len() == 0 {
        Seq::empty()
    } else {
        ls[0].text@ + spec_literals_text(ls.drop_first())
    }
}

impl LiteralSequence {
    /// The literals of this sequence.
    pub fn literals(&self) -> (r: &Vec<Literal>)
        ensures
            *r == self.literals,
    {
        &self.literals
    }

    /// The concatenated text of the literals.
    pub fn text(&self) -> (r: String)
        ensures
            r@ == spec_literals_text(self.literals@),
    {
        let mut out = String::new();
        let n = self.literals.len();
        for i in 0..n
            invariant
                n == self.literals@.len(),
                out@ == spec_literals_text(self.literals@.subrange(0, i as int)),
            decreases n - i,
        {
            out.append(self.literals[i].text.as_str());
            proof {
                lemma_literals_text_push(self.literals@.subrange(0, i as int), self.literals@[i as int]);
                assert(self.literals@.subrange(0, i + 1) =~= self.literals@.subrange(
                    0,
                    i as int,
                ).push(self.literals@[i as int]));
            }
        }
        proof {
            assert(self.literals@.subrange(0, n as int) =~= self.literals@);
        }
        out
    }

    /// Whether the text is a relative path marker: `.` or `..`.
    pub fn is_semantic_literal(&self) -> (r: bool)
        ensures
            r == (spec_literals_text(self.literals@) == "."@ || spec_literals_text(
                self.literals@,
            ) == ".."@),
    {
        let text = self.text();
        let dot = String::from_str(".");
        let dotdot = String::from_str("..");
        text == dot || text == dotdot
    }
}

/// Appending a literal appends its text.
proof fn lemma_literals_text_push(ls: Seq<Literal>, l: Literal)
    ensures
        spec_literals_text(ls.push(l)) == spec_literals_text(ls) + l.text@,
    decreases ls.len(),
{
    if ls.len() == 0 {
        assert(ls.push(l).drop_first() =~= Seq::<Literal>::empty());
        assert(spec_literals_text(Seq::<Literal>::empty()) == Seq::<char>::empty());
        assert(spec_literals_text(ls.push(l)) =~= l.text@);
        assert(spec_literals_text(ls) + l.text@ =~= l.text@);
    } else {
        assert(ls.push(l).drop_first() =~= ls.drop_first().push(l));
        lemma_literals_text_push(ls.drop_first(), l);
        assert(ls[0].text@ + (spec_literals_text(ls.drop_first()) + l.text@) =~= (ls[0].text@
            + spec_literals_text(ls.drop_first())) + l.text@);
    }
}

/// Clones the tokens of the range `[a, b)`.
fn clone_token_range(v: &Vec<Token>, a: usize, b: usize) -> (r: Vec<Token>)
    requires
        a <= b <= v@.len(),
    ensures
        tokens_model(r@) == tokens_model(v@).subrange(a as int, b as int),
        r@.len() == b - a,
{
    let mut out: Vec<Token> = Vec::new();
    let mut i = a;
    while i < b
        invariant
            a <= i <= b <= v@.len(),
            out@.len() == i - a,
            forall|p: int|
                0 <= p < out@.len() ==> #[trigger] token_model(out@[p]) == token_model(
                    v@[a + p],
                ),
        decreases b - i,
    {
        out.push(v[i].clone());
        i = i + 1;
    }
    proof {
        lemma_tokens_model_len(out@);
        lemma_tokens_model_len(v@);
        assert forall|p: int| 0 <= p < out@.len() implies tokens_model(out@)[p] == tokens_model(
            v@,
        ).subrange(a as int, b as int)[p] by {
            lemma_tokens_model_index(out@, p);
            lemma_tokens_model_index(v@, a + p);
        }
        assert(tokens_model(out@) =~= tokens_model(v@).subrange(a as int, b as int));
    }
    out
}

/// The components of the token sequence, in order.
#[verifier::loop_isolation(false)]
pub fn components(tokens: &Vec<Token>) -> (r: Vec<Component>)
    ensures
        r@.len() == spec_components(tokens_model(tokens@)).len(),
        forall|k: int|
            0 <= k < r@.len() ==> tokens_model(#[trigger] r@[k].tokens@) == spec_components(
                tokens_model(tokens@),
            )[k],
{
    let ghost gs = tokens_model(tokens@);
    proof {
        lemma_tokens_model_len(tokens@);
    }
    let n = tokens.len();
    let mut out: Vec<Component> = Vec::new();
    let mut i: usize = 0;
    while i < n
        invariant
            i <= n,
            spec_components(gs) == spec_components_models(out@) + spec_components_from(
                gs,
                i as int,
            ),
        decreases n - i,
    {
        proof {
            lemma_tokens_model_index(tokens@, i as int);
        }
        let ghost pre = spec_components_models(out@);
        match &tokens[i].kind {
            TokenKind::Separator => {
                proof {
                    assert(spec_components_from(gs, i as int) == spec_components_from(
                        gs,
                        i + 1,
                    ));
                }
                i = i + 1;
            },
            TokenKind::Wildcard(Wildcard::Tree { .. }) => {
                let single = clone_token_range(tokens, i, i + 1);
                let c = Component { tokens: single };
                proof {
                    assert(gs.subrange(i as int, i + 1) =~= seq![gs[i as int]]);
                    assert(spec_components_from(gs, i as int) == seq![seq![gs[i as int]]]
                        + spec_components_from(gs, i + 1));
                    lemma_components_models_push(out@, c);
                }
                out.push(c);
                proof {
                    assert((pre + seq![seq![gs[i as int]]]) + spec_components_from(gs, i + 1)
                        =~= pre + (seq![seq![gs[i as int]]] + spec_components_from(gs, i + 1)));
                    assert(spec_components_models(out@) =~= pre + seq![seq![gs[i as int]]]);
                }
                i = i + 1;
            },
            _ => {
                let ghost j = spec_run_end(gs, i as int);
                proof {
                    lemma_run_end(gs, i as int);
                }
                let mut e: usize = i + 1;
                while e < n
                    invariant
                        i < e <= n,
                        forall|k: int|
                            i <= k < e ==> !spec_is_component_boundary(#[trigger] gs[k]),
                    decreases n - e,
                {
                    proof {
                        lemma_tokens_model_index(tokens@, e as int);
                    }
                    if tokens[e].kind.is_component_boundary() {
                        break;
                    }
                    e = e + 1;
                }
                proof {
                    if e < n {
                        lemma_tokens_model_index(tokens@, e as int);
                    }
                    assert(j == e) by {
                        lemma_run_end_unique(gs, i as int, e as int);
                    }
                    assert(spec_components_from(gs, i as int) == seq![gs.subrange(i as int, j)]
                        + spec_components_from(gs, j));
                }
                let run = clone_token_range(tokens, i, e);
                let c = Component { tokens: run };
                proof {
                    lemma_components_models_push(out@, c);
                }
                out.push(c);
                proof {
                    assert((pre + seq![gs.subrange(i as int, j)]) + spec_components_from(gs, j)
                        =~= pre + (seq![gs.subrange(i as int, j)] + spec_components_from(
                        gs,
                        j,
                    )));
                    assert(spec_components_models(out@) =~= pre + seq![gs.subrange(
                        i as int,
                        j,
                    )]);
                }
                i = e;
            },
        }
    }
    proof {
        assert(spec_components_from(gs, n as int) =~= Seq::<Seq<GToken>>::empty());
        assert(spec_components(gs) =~= spec_components_models(out@));
        lemma_components_models_index(out@);
    }
    out
}

/// The position `e` is the run end from `i` when no boundary lies between
/// and `e` is the length or a boundary.
proof fn lemma_run_end_unique(s: Seq<GToken>, i: int, e: int)
    requires
        0 <= i <= e <= s.len(),
        forall|k: int| i <= k < e ==> !spec_is_component_boundary(#[trigger] s[k]),
        e < s.len() ==> spec_is_component_boundary(s[e]),
    ensures
        spec_run_end(s, i) == e,
    decreases e - i,
{
    if i < e {
        lemma_run_end_unique(s, i + 1, e);
    }
}

/// The modelled token sequences of built components.
pub open spec fn spec_components_models(cs: Seq<Component>) -> Seq<Seq<GToken>>
    decreases cs.len(),
{
    if cs.len() == 0 {
        Seq::empty()
    } else {
        seq![tokens_model(cs[0].tokens@)] + spec_components_models(cs.drop_first())
    }
}

proof fn lemma_components_models_push(cs: Seq<Component>, c: Component)
    ensures
        spec_components_models(cs.push(c)) == spec_components_models(cs).push(
            tokens_model(c.tokens@),
        ),
    decreases cs.len(),
{
    if cs.len() == 0 {
        assert(cs.push(c).drop_first() =~= Seq::<Component>::empty());
        assert(spec_components_models(Seq::<Component>::empty()) == Seq::<Seq<GToken>>::empty());
        assert(spec_components_models(cs.push(c)) =~= spec_components_models(cs).push(
            tokens_model(c.tokens@),
        ));
    } else {
        assert(cs.push(c).drop_first() =~= cs.drop_first().push(c));
        lemma_components_models_push(cs.drop_first(), c);
        assert(spec_components_models(cs.push(c)) =~= spec_components_models(cs).push(
            tokens_model(c.tokens@),
        ));
    }
}

proof fn lemma_components_models_index(cs: Seq<Component>)
    ensures
        spec_components_models(cs).len() == cs.len(),
        forall|k: int|
            0 <= k < cs.len() ==> spec_components_models(cs)[k] == tokens_model(
                #[trigger] cs[k].tokens@,
            ),
    decreases cs.len(),
{
    if cs.len() > 0 {
        lemma_components_models_index(cs.drop_first());
        assert forall|k: int| 0 <= k < cs.len() implies spec_components_models(cs)[k]
            == tokens_model(cs[k].tokens@) by {
            if k > 0 {
                assert(cs.drop_first()[k - 1] == cs[k]);
            }
        }
    }
}

} // verus!

verus! {

/// A component paired with its literal sequence corresponds exactly: every
/// token of the component is the literal recorded at the same position.
pub open spec fn spec_literal_pair_ok(c: Component, ls: LiteralSequence) -> bool {
    &&& c.tokens@.len() > 0
    &&& ls.literals@.len() == c.tokens@.len()
    &&& forall|j: int|
        0 <= j < c.tokens@.len() ==> token_model(#[trigger] c.tokens@[j]) == (GToken::Literal {
            text: ls.literals@[j].text@,
            is_case_insensitive: ls.literals@[j].is_case_insensitive,
        })
}

/// Whether a non-empty component consists of literal tokens alone.
pub open spec fn spec_all_literal(c: Seq<GToken>) -> bool {
    c.len() > 0 && forall|j: int| 0 <= j < c.len() ==> (#[trigger] c[j]) is Literal
}

/// The purely literal components of a component list, in order.
pub open spec fn spec_filter_literal_comps(cs: Seq<Seq<GToken>>) -> Seq<Seq<GToken>>
    decreases cs.len(),
{
    if cs.len() == 0 {
        Seq::empty()
    } else if spec_all_literal(cs[0]) {
        seq![cs[0]] + spec_filter_literal_comps(cs.drop_first())
    } else {
        spec_filter_literal_comps(cs.drop_first())
    }
}

/// The literal components of a token sequence: the purely literal components
/// of its own grouping, then those found inside alternatives and
/// repetitions, in order.
pub open spec fn spec_literal_comps(s: Seq<GToken>) -> Seq<Seq<GToken>>
    decreases s, s.len() + 1,
{
    spec_filter_literal_comps(spec_components(s)) + spec_nested_literal_comps(s, 0)
}

/// The literal components found inside the compound tokens of `s`, from
/// position `i` on.
pub open spec fn spec_nested_literal_comps(s: Seq<GToken>, i: int) -> Seq<Seq<GToken>>
    decreases s, s.len() - i,
{
    if i < 0 || i >= s.len() {
        Seq::empty()
    } else {
        (match s[i] {
            GToken::Alternative(bs) => spec_nested_branches(bs, 0),
            GToken::Repetition { tokens, .. } => spec_literal_comps(tokens),
            _ => Seq::empty(),
        }) + spec_nested_literal_comps(s, i + 1)
    }
}

/// The literal components of an alternative's branches from `j` on.
pub open spec fn spec_nested_branches(bs: Seq<Seq<GToken>>, j: int) -> Seq<Seq<GToken>>
    decreases bs, bs.len() - j,
{
    if j < 0 || j >= bs.len() {
        Seq::empty()
    } else {
        spec_literal_comps(bs[j]) + spec_nested_branches(bs, j + 1)
    }
}

/// The modelled components of a sequence of component-literal pairs.
pub open spec fn spec_pair_models(r: Seq<(Component, LiteralSequence)>) -> Seq<Seq<GToken>>
    decreases r.len(),
{
    if r.len() == 0 {
        Seq::empty()
    } else {
        seq![tokens_model(r[0].0.tokens@)] + spec_pair_models(r.drop_first())
    }
}

proof fn lemma_pair_models_len(r: Seq<(Component, LiteralSequence)>)
    ensures
        spec_pair_models(r).len() == r.len(),
    decreases r.len(),
{
    if r.len() > 0 {
        lemma_pair_models_len(r.drop_first());
    }
}

proof fn lemma_pair_models_index(r: Seq<(Component, LiteralSequence)>, i: int)
    requires
        0 <= i < r.len(),
    ensures
        spec_pair_models(r)[i] == tokens_model(r[i].0.tokens@),
    decreases r.len(),
{
    lemma_pair_models_len(r);
    if i > 0 {
        lemma_pair_models_index(r.drop_first(), i - 1);
    }
}

/// The models of a concatenation of pair lists concatenate.
proof fn lemma_pair_models_concat(a: Seq<(Component, LiteralSequence)>, b: Seq<
    (Component, LiteralSequence),
>)
    ensures
        spec_pair_models(a + b) == spec_pair_models(a) + spec_pair_models(b),
{
    lemma_pair_models_len(a);
    lemma_pair_models_len(b);
    lemma_pair_models_len(a + b);
    assert forall|i: int| 0 <= i < a.len() + b.len() implies spec_pair_models(a + b)[i] == (
    spec_pair_models(a) + spec_pair_models(b))[i] by {
        lemma_pair_models_index(a + b, i);
        if i < a.len() {
            lemma_pair_models_index(a, i);
            assert((a + b)[i] == a[i]);
        } else {
            lemma_pair_models_index(b, i - a.len());
            assert((a + b)[i] == b[i - a.len()]);
        }
    }
    assert(spec_pair_models(a + b) =~= spec_pair_models(a) + spec_pair_models(b));
}

proof fn lemma_pair_models_push(r: Seq<(Component, LiteralSequence)>, p: (
    Component,
    LiteralSequence,
))
    ensures
        spec_pair_models(r.push(p)) == spec_pair_models(r).push(tokens_model(p.0.tokens@)),
{
    assert(r.push(p) =~= r + seq![p]);
    lemma_pair_models_concat(r, seq![p]);
    assert(seq![p].drop_first() =~= Seq::<(Component, LiteralSequence)>::empty());
    assert(spec_pair_models(Seq::<(Component, LiteralSequence)>::empty()) == Seq::<
        Seq<GToken>,
    >::empty());
    assert(spec_pair_models(seq![p]) =~= seq![tokens_model(p.0.tokens@)]);
    assert(spec_pair_models(r) + seq![tokens_model(p.0.tokens@)] =~= spec_pair_models(r).push(
        tokens_model(p.0.tokens@),
    ));
}

/// Appending one component list and then a rest concatenates associatively.
proof fn lemma_comps_concat_assoc(a: Seq<Seq<GToken>>, x: Seq<Seq<GToken>>, r: Seq<Seq<GToken>>)
    ensures
        (a + x) + r == a + (x + r),
{
    assert((a + x) + r =~= a + (x + r));
}

/// The purely literal components of the token sequence, paired with their
/// literal sequences, recursing into the branches of alternatives and the
/// sub-patterns of repetitions: exactly `spec_literal_comps`, in order.
#[verifier::loop_isolation(false)]
#[verifier::rlimit(100)]
pub fn literals(tokens: &Vec<Token>) -> (r: Vec<(Component, LiteralSequence)>)
    ensures
        spec_pair_models(r@) == spec_literal_comps(tokens_model(tokens@)),
        forall|k: int|
            0 <= k < r@.len() ==> spec_literal_pair_ok(#[trigger] r@[k].0, r@[k].1),
    decreases *tokens,
{
    let ghost gs = tokens_model(tokens@);
    let ghost lcs = spec_literal_comps(gs);
    let ghost ccs = spec_components(gs);
    proof {
        lemma_tokens_model_len(tokens@);
    }
    let mut out: Vec<(Component, LiteralSequence)> = Vec::new();
    let comps = components(tokens);
    let n1 = comps.len();
    proof {
        assert(ccs.skip(0) =~= ccs);
        assert(spec_pair_models(out@) =~= Seq::<Seq<GToken>>::empty());
        assert(Seq::<Seq<GToken>>::empty() + spec_filter_literal_comps(ccs)
            =~= spec_filter_literal_comps(ccs));
    }
    for k in 0..n1
        invariant
            n1 == comps@.len(),
            n1 == ccs.len(),
            forall|p: int|
                0 <= p < n1 ==> tokens_model(#[trigger] comps@[p].tokens@) == ccs[p],
            spec_filter_literal_comps(ccs) == spec_pair_models(out@)
                + spec_filter_literal_comps(ccs.skip(k as int)),
            forall|p: int|
                0 <= p < out@.len() ==> spec_literal_pair_ok(#[trigger] out@[p].0, out@[p].1),
        decreases n1 - k,
    {
        proof {
            assert(ccs.skip(k as int)[0] == ccs[k as int]);
            assert(ccs.skip(k as int).drop_first() =~= ccs.skip(k + 1));
        }
        let c = &comps[k];
        proof {
            lemma_tokens_model_len(c.tokens@);
        }
        match c.literal() {
            Some(ls) => {
                proof {
                    assert forall|j: int| 0 <= j < ccs[k as int].len() implies (
                    #[trigger] ccs[k as int][j]) is Literal by {
                        lemma_tokens_model_index(c.tokens@, j);
                    }
                    assert(spec_all_literal(ccs[k as int]));
                }
                let cloned = clone_tokens(&c.tokens);
                let comp2 = Component { tokens: cloned };
                let ghost pre = spec_pair_models(out@);
                proof {
                    lemma_pair_models_push(out@, (Component { tokens: cloned }, ls));
                    assert(pre.push(ccs[k as int]) =~= pre + seq![ccs[k as int]]);
                    lemma_comps_concat_assoc(
                        pre,
                        seq![ccs[k as int]],
                        spec_filter_literal_comps(ccs.skip(k + 1)),
                    );
                    assert forall|j: int| 0 <= j < comp2.tokens@.len() implies token_model(
                        #[trigger] comp2.tokens@[j],
                    ) == (GToken::Literal {
                        text: ls.literals@[j].text@,
                        is_case_insensitive: ls.literals@[j].is_case_insensitive,
                    }) by {
                        lemma_tokens_model_index(comp2.tokens@, j);
                        lemma_tokens_model_index(c.tokens@, j);
                    }
                }
                out.push((comp2, ls));
            },
            None => {
                proof {
                    if c.tokens@.len() > 0 {
                        let w = choose|j: int|
                            0 <= j < c.tokens@.len() && !(token_model(
                                #[trigger] c.tokens@[j],
                            ) is Literal);
                        lemma_tokens_model_index(c.tokens@, w);
                        assert(!(ccs[k as int][w] is Literal));
                    }
                    assert(!spec_all_literal(ccs[k as int]));
                }
            },
        }
    }
    proof {
        assert(ccs.skip(n1 as int) =~= Seq::<Seq<GToken>>::empty());
        assert(spec_pair_models(out@) + Seq::<Seq<GToken>>::empty() =~= spec_pair_models(out@));
        assert(spec_pair_models(out@) == spec_filter_literal_comps(ccs));
        assert(lcs == spec_pair_models(out@) + spec_nested_literal_comps(gs, 0));
    }
    let n = tokens.len();
    for i in 0..n
        invariant
            n == tokens@.len(),
            n == gs.len(),
            lcs == spec_pair_models(out@) + spec_nested_literal_comps(gs, i as int),
            forall|p: int|
                0 <= p < out@.len() ==> spec_literal_pair_ok(#[trigger] out@[p].0, out@[p].1),
        decreases n - i,
    {
        proof {
            lemma_tokens_model_index(tokens@, i as int);
        }
        match &tokens[i].kind {
            TokenKind::Alternative(a) => {
                let ghost bs = branches_model(a.0@);
                let m = a.0.len();
                proof {
                    lemma_branches_model_len(a.0@);
                    assert(gs[i as int] == GToken::Alternative(bs));
                    lemma_comps_concat_assoc(
                        spec_pair_models(out@),
                        spec_nested_branches(bs, 0),
                        spec_nested_literal_comps(gs, i + 1),
                    );
                }
                for b in 0..m
                    invariant
                        m == a.0@.len(),
                        m == bs.len(),
                        a == tokens@[i as int].kind->Alternative_0,
                        bs == branches_model(a.0@),
                        lcs == (spec_pair_models(out@) + spec_nested_branches(bs, b as int))
                            + spec_nested_literal_comps(gs, i + 1),
                        forall|p: int|
                            0 <= p < out@.len() ==> spec_literal_pair_ok(
                                #[trigger] out@[p].0,
                                out@[p].1,
                            ),
                    decreases m - b,
                {
                    proof {
                        lemma_branches_model_index(a.0@, b as int);
                        assert(decreases_to!(*tokens => a.0@[b as int]));
                    }
                    let mut sub = literals(&a.0[b]);
                    let ghost pre = out@;
                    let ghost gsub = sub@;
                    out.append(&mut sub);
                    proof {
                        lemma_pair_models_concat(pre, gsub);
                        lemma_comps_concat_assoc(
                            spec_pair_models(pre),
                            spec_pair_models(gsub),
                            spec_nested_branches(bs, b + 1),
                        );
                    }
                }
                proof {
                    assert(spec_nested_branches(bs, m as int) =~= Seq::<Seq<GToken>>::empty());
                    assert(spec_pair_models(out@) + Seq::<Seq<GToken>>::empty()
                        =~= spec_pair_models(out@));
                }
            },
            TokenKind::Repetition(rep) => {
                proof {
                    assert(decreases_to!(*tokens => rep.tokens));
                    lemma_tokens_model_len(rep.tokens@);
                }
                let mut sub = literals(&rep.tokens);
                let ghost pre = out@;
                let ghost gsub = sub@;
                out.append(&mut sub);
                proof {
                    lemma_pair_models_concat(pre, gsub);
                    lemma_comps_concat_assoc(
                        spec_pair_models(pre),
                        spec_pair_models(gsub),
                        spec_nested_literal_comps(gs, i + 1),
                    );
                }
            },
            _ => {
                proof {
                    assert(spec_nested_literal_comps(gs, i as int)
                        == Seq::<Seq<GToken>>::empty() + spec_nested_literal_comps(gs, i + 1));
                    assert(Seq::<Seq<GToken>>::empty() + spec_nested_literal_comps(gs, i + 1)
                        =~= spec_nested_literal_comps(gs, i + 1));
                }
            },
        }
    }
    proof {
        assert(spec_nested_literal_comps(gs, n as int) =~= Seq::<Seq<GToken>>::empty());
        assert(spec_pair_models(out@) + Seq::<Seq<GToken>>::empty() =~= spec_pair_models(out@));
    }
    out
}

} // verus!
