//! The token tree: the data model of a parsed glob expression and its
//! structural queries.
//!
//! Executable tokens own their text and sub-trees. Contracts speak of the
//! mathematical model [`GToken`], reached through [`token_model`]: it drops
//! the incidental source spans and turns vectors and strings into sequences.

use vstd::prelude::*;

verus! {

/// The path separator that glob expressions and candidate paths use.
pub const SEPARATOR: char = '/';

/// Source span of a token within the expression it was parsed from, in
/// characters.
#[derive(Clone, Copy, Debug)]
pub struct Annotation {
    pub offset: usize,
    pub extent: usize,
}

impl Annotation {
    /// The empty span: what `unannotate` leaves behind.
    pub fn zero() -> (a: Annotation)
        ensures
            a == spec_zero_annotation(),
    {
        Annotation { offset: 0, extent: 0 }
    }
}

/// The annotation of a token whose span has been dropped.
pub open spec fn spec_zero_annotation() -> Annotation {
    Annotation { offset: 0, extent: 0 }
}

/// Whether a wildcard matches its characters greedily or lazily.
#[derive(Clone, Copy, Debug)]
pub enum Evaluation {
    Eager,
    Lazy,
}

/// A single member of a character class: one character or an inclusive range.
#[derive(Clone, Copy, Debug)]
pub enum Archetype {
    Character(char),
    Range(char, char),
}

/// A wildcard token: `?`, `*`/`$`, or the tree wildcard `**`.
#[derive(Clone, Copy, Debug)]
pub enum Wildcard {
    One,
    ZeroOrMore(Evaluation),
    Tree { is_rooted: bool },
}

/// A character class token, such as `[a-z!]`, possibly negated.
#[derive(Debug)]
pub struct Class {
    pub is_negated: bool,
    pub archetypes: Vec<Archetype>,
}

/// A run of non-structural characters with its recorded case sensitivity.
#[derive(Debug)]
pub struct Literal {
    pub text: String,
    pub is_case_insensitive: bool,
}

/// An alternative token, such as `{a,b/c}`: an ordered sequence of branches,
/// each an ordered sequence of tokens.
#[derive(Debug)]
pub struct Alternative(pub Vec<Vec<Token>>);

/// A repetition token, such as `<a/:1,3>`. The upper bound is `lower + step`
/// when `step` is `Some`, and absent otherwise.
#[derive(Debug)]
pub struct Repetition {
    pub tokens: Vec<Token>,
    pub lower: usize,
    pub step: Option<usize>,
}

/// The kind of a token.
#[derive(Debug)]
pub enum TokenKind {
    Alternative(Alternative),
    Class(Class),
    Literal(Literal),
    Repetition(Repetition),
    Separator,
    Wildcard(Wildcard),
}

/// A token of a parsed glob expression: a kind plus its source annotation.
#[derive(Debug)]
pub struct Token {
    pub kind: TokenKind,
    pub annotation: Annotation,
}

/// The mathematical model of a token: its structure and text, without source
/// spans or storage concerns.
#[verifier::ext_equal]
pub enum GToken {
    Alternative(Seq<Seq<GToken>>),
    Class { is_negated: bool, archetypes: Seq<Archetype> },
    Literal { text: Seq<char>, is_case_insensitive: bool },
    Repetition { tokens: Seq<GToken>, lower: usize, step: Option<usize> },
    Separator,
    Wildcard(Wildcard),
}

/// The model of a token kind.
pub open spec fn kind_model(k: TokenKind) -> GToken
    decreases k,
{
    match k {
        TokenKind::Alternative(a) => GToken::Alternative(branches_model(a.0@)),
        TokenKind::Class(c) => GToken::Class {
            is_negated: c.is_negated,
            archetypes: c.archetypes@,
        },
        TokenKind::Literal(l) => GToken::Literal {
            text: l.text@,
            is_case_insensitive: l.is_case_insensitive,
        },
        TokenKind::Repetition(r) => GToken::Repetition {
            tokens: tokens_model(r.tokens@),
            lower: r.lower,
            step: r.step,
        },
        TokenKind::Separator => GToken::Separator,
        TokenKind::Wildcard(w) => GToken::Wildcard(w),
    }
}

/// The model of a token: the model of its kind; the source span is dropped.
pub open spec fn token_model(t: Token) -> GToken
    decreases t,
{
    kind_model(t.kind)
}

/// The models of a sequence of tokens, in order.
pub open spec fn tokens_model(s: Seq<Token>) -> Seq<GToken>
    decreases s,
{
    if s.len() == 0 {
        Seq::empty()
    } else {
        seq![token_model(s[0])] + tokens_model(s.drop_first())
    }
}

/// The models of a sequence of token branches, in order.
pub open spec fn branches_model(s: Seq<Vec<Token>>) -> Seq<Seq<GToken>>
    decreases s,
{
    if s.len() == 0 {
        Seq::empty()
    } else {
        seq![tokens_model(s[0]@)] + branches_model(s.drop_first())
    }
}

pub broadcast proof fn lemma_tokens_model_len(s: Seq<Token>)
    ensures
        (#[trigger] tokens_model(s)).len() == s.len(),
    decreases s,
{
    if s.len() > 0 {
        lemma_tokens_model_len(s.drop_first());
    }
}

pub broadcast proof fn lemma_tokens_model_index(s: Seq<Token>, i: int)
    requires
        0 <= i < s.len(),
    ensures
        #[trigger] tokens_model(s)[i] == token_model(s[i]),
    decreases s,
{
    lemma_tokens_model_len(s);
    if i > 0 {
        lemma_tokens_model_index(s.drop_first(), i - 1);
    }
}

pub broadcast proof fn lemma_branches_model_len(s: Seq<Vec<Token>>)
    ensures
        (#[trigger] branches_model(s)).len() == s.len(),
    decreases s,
{
    if s.len() > 0 {
        lemma_branches_model_len(s.drop_first());
    }
}

pub broadcast proof fn lemma_branches_model_index(s: Seq<Vec<Token>>, i: int)
    requires
        0 <= i < s.len(),
    ensures
        #[trigger] branches_model(s)[i] == tokens_model(s[i]@),
    decreases s,
{
    lemma_branches_model_len(s);
    if i > 0 {
        lemma_branches_model_index(s.drop_first(), i - 1);
    }
}

pub broadcast group group_token_model {
    lemma_tokens_model_len,
    lemma_tokens_model_index,
    lemma_branches_model_len,
    lemma_branches_model_index,
}

/// Appending a token on the right extends the modelled sequence on the right.
pub proof fn lemma_tokens_model_push(s: Seq<Token>, t: Token)
    ensures
        tokens_model(s.push(t)) == tokens_model(s).push(token_model(t)),
{
    broadcast use group_token_model;

    assert forall|i: int| 0 <= i < s.len() + 1 implies tokens_model(s.push(t))[i]
        == tokens_model(s).push(token_model(t))[i] by {
        lemma_tokens_model_index(s.push(t), i);
        if i < s.len() {
            lemma_tokens_model_index(s, i);
        }
    }
    assert(tokens_model(s.push(t)) =~= tokens_model(s).push(token_model(t)));
}

/// Introduces the witness of `spec_has_token` on an alternative.
pub proof fn lemma_alt_has_token_witness(bs: Seq<Seq<GToken>>, q: TokenQuery, i: int, j: int)
    requires
        0 <= i < bs.len(),
        0 <= j < bs[i].len(),
        spec_has_token(bs[i][j], q),
    ensures
        spec_has_token(GToken::Alternative(bs), q),
{
    lemma_any_has_token_iff(bs[i], q);
    lemma_any_branch_has_token_iff(bs, q);
}

/// Introduces the witness of `spec_has_preceding_token` on an alternative.
pub proof fn lemma_alt_has_preceding_witness(bs: Seq<Seq<GToken>>, q: TokenQuery, i: int)
    requires
        0 <= i < bs.len(),
        bs[i].len() > 0,
        spec_has_preceding_token(bs[i][0], q),
    ensures
        spec_has_preceding_token(GToken::Alternative(bs), q),
{
    lemma_any_branch_preceding_iff(bs, q);
}

/// Introduces the witness of `spec_has_terminating_token` on an alternative.
pub proof fn lemma_alt_has_terminating_witness(bs: Seq<Seq<GToken>>, q: TokenQuery, i: int)
    requires
        0 <= i < bs.len(),
        bs[i].len() > 0,
        spec_has_terminating_token(bs[i][bs[i].len() - 1], q),
    ensures
        spec_has_terminating_token(GToken::Alternative(bs), q),
{
    lemma_any_branch_terminating_iff(bs, q);
}

/// The structural predicates that tree traversals can test against tokens.
#[derive(Clone, Copy, Debug)]
pub enum TokenQuery {
    /// The token is a component boundary: a separator or a tree wildcard.
    ComponentBoundary,
    /// The token roots the expression: a separator or a rooted tree wildcard.
    Rooting,
    /// The token is a tree wildcard.
    TreeWildcard,
}

/// Whether a token separates path components: a separator or a tree wildcard.
pub open spec fn spec_is_component_boundary(g: GToken) -> bool {
    match g {
        GToken::Separator => true,
        GToken::Wildcard(Wildcard::Tree { .. }) => true,
        _ => false,
    }
}

/// Whether a token roots the expression it begins: a separator or a rooted
/// tree wildcard.
pub open spec fn spec_is_rooting(g: GToken) -> bool {
    match g {
        GToken::Separator => true,
        GToken::Wildcard(Wildcard::Tree { is_rooted }) => is_rooted,
        _ => false,
    }
}

/// Whether a token holds sub-expressions of its own.
pub open spec fn spec_has_sub_tokens(g: GToken) -> bool {
    g is Alternative || g is Repetition
}

/// Whether a token captures matched text: every kind but literals and
/// separators.
pub open spec fn spec_is_capturing(g: GToken) -> bool {
    match g {
        GToken::Alternative(_) => true,
        GToken::Class { .. } => true,
        GToken::Repetition { .. } => true,
        GToken::Wildcard(_) => true,
        _ => false,
    }
}

/// What a query means when tested against a single (non-compound) token.
pub open spec fn spec_matches_query(g: GToken, q: TokenQuery) -> bool {
    match q {
        TokenQuery::ComponentBoundary => spec_is_component_boundary(g),
        TokenQuery::Rooting => spec_is_rooting(g),
        TokenQuery::TreeWildcard => g matches GToken::Wildcard(Wildcard::Tree { .. }),
    }
}

/// Whether any non-compound token of the tree rooted at `g` satisfies the
/// query, recursing through alternatives and repetitions.
pub open spec fn spec_has_token(g: GToken, q: TokenQuery) -> bool
    decreases g,
{
    match g {
        GToken::Alternative(bs) => spec_any_branch_has_token(bs, q),
        GToken::Repetition { tokens, .. } => spec_any_has_token(tokens, q),
        _ => spec_matches_query(g, q),
    }
}

/// Whether any token of the sequence has a non-compound descendant that
/// satisfies the query.
pub open spec fn spec_any_has_token(s: Seq<GToken>, q: TokenQuery) -> bool
    decreases s,
{
    s.len() > 0 && (spec_has_token(s[0], q) || spec_any_has_token(s.drop_first(), q))
}

/// Whether any branch of the sequence has a token with a non-compound
/// descendant that satisfies the query.
pub open spec fn spec_any_branch_has_token(bs: Seq<Seq<GToken>>, q: TokenQuery) -> bool
    decreases bs,
{
    bs.len() > 0 && (spec_any_has_token(bs[0], q) || spec_any_branch_has_token(
        bs.drop_first(),
        q,
    ))
}

/// Whether the leftmost non-compound token in some branch of the tree rooted
/// at `g` satisfies the query.
pub open spec fn spec_has_preceding_token(g: GToken, q: TokenQuery) -> bool
    decreases g,
{
    match g {
        GToken::Alternative(bs) => spec_any_branch_preceding(bs, q),
        GToken::Repetition { tokens, .. } => tokens.len() > 0 && spec_has_preceding_token(
            tokens[0],
            q,
        ),
        _ => spec_matches_query(g, q),
    }
}

/// Whether some branch begins with a token whose leftmost non-compound
/// descendant satisfies the query.
pub open spec fn spec_any_branch_preceding(bs: Seq<Seq<GToken>>, q: TokenQuery) -> bool
    decreases bs,
{
    bs.len() > 0 && ((bs[0].len() > 0 && spec_has_preceding_token(bs[0][0], q))
        || spec_any_branch_preceding(bs.drop_first(), q))
}

/// Whether the rightmost non-compound token in some branch of the tree rooted
/// at `g` satisfies the query.
pub open spec fn spec_has_terminating_token(g: GToken, q: TokenQuery) -> bool
    decreases g,
{
    match g {
        GToken::Alternative(bs) => spec_any_branch_terminating(bs, q),
        GToken::Repetition { tokens, .. } => tokens.len() > 0 && spec_has_terminating_token(
            tokens[tokens.len() - 1],
            q,
        ),
        _ => spec_matches_query(g, q),
    }
}

/// Whether some branch ends with a token whose rightmost non-compound
/// descendant satisfies the query.
pub open spec fn spec_any_branch_terminating(bs: Seq<Seq<GToken>>, q: TokenQuery) -> bool
    decreases bs,
{
    bs.len() > 0 && ((bs[0].len() > 0 && spec_has_terminating_token(bs[0][bs[0].len() - 1], q))
        || spec_any_branch_terminating(bs.drop_first(), q))
}

/// `spec_any_has_token` holds exactly when some token of the sequence has a
/// matching descendant.
pub proof fn lemma_any_has_token_iff(s: Seq<GToken>, q: TokenQuery)
    ensures
        spec_any_has_token(s, q) <==> (exists|i: int|
            0 <= i < s.len() && #[trigger] spec_has_token(s[i], q)),
    decreases s,
{
    if s.len() > 0 {
        lemma_any_has_token_iff(s.drop_first(), q);
        if spec_any_has_token(s, q) {
            if !spec_has_token(s[0], q) {
                let k = choose|i: int|
                    0 <= i < s.drop_first().len() && #[trigger] spec_has_token(
                        s.drop_first()[i],
                        q,
                    );
                assert(s.drop_first()[k] == s[k + 1]);
                assert(spec_has_token(s[k + 1], q));
            }
        }
        if exists|i: int| 0 <= i < s.len() && #[trigger] spec_has_token(s[i], q) {
            let k = choose|i: int| 0 <= i < s.len() && #[trigger] spec_has_token(s[i], q);
            if k > 0 {
                assert(s.drop_first()[k - 1] == s[k]);
                assert(spec_has_token(s.drop_first()[k - 1], q));
            }
        }
    }
}

/// `spec_any_branch_has_token` holds exactly when some branch has a token
/// with a matching descendant.
pub proof fn lemma_any_branch_has_token_iff(bs: Seq<Seq<GToken>>, q: TokenQuery)
    ensures
        spec_any_branch_has_token(bs, q) <==> (exists|i: int|
            0 <= i < bs.len() && #[trigger] spec_any_has_token(bs[i], q)),
    decreases bs,
{
    if bs.len() > 0 {
        lemma_any_branch_has_token_iff(bs.drop_first(), q);
        if spec_any_branch_has_token(bs, q) {
            if !spec_any_has_token(bs[0], q) {
                let k = choose|i: int|
                    0 <= i < bs.drop_first().len() && #[trigger] spec_any_has_token(
                        bs.drop_first()[i],
                        q,
                    );
                assert(bs.drop_first()[k] == bs[k + 1]);
                assert(spec_any_has_token(bs[k + 1], q));
            }
        }
        if exists|i: int| 0 <= i < bs.len() && #[trigger] spec_any_has_token(bs[i], q) {
            let k = choose|i: int|
                0 <= i < bs.len() && #[trigger] spec_any_has_token(bs[i], q);
            if k > 0 {
                assert(bs.drop_first()[k - 1] == bs[k]);
                assert(spec_any_has_token(bs.drop_first()[k - 1], q));
            }
        }
    }
}

/// `spec_any_branch_preceding` holds exactly when some non-empty branch
/// begins with a matching token.
pub proof fn lemma_any_branch_preceding_iff(bs: Seq<Seq<GToken>>, q: TokenQuery)
    ensures
        spec_any_branch_preceding(bs, q) <==> (exists|i: int|
            0 <= i < bs.len() && (#[trigger] bs[i]).len() > 0 && spec_has_preceding_token(
                bs[i][0],
                q,
            )),
    decreases bs,
{
    if bs.len() > 0 {
        lemma_any_branch_preceding_iff(bs.drop_first(), q);
        if spec_any_branch_preceding(bs, q) {
            if !(bs[0].len() > 0 && spec_has_preceding_token(bs[0][0], q)) {
                let k = choose|i: int|
                    0 <= i < bs.drop_first().len() && (#[trigger] bs.drop_first()[i]).len() > 0
                        && spec_has_preceding_token(bs.drop_first()[i][0], q);
                assert(bs.drop_first()[k] == bs[k + 1]);
                assert(bs[k + 1].len() > 0 && spec_has_preceding_token(bs[k + 1][0], q));
            }
        }
        if exists|i: int|
            0 <= i < bs.len() && (#[trigger] bs[i]).len() > 0 && spec_has_preceding_token(
                bs[i][0],
                q,
            ) {
            let k = choose|i: int|
                0 <= i < bs.len() && (#[trigger] bs[i]).len() > 0 && spec_has_preceding_token(
                    bs[i][0],
                    q,
                );
            if k > 0 {
                assert(bs.drop_first()[k - 1] == bs[k]);
                assert((bs.drop_first()[k - 1]).len() > 0 && spec_has_preceding_token(
                    bs.drop_first()[k - 1][0],
                    q,
                ));
            }
        }
    }
}

/// `spec_any_branch_terminating` holds exactly when some non-empty branch
/// ends with a matching token.
pub proof fn lemma_any_branch_terminating_iff(bs: Seq<Seq<GToken>>, q: TokenQuery)
    ensures
        spec_any_branch_terminating(bs, q) <==> (exists|i: int|
            0 <= i < bs.len() && (#[trigger] bs[i]).len() > 0 && spec_has_terminating_token(
                bs[i][bs[i].len() - 1],
                q,
            )),
    decreases bs,
{
    if bs.len() > 0 {
        lemma_any_branch_terminating_iff(bs.drop_first(), q);
        if spec_any_branch_terminating(bs, q) {
            if !(bs[0].len() > 0 && spec_has_terminating_token(bs[0][bs[0].len() - 1], q)) {
                let k = choose|i: int|
                    0 <= i < bs.drop_first().len() && (#[trigger] bs.drop_first()[i]).len() > 0
                        && spec_has_terminating_token(
                        bs.drop_first()[i][bs.drop_first()[i].len() - 1],
                        q,
                    );
                assert(bs.drop_first()[k] == bs[k + 1]);
                assert(bs[k + 1].len() > 0 && spec_has_terminating_token(
                    bs[k + 1][bs[k + 1].len() - 1],
                    q,
                ));
            }
        }
        if exists|i: int|
            0 <= i < bs.len() && (#[trigger] bs[i]).len() > 0 && spec_has_terminating_token(
                bs[i][bs[i].len() - 1],
                q,
            ) {
            let k = choose|i: int|
                0 <= i < bs.len() && (#[trigger] bs[i]).len() > 0 && spec_has_terminating_token(
                    bs[i][bs[i].len() - 1],
                    q,
                );
            if k > 0 {
                assert(bs.drop_first()[k - 1] == bs[k]);
                assert((bs.drop_first()[k - 1]).len() > 0 && spec_has_terminating_token(
                    bs.drop_first()[k - 1][bs.drop_first()[k - 1].len() - 1],
                    q,
                ));
            }
        }
    }
}

/// The token that is left when a rooted tree wildcard is unrooted; any other
/// token is unchanged.
pub open spec fn spec_unroot(g: GToken) -> GToken {
    match g {
        GToken::Wildcard(Wildcard::Tree { .. }) => GToken::Wildcard(
            Wildcard::Tree { is_rooted: false },
        ),
        _ => g,
    }
}

// Cloning is implemented by hand so that the clone of a token tree is known
// to model the same token as the original.

impl Clone for Class {
    fn clone(&self) -> (r: Self)
        ensures
            r.is_negated == self.is_negated,
            r.archetypes@ == self.archetypes@,
    {
        let mut archetypes: Vec<Archetype> = Vec::new();
        let n = self.archetypes.len();
        for i in 0..n
            invariant
                n == self.archetypes@.len(),
                archetypes@ == self.archetypes@.subrange(0, i as int),
            decreases n - i,
        {
            archetypes.push(self.archetypes[i]);
        }
        proof {
            assert(archetypes@ =~= self.archetypes@);
        }
        Class { is_negated: self.is_negated, archetypes }
    }
}

impl Clone for Literal {
    fn clone(&self) -> (r: Self)
        ensures
            r.text@ == self.text@,
            r.is_case_insensitive == self.is_case_insensitive,
    {
        Literal { text: self.text.clone(), is_case_insensitive: self.is_case_insensitive }
    }
}

/// Clones every token of a sequence, preserving the modelled tokens and their
/// source spans.
pub fn clone_tokens(v: &Vec<Token>) -> (r: Vec<Token>)
    ensures
        tokens_model(r@) == tokens_model(v@),
        r@.len() == v@.len(),
        forall|i: int| 0 <= i < v@.len() ==> #[trigger] r@[i].annotation == v@[i].annotation,
    decreases *v,
{
    broadcast use group_token_model;

    let mut out: Vec<Token> = Vec::new();
    let n = v.len();
    for i in 0..n
        invariant
            n == v@.len(),
            out@.len() == i,
            forall|p: int| 0 <= p < i ==> #[trigger] token_model(out@[p]) == token_model(v@[p]),
            forall|p: int| 0 <= p < i ==> #[trigger] out@[p].annotation == v@[p].annotation,
        decreases n - i,
    {
        out.push(v[i].clone());
    }
    proof {
        assert forall|p: int| 0 <= p < n implies tokens_model(out@)[p] == tokens_model(
            v@,
        )[p] by {
            lemma_tokens_model_index(out@, p);
            lemma_tokens_model_index(v@, p);
        }
        assert(tokens_model(out@) =~= tokens_model(v@));
    }
    out
}

impl Clone for Alternative {
    fn clone(&self) -> (r: Self)
        ensures
            branches_model(r.0@) == branches_model(self.0@),
        decreases *self,
    {
        broadcast use group_token_model;

        let mut branches: Vec<Vec<Token>> = Vec::new();
        let n = self.0.len();
        for i in 0..n
            invariant
                n == self.0@.len(),
                branches@.len() == i,
                forall|p: int|
                    0 <= p < i ==> #[trigger] tokens_model(branches@[p]@) == tokens_model(
                        self.0@[p]@,
                    ),
            decreases n - i,
        {
            branches.push(clone_tokens(&self.0[i]));
        }
        proof {
            assert forall|p: int| 0 <= p < n implies branches_model(branches@)[p]
                == branches_model(self.0@)[p] by {
                lemma_branches_model_index(branches@, p);
                lemma_branches_model_index(self.0@, p);
            }
            assert(branches_model(branches@) =~= branches_model(self.0@));
        }
        Alternative(branches)
    }
}

impl Clone for Repetition {
    fn clone(&self) -> (r: Self)
        ensures
            tokens_model(r.tokens@) == tokens_model(self.tokens@),
            r.lower == self.lower,
            r.step == self.step,
        decreases *self,
    {
        Repetition { tokens: clone_tokens(&self.tokens), lower: self.lower, step: self.step }
    }
}

impl Clone for TokenKind {
    fn clone(&self) -> (r: Self)
        ensures
            kind_model(r) == kind_model(*self),
        decreases *self,
    {
        match self {
            TokenKind::Alternative(a) => TokenKind::Alternative(a.clone()),
            TokenKind::Class(c) => TokenKind::Class(c.clone()),
            TokenKind::Literal(l) => TokenKind::Literal(l.clone()),
            TokenKind::Repetition(rep) => TokenKind::Repetition(rep.clone()),
            TokenKind::Separator => TokenKind::Separator,
            TokenKind::Wildcard(w) => TokenKind::Wildcard(*w),
        }
    }
}

impl Clone for Token {
    fn clone(&self) -> (r: Self)
        ensures
            token_model(r) == token_model(*self),
            r.annotation == self.annotation,
        decreases *self,
    {
        Token { kind: self.kind.clone(), annotation: self.annotation }
    }
}

impl TokenKind {
    /// Returns the kind with any borrowed text copied into owned storage.
    /// Kinds store their text owned, so the kind is returned unchanged.
    pub fn into_owned(self) -> (r: TokenKind)
        ensures
            r == self,
    {
        self
    }

    /// Unroots a rooted tree wildcard, returning whether the kind was one.
    pub fn unroot(&mut self) -> (r: bool)
        ensures
            kind_model(*final(self)) == spec_unroot(kind_model(*old(self))),
            r == (kind_model(*old(self)) matches GToken::Wildcard(Wildcard::Tree { is_rooted })
                && is_rooted),
    {
        match self {
            TokenKind::Wildcard(Wildcard::Tree { is_rooted }) => {
                let was = *is_rooted;
                *is_rooted = false;
                was
            },
            _ => false,
        }
    }

    /// Whether this token separates path components.
    pub fn is_component_boundary(&self) -> (r: bool)
        ensures
            r == spec_is_component_boundary(kind_model(*self)),
    {
        match self {
            TokenKind::Separator => true,
            TokenKind::Wildcard(Wildcard::Tree { .. }) => true,
            _ => false,
        }
    }

    /// Whether this kind holds sub-expressions of its own.
    pub fn has_sub_tokens(&self) -> (r: bool)
        ensures
            r == spec_has_sub_tokens(kind_model(*self)),
    {
        match self {
            TokenKind::Alternative(_) => true,
            TokenKind::Repetition(_) => true,
            _ => false,
        }
    }

    /// Whether this kind captures matched text.
    pub fn is_capturing(&self) -> (r: bool)
        ensures
            r == spec_is_capturing(kind_model(*self)),
    {
        match self {
            TokenKind::Alternative(_) => true,
            TokenKind::Class(_) => true,
            TokenKind::Repetition(_) => true,
            TokenKind::Wildcard(_) => true,
            _ => false,
        }
    }
}

impl Token {
    /// Builds a token from a kind and its source span.
    pub fn new(kind: TokenKind, annotation: Annotation) -> (t: Token)
        ensures
            t.kind == kind,
            t.annotation == annotation,
    {
        Token { kind, annotation }
    }

    /// Returns the token with any borrowed text copied into owned storage.
    /// Tokens store their text owned, so the token is returned unchanged.
    pub fn into_owned(self) -> (r: Token)
        ensures
            r == self,
    {
        self
    }

    /// Drops the source spans throughout this token, keeping the modelled
    /// token.
    pub fn unannotate(self) -> (r: Token)
        ensures
            token_model(r) == token_model(self),
            r.annotation == spec_zero_annotation(),
        decreases self,
    {
        Token { kind: self.kind.unannotate(), annotation: Annotation::zero() }
    }

    /// The kind of this token.
    pub fn kind(&self) -> (k: &TokenKind)
        ensures
            *k == self.kind,
    {
        &self.kind
    }

    /// The source span of this token.
    pub fn annotation(&self) -> (a: &Annotation)
        ensures
            *a == self.annotation,
    {
        &self.annotation
    }

    /// Unroots a rooted tree wildcard, returning whether the token was one.
    pub fn unroot(&mut self) -> (r: bool)
        ensures
            final(self).annotation == old(self).annotation,
            token_model(*final(self)) == spec_unroot(token_model(*old(self))),
            r == (token_model(*old(self)) matches GToken::Wildcard(Wildcard::Tree { is_rooted })
                && is_rooted),
    {
        self.kind.unroot()
    }

    /// Whether this token roots the expression it begins: its leftmost
    /// terminal in some branch is a separator or a rooted tree wildcard.
    pub fn is_rooted(&self) -> (r: bool)
        ensures
            r == spec_has_preceding_token(token_model(*self), TokenQuery::Rooting),
    {
        self.has_preceding_token_with(TokenQuery::Rooting)
    }

    /// Whether this token tree contains a component boundary.
    pub fn has_component_boundary(&self) -> (r: bool)
        ensures
            r == spec_has_token(token_model(*self), TokenQuery::ComponentBoundary),
    {
        self.has_token_with(TokenQuery::ComponentBoundary)
    }

    /// Whether any non-compound descendant of this token satisfies the query.
    pub fn has_token_with(&self, q: TokenQuery) -> (r: bool)
        ensures
            r == spec_has_token(token_model(*self), q),
        decreases *self,
    {
        match &self.kind {
            TokenKind::Alternative(a) => a.has_token_with(q),
            TokenKind::Repetition(rep) => rep.has_token_with(q),
            _ => matches_query_exec(self, q),
        }
    }

    /// Whether the leftmost non-compound descendant in some branch satisfies
    /// the query.
    pub fn has_preceding_token_with(&self, q: TokenQuery) -> (r: bool)
        ensures
            r == spec_has_preceding_token(token_model(*self), q),
        decreases *self,
    {
        match &self.kind {
            TokenKind::Alternative(a) => a.has_preceding_token_with(q),
            TokenKind::Repetition(rep) => rep.has_preceding_token_with(q),
            _ => matches_query_exec(self, q),
        }
    }

    /// Whether the rightmost non-compound descendant in some branch satisfies
    /// the query.
    pub fn has_terminating_token_with(&self, q: TokenQuery) -> (r: bool)
        ensures
            r == spec_has_terminating_token(token_model(*self), q),
        decreases *self,
    {
        match &self.kind {
            TokenKind::Alternative(a) => a.has_terminating_token_with(q),
            TokenKind::Repetition(rep) => rep.has_terminating_token_with(q),
            _ => matches_query_exec(self, q),
        }
    }
}

/// Tests a query against a token that is not an alternative or a repetition.
fn matches_query_exec(t: &Token, q: TokenQuery) -> (r: bool)
    ensures
        r == spec_matches_query(token_model(*t), q),
{
    match q {
        TokenQuery::ComponentBoundary => t.kind.is_component_boundary(),
        TokenQuery::Rooting => match &t.kind {
            TokenKind::Separator => true,
            TokenKind::Wildcard(Wildcard::Tree { is_rooted }) => *is_rooted,
            _ => false,
        },
        TokenQuery::TreeWildcard => match &t.kind {
            TokenKind::Wildcard(Wildcard::Tree { .. }) => true,
            _ => false,
        },
    }
}

impl Alternative {
    /// The branches of this alternative.
    pub fn branches(&self) -> (b: &Vec<Vec<Token>>)
        ensures
            *b == self.0,
    {
        &self.0
    }

    /// Returns the alternative with any borrowed text copied into owned
    /// storage. Branches store their text owned, so it is returned unchanged.
    pub fn into_owned(self) -> (r: Alternative)
        ensures
            r == self,
    {
        self
    }

    /// Whether any non-compound token in any branch satisfies the query.
    pub fn has_token_with(&self, q: TokenQuery) -> (r: bool)
        ensures
            r == spec_has_token(GToken::Alternative(branches_model(self.0@)), q),
        decreases *self,
    {
        broadcast use group_token_model;

        let ghost bs = branches_model(self.0@);
        let n = self.0.len();
        for i in 0..n
            invariant
                bs == branches_model(self.0@),
                n == self.0@.len(),
                forall|p: int, r0: int|
                    0 <= p < i && 0 <= r0 < bs[p].len() ==> !spec_has_token(
                        #[trigger] bs[p][r0],
                        q,
                    ),
            decreases n - i,
        {
            let branch = &self.0[i];
            let m = branch.len();
            for j in 0..m
                invariant
                    bs == branches_model(self.0@),
                    n == self.0@.len(),
                    i < n,
                    branch == self.0@[i as int],
                    m == branch@.len(),
                    forall|p: int, r0: int|
                        0 <= p < i && 0 <= r0 < bs[p].len() ==> !spec_has_token(
                            #[trigger] bs[p][r0],
                            q,
                        ),
                    forall|r0: int|
                        0 <= r0 < j ==> !spec_has_token(#[trigger] bs[i as int][r0], q),
                decreases m - j,
            {
                proof {
                    lemma_branches_model_index(self.0@, i as int);
                    lemma_tokens_model_index(branch@, j as int);
                    lemma_tokens_model_len(branch@);
                    lemma_branches_model_len(self.0@);
                }
                if branch[j].has_token_with(q) {
                    proof {
                        assert(bs[i as int] == tokens_model(branch@));
                        assert(bs[i as int][j as int] == token_model(branch@[j as int]));
                        assert(0 <= i < bs.len() && 0 <= j < bs[i as int].len()
                            && spec_has_token(bs[i as int][j as int], q));
                        lemma_alt_has_token_witness(bs, q, i as int, j as int);
                    }
                    return true;
                }
            }
            proof {
                lemma_branches_model_index(self.0@, i as int);
                lemma_tokens_model_len(branch@);
                assert(bs[i as int].len() == m);
            }
        }
        proof {
            lemma_branches_model_len(self.0@);
            assert forall|p: int| 0 <= p < bs.len() implies !spec_any_has_token(bs[p], q) by {
                lemma_any_has_token_iff(bs[p], q);
            }
            lemma_any_branch_has_token_iff(bs, q);
        }
        false
    }

    /// Whether the leftmost non-compound token of some branch satisfies the
    /// query.
    pub fn has_preceding_token_with(&self, q: TokenQuery) -> (r: bool)
        ensures
            r == spec_has_preceding_token(GToken::Alternative(branches_model(self.0@)), q),
        decreases *self,
    {
        broadcast use group_token_model;

        let ghost bs = branches_model(self.0@);
        let n = self.0.len();
        for i in 0..n
            invariant
                bs == branches_model(self.0@),
                n == self.0@.len(),
                forall|p: int|
                    0 <= p < i ==> !((#[trigger] bs[p]).len() > 0 && spec_has_preceding_token(
                        bs[p][0],
                        q,
                    )),
            decreases n - i,
        {
            let branch = &self.0[i];
            proof {
                lemma_branches_model_index(self.0@, i as int);
                lemma_tokens_model_len(branch@);
                lemma_branches_model_len(self.0@);
            }
            if branch.len() > 0 {
                proof {
                    lemma_tokens_model_index(branch@, 0);
                }
                if branch[0].has_preceding_token_with(q) {
                    proof {
                        assert(0 <= i < bs.len() && bs[i as int].len() > 0
                            && spec_has_preceding_token(bs[i as int][0], q));
                        lemma_alt_has_preceding_witness(bs, q, i as int);
                    }
                    return true;
                }
            }
        }
        proof {
            lemma_branches_model_len(self.0@);
            lemma_any_branch_preceding_iff(bs, q);
        }
        false
    }

    /// Whether the rightmost non-compound token of some branch satisfies the
    /// query.
    pub fn has_terminating_token_with(&self, q: TokenQuery) -> (r: bool)
        ensures
            r == spec_has_terminating_token(GToken::Alternative(branches_model(self.0@)), q),
        decreases *self,
    {
        broadcast use group_token_model;

        let ghost bs = branches_model(self.0@);
        let n = self.0.len();
        for i in 0..n
            invariant
                bs == branches_model(self.0@),
                n == self.0@.len(),
                forall|p: int|
                    0 <= p < i ==> !((#[trigger] bs[p]).len() > 0 && spec_has_terminating_token(
                        bs[p][bs[p].len() - 1],
                        q,
                    )),
            decreases n - i,
        {
            let branch = &self.0[i];
            proof {
                lemma_branches_model_index(self.0@, i as int);
                lemma_tokens_model_len(branch@);
                lemma_branches_model_len(self.0@);
            }
            if branch.len() > 0 {
                proof {
                    lemma_tokens_model_index(branch@, branch@.len() - 1);
                }
                if branch[branch.len() - 1].has_terminating_token_with(q) {
                    proof {
                        assert(0 <= i < bs.len() && bs[i as int].len() > 0
                            && spec_has_terminating_token(bs[i as int][bs[i as int].len() - 1], q));
                        lemma_alt_has_terminating_witness(bs, q, i as int);
                    }
                    return true;
                }
            }
        }
        proof {
            lemma_branches_model_len(self.0@);
            lemma_any_branch_terminating_iff(bs, q);
        }
        false
    }
}

impl Repetition {
    /// Builds a repetition over a sub-pattern from its textual bounds,
    /// rejecting an upper bound of zero and misordered bounds.
    pub fn new(tokens: Vec<Token>, lower: usize, upper: Option<usize>) -> (r: Option<
        Repetition,
    >)
        ensures
            match upper {
                Some(u) => {
                    if u != 0 && u >= lower {
                        r matches Some(rep) && rep.tokens == tokens && rep.lower == lower
                            && rep.step == Some((u - lower) as usize)
                    } else {
                        r is None
                    }
                },
                None => r matches Some(rep) && rep.tokens == tokens && rep.lower == lower
                    && rep.step is None,
            },
    {
        match upper {
            Some(u) => {
                if u != 0 && u >= lower {
                    Some(Repetition { tokens, lower, step: Some(u - lower) })
                } else {
                    None
                }
            },
            None => Some(Repetition { tokens, lower, step: None }),
        }
    }

    /// The tokens of the repeated sub-pattern.
    pub fn tokens(&self) -> (t: &Vec<Token>)
        ensures
            *t == self.tokens,
    {
        &self.tokens
    }

    /// Returns the repetition with any borrowed text copied into owned
    /// storage. The sub-pattern stores its text owned, so it is returned
    /// unchanged.
    pub fn into_owned(self) -> (r: Repetition)
        ensures
            r == self,
    {
        self
    }

    /// The bounds of this repetition: the lower bound and the optional upper
    /// bound.
    pub fn bounds(&self) -> (b: (usize, Option<usize>))
        requires
            self.step matches Some(s) ==> self.lower + s <= usize::MAX,
        ensures
            b.0 == self.lower,
            b.1 matches Some(u) ==> self.step matches Some(s) && u == self.lower + s,
            b.1 is None <==> self.step is None,
    {
        match self.step {
            Some(s) => (self.lower, Some(self.lower + s)),
            None => (self.lower, None),
        }
    }

    /// Whether any non-compound token of the sub-pattern satisfies the query.
    pub fn has_token_with(&self, q: TokenQuery) -> (r: bool)
        ensures
            r == spec_any_has_token(tokens_model(self.tokens@), q),
        decreases *self,
    {
        broadcast use group_token_model;

        let ghost ts = tokens_model(self.tokens@);
        let n = self.tokens.len();
        for i in 0..n
            invariant
                ts == tokens_model(self.tokens@),
                n == self.tokens@.len(),
                forall|p: int| 0 <= p < i ==> !spec_has_token(#[trigger] ts[p], q),
            decreases n - i,
        {
            proof {
                lemma_tokens_model_index(self.tokens@, i as int);
                lemma_tokens_model_len(self.tokens@);
            }
            if self.tokens[i].has_token_with(q) {
                proof {
                    lemma_any_has_token_iff(ts, q);
                    assert(0 <= i < ts.len() && spec_has_token(ts[i as int], q));
                }
                return true;
            }
        }
        proof {
            lemma_tokens_model_len(self.tokens@);
            lemma_any_has_token_iff(ts, q);
        }
        false
    }

    /// Whether the leftmost non-compound token of the sub-pattern satisfies
    /// the query.
    pub fn has_preceding_token_with(&self, q: TokenQuery) -> (r: bool)
        ensures
            r == (tokens_model(self.tokens@).len() > 0 && spec_has_preceding_token(
                tokens_model(self.tokens@)[0],
                q,
            )),
        decreases *self,
    {
        broadcast use group_token_model;

        if self.tokens.len() > 0 {
            proof {
                lemma_tokens_model_index(self.tokens@, 0);
            }
            self.tokens[0].has_preceding_token_with(q)
        } else {
            false
        }
    }

    /// Whether the rightmost non-compound token of the sub-pattern satisfies
    /// the query.
    pub fn has_terminating_token_with(&self, q: TokenQuery) -> (r: bool)
        ensures
            r == (tokens_model(self.tokens@).len() > 0 && spec_has_terminating_token(
                tokens_model(self.tokens@)[tokens_model(self.tokens@).len() - 1],
                q,
            )),
        decreases *self,
    {
        broadcast use group_token_model;

        if self.tokens.len() > 0 {
            proof {
                lemma_tokens_model_index(self.tokens@, self.tokens@.len() - 1);
            }
            self.tokens[self.tokens.len() - 1].has_terminating_token_with(q)
        } else {
            false
        }
    }

    /// Whether the sub-pattern contains a component boundary.
    pub fn has_component_boundary(&self) -> (r: bool)
        ensures
            r == spec_any_has_token(tokens_model(self.tokens@), TokenQuery::ComponentBoundary),
    {
        self.has_token_with(TokenQuery::ComponentBoundary)
    }
}

/// A parsed glob expression: the original text together with its token tree.
#[derive(Debug)]
pub struct Tokenized {
    pub expression: String,
    pub tokens: Vec<Token>,
}

impl Clone for Tokenized {
    fn clone(&self) -> (r: Self)
        ensures
            r.expression@ == self.expression@,
            tokens_model(r.tokens@) == tokens_model(self.tokens@),
    {
        Tokenized { expression: self.expression.clone(), tokens: clone_tokens(&self.tokens) }
    }
}

/// Surrenders a value's token sequence.
pub trait IntoTokens {
    /// The tokens of this value, in order.
    fn into_tokens(self) -> Vec<Token>;
}

impl Tokenized {
    /// Returns the expression with any borrowed text copied into owned
    /// storage. The expression stores its text owned, so it is returned
    /// unchanged.
    pub fn into_owned(self) -> (r: Tokenized)
        ensures
            r == self,
    {
        self
    }

    /// The glob expression this value was parsed from.
    pub fn expression(&self) -> (e: &String)
        ensures
            *e == self.expression,
    {
        &self.expression
    }

    /// The token tree of the expression.
    pub fn tokens(&self) -> (t: &Vec<Token>)
        ensures
            *t == self.tokens,
    {
        &self.tokens
    }
}

impl IntoTokens for Tokenized {
    fn into_tokens(self) -> Vec<Token> {
        self.tokens
    }
}

/// Builds an unannotated alternative token over the given branches, matching
/// when any branch matches: the branches keep their modelled tokens, in
/// order, and every branch token's span is dropped.
#[verifier::loop_isolation(false)]
pub fn any(branches: Vec<Vec<Token>>) -> (t: Token)
    ensures
        token_model(t) == GToken::Alternative(branches_model(branches@)),
        t.annotation == spec_zero_annotation(),
        t.kind matches TokenKind::Alternative(a) && a.0@.len() == branches@.len() && (forall|
            i: int,
            j: int,
        |
            0 <= i < a.0@.len() && 0 <= j < a.0@[i]@.len() ==> (#[trigger] a.0@[i]@[j]).annotation
                == spec_zero_annotation()),
{
    let mut out: Vec<Vec<Token>> = Vec::new();
    let n = branches.len();
    proof {
        lemma_branches_model_len(branches@);
    }
    for i in 0..n
        invariant
            n == branches@.len(),
            out@.len() == i,
            forall|p: int|
                0 <= p < i ==> #[trigger] tokens_model(out@[p]@) == tokens_model(
                    branches@[p]@,
                ),
            forall|p: int, q: int|
                0 <= p < i && 0 <= q < out@[p]@.len() ==> (#[trigger] out@[p]@[q]).annotation
                    == spec_zero_annotation(),
        decreases n - i,
    {
        let branch = &branches[i];
        let m = branch.len();
        let mut tokens: Vec<Token> = Vec::new();
        proof {
            lemma_tokens_model_len(branch@);
        }
        for j in 0..m
            invariant
                m == branch@.len(),
                branch == branches@[i as int],
                tokens@.len() == j,
                forall|q: int|
                    0 <= q < j ==> #[trigger] token_model(tokens@[q]) == token_model(
                        branch@[q],
                    ),
                forall|q: int|
                    0 <= q < j ==> (#[trigger] tokens@[q]).annotation == spec_zero_annotation(),
            decreases m - j,
        {
            tokens.push(branch[j].clone().unannotate());
        }
        proof {
            lemma_tokens_model_len(tokens@);
            assert forall|q: int| 0 <= q < m implies tokens_model(tokens@)[q] == tokens_model(
                branch@,
            )[q] by {
                lemma_tokens_model_index(tokens@, q);
                lemma_tokens_model_index(branch@, q);
            }
            assert(tokens_model(tokens@) =~= tokens_model(branch@));
        }
        out.push(tokens);
    }
    proof {
        lemma_branches_model_len(out@);
        assert forall|p: int| 0 <= p < n implies branches_model(out@)[p] == branches_model(
            branches@,
        )[p] by {
            lemma_branches_model_index(out@, p);
            lemma_branches_model_index(branches@, p);
        }
        assert(branches_model(out@) =~= branches_model(branches@));
    }
    Token { kind: TokenKind::Alternative(Alternative(out)), annotation: Annotation::zero() }
}

} // verus!

verus! {

/// Rebuilds a token without any source span, keeping the modelled token.
fn unannotate_token_ref(t: &Token) -> (r: Token)
    ensures
        token_model(r) == token_model(*t),
        r.annotation == spec_zero_annotation(),
    decreases *t,
{
    Token { kind: unannotate_kind_ref(&t.kind), annotation: Annotation::zero() }
}

/// Rebuilds a kind without any nested source span, keeping the modelled
/// token.
#[verifier::loop_isolation(false)]
fn unannotate_kind_ref(k: &TokenKind) -> (r: TokenKind)
    ensures
        kind_model(r) == kind_model(*k),
    decreases *k,
{
    match k {
        TokenKind::Alternative(a) => {
            let mut branches: Vec<Vec<Token>> = Vec::new();
            let n = a.0.len();
            proof {
                lemma_branches_model_len(a.0@);
            }
            for i in 0..n
                invariant
                    n == a.0@.len(),
                    branches@.len() == i,
                    forall|p: int|
                        0 <= p < i ==> #[trigger] tokens_model(branches@[p]@) == tokens_model(
                            a.0@[p]@,
                        ),
                decreases n - i,
            {
                let branch = &a.0[i];
                let m = branch.len();
                let mut tokens: Vec<Token> = Vec::new();
                proof {
                    lemma_tokens_model_len(branch@);
                }
                for j in 0..m
                    invariant
                        m == branch@.len(),
                        branch == a.0@[i as int],
                        tokens@.len() == j,
                        forall|p: int|
                            0 <= p < j ==> #[trigger] token_model(tokens@[p]) == token_model(
                                branch@[p],
                            ),
                    decreases m - j,
                {
                    tokens.push(unannotate_token_ref(&branch[j]));
                }
                proof {
                    lemma_tokens_model_len(tokens@);
                    assert forall|p: int| 0 <= p < m implies tokens_model(tokens@)[p]
                        == tokens_model(branch@)[p] by {
                        lemma_tokens_model_index(tokens@, p);
                        lemma_tokens_model_index(branch@, p);
                    }
                    assert(tokens_model(tokens@) =~= tokens_model(branch@));
                }
                branches.push(tokens);
            }
            proof {
                lemma_branches_model_len(branches@);
                assert forall|p: int| 0 <= p < n implies branches_model(branches@)[p]
                    == branches_model(a.0@)[p] by {
                    lemma_branches_model_index(branches@, p);
                    lemma_branches_model_index(a.0@, p);
                }
                assert(branches_model(branches@) =~= branches_model(a.0@));
            }
            TokenKind::Alternative(Alternative(branches))
        },
        TokenKind::Repetition(rep) => {
            let mut tokens: Vec<Token> = Vec::new();
            let m = rep.tokens.len();
            proof {
                lemma_tokens_model_len(rep.tokens@);
            }
            for j in 0..m
                invariant
                    m == rep.tokens@.len(),
                    tokens@.len() == j,
                    forall|p: int|
                        0 <= p < j ==> #[trigger] token_model(tokens@[p]) == token_model(
                            rep.tokens@[p],
                        ),
                decreases m - j,
            {
                tokens.push(unannotate_token_ref(&rep.tokens[j]));
            }
            proof {
                lemma_tokens_model_len(tokens@);
                assert forall|p: int| 0 <= p < m implies tokens_model(tokens@)[p]
                    == tokens_model(rep.tokens@)[p] by {
                    lemma_tokens_model_index(tokens@, p);
                    lemma_tokens_model_index(rep.tokens@, p);
                }
                assert(tokens_model(tokens@) =~= tokens_model(rep.tokens@));
            }
            TokenKind::Repetition(Repetition { tokens, lower: rep.lower, step: rep.step })
        },
        TokenKind::Class(c) => TokenKind::Class(c.clone()),
        TokenKind::Literal(l) => TokenKind::Literal(l.clone()),
        TokenKind::Separator => TokenKind::Separator,
        TokenKind::Wildcard(w) => TokenKind::Wildcard(*w),
    }
}

impl TokenKind {
    /// Drops the source spans throughout this kind, keeping the modelled
    /// token.
    pub fn unannotate(self) -> (r: TokenKind)
        ensures
            kind_model(r) == kind_model(self),
    {
        unannotate_kind_ref(&self)
    }
}

impl Alternative {
    /// Drops the source spans throughout every branch, keeping the
    /// modelled branches.
    pub fn unannotate(self) -> (r: Alternative)
        ensures
            branches_model(r.0@) == branches_model(self.0@),
    {
        match unannotate_kind_ref(&TokenKind::Alternative(self)) {
            TokenKind::Alternative(a) => a,
            _ => Alternative(Vec::new()),
        }
    }
}

impl Repetition {
    /// Drops the source spans throughout the sub-pattern, keeping the
    /// modelled repetition.
    pub fn unannotate(self) -> (r: Repetition)
        ensures
            tokens_model(r.tokens@) == tokens_model(self.tokens@),
            r.lower == self.lower,
            r.step == self.step,
    {
        match unannotate_kind_ref(&TokenKind::Repetition(self)) {
            TokenKind::Repetition(rep) => rep,
            _ => Repetition { tokens: Vec::new(), lower: 0, step: None },
        }
    }
}

} // verus!
