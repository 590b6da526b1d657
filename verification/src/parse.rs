//! The lexical parser: turns the text of a glob expression into a token
//! tree, or reports where parsing failed.
//!
//! The grammar is complete-input: the whole expression must parse. Structural
//! characters are `/ ? * $ : < > ( ) [ ] { } , \\`; a backslash escapes any
//! structural character but the separator and itself. Flag groups `(?i)` and
//! `(?-i)` emit no token and toggle the case sensitivity recorded by the
//! literals that follow.

use vstd::prelude::*;
use vstd::string::StringExecFns;

use crate::text::chars_to_string;
use crate::text::str_to_chars;
use crate::token::kind_model;
use crate::token::token_model;
use crate::token::tokens_model;
use crate::token::branches_model;
use crate::token::lemma_tokens_model_push;
use crate::token::lemma_tokens_model_len;
use crate::token::lemma_tokens_model_index;
use crate::token::lemma_branches_model_len;
use crate::token::lemma_branches_model_index;
use crate::token::spec_is_rooting;
use crate::token::Alternative;
use crate::token::Annotation;
use crate::token::Archetype;
use crate::token::Class;
use crate::token::Evaluation;
use crate::token::GToken;
use crate::token::Literal;
use crate::token::Repetition;
use crate::token::Token;
use crate::token::TokenKind;
use crate::token::Tokenized;
use crate::token::Wildcard;

verus! {

/// A labelled position in the expression at which parsing failed.
#[derive(Debug)]
pub struct ErrorLocation {
    pub location: usize,
    pub context: String,
}

impl Clone for ErrorLocation {
    fn clone(&self) -> (r: Self)
        ensures
            r.location == self.location,
            r.context@ == self.context@,
    {
        ErrorLocation { location: self.location, context: self.context.clone() }
    }
}

/// Describes an expression that could not be parsed: the expression, the
/// earliest failure location, and the labelled failure sites.
#[derive(Debug)]
pub struct ParseError {
    pub expression: String,
    pub start: ErrorLocation,
    pub ends: Vec<ErrorLocation>,
}

impl ParseError {
    /// Returns the error with any borrowed text copied into owned storage.
    /// The error stores its text owned, so it is returned unchanged.
    pub fn into_owned(self) -> (r: ParseError)
        ensures
            r == self,
    {
        self
    }

    /// The glob expression that failed to parse.
    pub fn expression(&self) -> (e: &String)
        ensures
            *e == self.expression,
    {
        &self.expression
    }
}

/// Where sub-expressions end: at the end of the input, at an alternative's
/// `,` or `}`, or at a repetition's `:` or `>`.
#[derive(Clone, Copy, Debug)]
pub enum Terminator {
    Eof,
    InAlternative,
    InRepetition,
}

/// Whether position `i` ends a sub-expression with the given terminator.
pub open spec fn spec_at_terminator(s: Seq<char>, i: int, term: Terminator) -> bool {
    match term {
        Terminator::Eof => i >= s.len(),
        Terminator::InAlternative => i < s.len() && (s[i] == ',' || s[i] == '}'),
        Terminator::InRepetition => i < s.len() && (s[i] == ':' || s[i] == '>'),
    }
}

/// Whether position `i` ends a sub-expression with the given terminator.
#[verifier::loop_isolation(false)]
fn at_terminator(chars: &Vec<char>, i: usize, term: Terminator) -> (r: bool)
    requires
        i <= chars@.len(),
    ensures
        r == spec_at_terminator(chars@, i as int, term),
{
    match term {
        Terminator::Eof => i >= chars.len(),
        Terminator::InAlternative => i < chars.len() && (chars[i] == ',' || chars[i] == '}'),
        Terminator::InRepetition => i < chars.len() && (chars[i] == ':' || chars[i] == '>'),
    }
}

/// The end of the run of flag directives (`i` or `-i`) that starts at `i`.
pub open spec fn spec_directives_end(s: Seq<char>, i: int) -> int
    decreases s.len() - i,
{
    if i < 0 || i >= s.len() {
        i
    } else if s[i] == 'i' {
        spec_directives_end(s, i + 1)
    } else if s[i] == '-' && i + 1 < s.len() && s[i + 1] == 'i' {
        spec_directives_end(s, i + 2)
    } else {
        i
    }
}

pub proof fn lemma_directives_end_ge(s: Seq<char>, i: int)
    ensures
        spec_directives_end(s, i) >= i,
        spec_directives_end(s, i) <= s.len() || spec_directives_end(s, i) == i,
    decreases s.len() - i,
{
    if 0 <= i < s.len() {
        if s[i] == 'i' {
            lemma_directives_end_ge(s, i + 1);
        } else if s[i] == '-' && i + 1 < s.len() && s[i + 1] == 'i' {
            lemma_directives_end_ge(s, i + 2);
        }
    }
}

/// The position after the run of well-formed flag groups that starts at `i`.
pub open spec fn spec_flags_skip(s: Seq<char>, i: int) -> int
    decreases s.len() - i,
    via spec_flags_skip_decreases
{
    if 0 <= i && i + 1 < s.len() && s[i] == '(' && s[i + 1] == '?' {
        let e = spec_directives_end(s, i + 2);
        if e > i + 2 && e < s.len() && s[e] == ')' {
            spec_flags_skip(s, e + 1)
        } else {
            i
        }
    } else {
        i
    }
}

#[via_fn]
proof fn spec_flags_skip_decreases(s: Seq<char>, i: int) {
    if 0 <= i && i + 1 < s.len() && s[i] == '(' && s[i + 1] == '?' {
        lemma_directives_end_ge(s, i + 2);
    }
}

pub proof fn lemma_flags_skip_ge(s: Seq<char>, i: int)
    requires
        0 <= i <= s.len(),
    ensures
        i <= spec_flags_skip(s, i) <= s.len(),
    decreases s.len() - i,
{
    if i + 1 < s.len() && s[i] == '(' && s[i + 1] == '?' {
        let e = spec_directives_end(s, i + 2);
        lemma_directives_end_ge(s, i + 2);
        if e > i + 2 && e < s.len() && s[e] == ')' {
            lemma_flags_skip_ge(s, e + 1);
        }
    }
}

/// Consumes the flag groups at `pos`, returning the next position and the
/// case-insensitivity flag they leave in effect. A malformed group is not
/// consumed; it is left for the token parsers to reject.
#[verifier::loop_isolation(false)]
fn parse_flags(chars: &Vec<char>, pos: usize, ci: bool) -> (r: (usize, bool))
    requires
        pos <= chars@.len(),
    ensures
        r.0 == spec_flags_skip(chars@, pos as int),
        r.1 == spec_flags_ci(chars@, pos as int, ci),
        pos <= r.0 <= chars@.len(),
{
    proof {
        lemma_flags_skip_ge(chars@, pos as int);
    }
    let n = chars.len();
    let mut i = pos;
    let mut flag = ci;
    while i < n && i + 1 < n && chars[i] == '(' && chars[i + 1] == '?'
        invariant
            pos <= i <= n,
            spec_flags_skip(chars@, pos as int) == spec_flags_skip(chars@, i as int),
            spec_flags_ci(chars@, pos as int, ci) == spec_flags_ci(chars@, i as int, flag),
        decreases n - i,
    {
        let ghost entry = i;
        let ghost entry_flag = flag;
        let mut p = i + 2;
        let mut next = flag;
        let mut advanced = false;
        while p < n && (chars[p] == 'i' || (chars[p] == '-' && p + 1 < n && chars[p + 1] == 'i'))
            invariant
                i + 2 <= p <= n,
                spec_directives_end(chars@, i + 2) == spec_directives_end(chars@, p as int),
                spec_directives_ci(chars@, i + 2, entry_flag) == spec_directives_ci(
                    chars@,
                    p as int,
                    next,
                ),
                advanced == (p > i + 2),
            decreases n - p,
        {
            if chars[p] == 'i' {
                next = true;
                p = p + 1;
            } else {
                next = false;
                p = p + 2;
            }
            advanced = true;
        }
        proof {
            assert(spec_directives_end(chars@, p as int) == p);
            assert(spec_directives_ci(chars@, p as int, next) == next);
        }
        if advanced && p < n && chars[p] == ')' {
            proof {
                assert(spec_flags_skip(chars@, entry as int) == spec_flags_skip(chars@, p + 1));
                assert(spec_flags_ci(chars@, entry as int, entry_flag) == spec_flags_ci(
                    chars@,
                    p + 1,
                    next,
                ));
            }
            i = p + 1;
            flag = next;
        } else {
            proof {
                assert(spec_flags_skip(chars@, entry as int) == entry);
                assert(spec_flags_ci(chars@, entry as int, entry_flag) == entry_flag);
            }
            return (i, flag);
        }
    }
    proof {
        assert(spec_flags_skip(chars@, i as int) == i);
        assert(spec_flags_ci(chars@, i as int, flag) == flag);
    }
    (i, flag)
}

/// Whether a character is structural and therefore ends a literal.
pub open spec fn spec_is_structural(c: char) -> bool {
    c == '/' || c == '?' || c == '*' || c == '$' || c == ':' || c == '<' || c == '>' || c == '('
        || c == ')' || c == '[' || c == ']' || c == '{' || c == '}' || c == ',' || c == '\\'
}

/// Whether a character may follow a backslash in a literal: any structural
/// character but the separator and the backslash itself.
pub open spec fn spec_is_escapable(c: char) -> bool {
    c == '?' || c == '*' || c == '$' || c == ':' || c == '<' || c == '>' || c == '(' || c == ')'
        || c == '[' || c == ']' || c == '{' || c == '}' || c == ','
}

fn is_structural(c: char) -> (r: bool)
    ensures
        r == spec_is_structural(c),
{
    c == '/' || c == '?' || c == '*' || c == '$' || c == ':' || c == '<' || c == '>' || c == '('
        || c == ')' || c == '[' || c == ']' || c == '{' || c == '}' || c == ',' || c == '\\'
}

fn is_escapable(c: char) -> (r: bool)
    ensures
        r == spec_is_escapable(c),
{
    c == '?' || c == '*' || c == '$' || c == ':' || c == '<' || c == '>' || c == '(' || c == ')'
        || c == '[' || c == ']' || c == '{' || c == '}' || c == ','
}

/// Builds an error at the given location.
fn err_at(location: usize, context: &str) -> (r: ErrorLocation)
    ensures
        r.location == location,
{
    ErrorLocation { location, context: String::from_str(context) }
}

/// Parses the literal that starts at `pos`: structural characters end it and
/// escapes collapse; an empty literal or a bad escape is an error.
#[verifier::loop_isolation(false)]
fn parse_literal(chars: &Vec<char>, pos: usize, ci: bool) -> (r: Result<
    (Token, usize),
    ErrorLocation,
>)
    requires
        pos < chars@.len(),
    ensures
        match spec_parse_literal(chars@, pos as int, ci) {
            Some((g, e)) => r matches Ok((tok, end)) && token_model(tok) == g && end == e,
            None => r is Err,
        },
        r matches Ok((tok, end)) ==> {
            &&& pos < end <= chars@.len()
            &&& (token_model(tok) matches GToken::Literal { text, is_case_insensitive } && text.len()
                > 0 && is_case_insensitive == ci)
        },
        r matches Err(e) ==> e.location <= chars@.len(),
{
    let n = chars.len();
    let mut buf: Vec<char> = Vec::new();
    let mut i = pos;
    proof {
        match spec_lit_scan(chars@, pos as int) {
            Some((t, e)) => {
                assert(Seq::<char>::empty() + t =~= t);
            },
            None => {},
        }
    }
    while i < n
        invariant
            pos <= i <= n,
            (i == pos) == (buf@.len() == 0),
            match spec_lit_scan(chars@, i as int) {
                Some((t, e)) => spec_lit_scan(chars@, pos as int) == Some((buf@ + t, e)),
                None => spec_lit_scan(chars@, pos as int) is None,
            },
        decreases n - i,
    {
        let c = chars[i];
        if c == '\\' {
            if i + 1 < n && is_escapable(chars[i + 1]) {
                proof {
                    match spec_lit_scan(chars@, i + 2) {
                        Some((t, e)) => {
                            assert((buf@ + seq![chars@[i + 1]]) + t =~= buf@ + (seq![chars@[i
                                + 1]] + t));
                        },
                        None => {},
                    }
                }
                buf.push(chars[i + 1]);
                i = i + 2;
            } else {
                return Err(err_at(i, "escape"));
            }
        } else if is_structural(c) {
            break;
        } else {
            proof {
                match spec_lit_scan(chars@, i + 1) {
                    Some((t, e)) => {
                        assert((buf@ + seq![chars@[i as int]]) + t =~= buf@ + (seq![chars@[
                            i as int]] + t));
                    },
                    None => {},
                }
            }
            buf.push(c);
            i = i + 1;
        }
    }
    proof {
        assert(spec_lit_scan(chars@, i as int) == Some((Seq::<char>::empty(), i as int)));
        assert(buf@ + Seq::<char>::empty() =~= buf@);
    }
    if buf.len() == 0 {
        return Err(err_at(pos, "literal"));
    }
    let text = chars_to_string(&buf);
    let tok = Token {
        kind: TokenKind::Literal(Literal { text, is_case_insensitive: ci }),
        annotation: Annotation { offset: pos, extent: i - pos },
    };
    proof {
        assert(token_model(tok) == GToken::Literal { text: buf@, is_case_insensitive: ci });
    }
    Ok((tok, i))
}

/// Appending one archetype and then a rest concatenates associatively.
proof fn lemma_arch_concat_assoc(a: Seq<Archetype>, x: Archetype, r: Seq<Archetype>)
    ensures
        a.push(x) + r == a + (seq![x] + r),
{
    assert(a.push(x) + r =~= a + (seq![x] + r));
}

/// Appending one token and then a rest concatenates associatively.
proof fn lemma_gtok_concat_assoc(a: Seq<GToken>, x: GToken, r: Seq<GToken>)
    ensures
        a.push(x) + r == a + (seq![x] + r),
{
    assert(a.push(x) + r =~= a + (seq![x] + r));
}

/// Appending one branch and then a rest concatenates associatively.
proof fn lemma_branch_concat_assoc(a: Seq<Seq<GToken>>, x: Seq<GToken>, r: Seq<Seq<GToken>>)
    ensures
        a.push(x) + r == a + (seq![x] + r),
{
    assert(a.push(x) + r =~= a + (seq![x] + r));
}

/// Parses the character class that starts at `pos` (at its `[`).
#[verifier::loop_isolation(false)]
fn parse_class(chars: &Vec<char>, pos: usize) -> (r: Result<(Token, usize), ErrorLocation>)
    requires
        pos < chars@.len(),
        chars@[pos as int] == '[',
    ensures
        match spec_parse_class(chars@, pos as int) {
            Some((g, e)) => r matches Ok((tok, end)) && token_model(tok) == g && end == e,
            None => r is Err,
        },
        r matches Ok((tok, end)) ==> {
            &&& pos < end <= chars@.len()
            &&& (token_model(tok) matches GToken::Class { archetypes, .. } && archetypes.len()
                > 0)
        },
        r matches Err(e) ==> e.location <= chars@.len(),
{
    let n = chars.len();
    let mut i = pos + 1;
    let mut is_negated = false;
    if i < n && chars[i] == '!' {
        is_negated = true;
        i = i + 1;
    }
    let ghost i0 = i as int;
    let mut archetypes: Vec<Archetype> = Vec::new();
    proof {
        match spec_class_members(chars@, i0) {
            Some((a, e)) => {
                assert(Seq::<Archetype>::empty() + a =~= a);
            },
            None => {},
        }
    }
    while i < n && chars[i] != ']'
        invariant
            pos < i <= n,
            match spec_class_members(chars@, i as int) {
                Some((a, e)) => spec_class_members(chars@, i0) == Some((archetypes@ + a, e)),
                None => spec_class_members(chars@, i0) is None,
            },
        decreases n - i,
    {
        let lo = match class_char(chars, i) {
            Some((c, next)) => {
                proof {
                    match spec_class_members(chars@, next as int) {
                        Some((a, e)) => {
                            lemma_arch_concat_assoc(archetypes@, Archetype::Character(c), a);
                        },
                        None => {},
                    }
                }
                i = next;
                c
            },
            None => {
                return Err(err_at(i, "class"));
            },
        };
        if i < n && chars[i] == '-' && i + 1 < n && chars[i + 1] != ']' {
            match class_char(chars, i + 1) {
                Some((hi, next)) => {
                    proof {
                        match spec_class_members(chars@, next as int) {
                            Some((a, e)) => {
                                lemma_arch_concat_assoc(archetypes@, Archetype::Range(lo, hi), a);
                            },
                            None => {},
                        }
                    }
                    archetypes.push(Archetype::Range(lo, hi));
                    i = next;
                },
                None => {
                    return Err(err_at(i + 1, "class"));
                },
            }
        } else {
            archetypes.push(Archetype::Character(lo));
        }
    }
    proof {
        if i < n {
            assert(spec_class_members(chars@, i as int) == Some((
                Seq::<Archetype>::empty(),
                i as int,
            )));
            assert(archetypes@ + Seq::<Archetype>::empty() =~= archetypes@);
        }
    }
    if i >= n || archetypes.len() == 0 {
        return Err(err_at(i, "class"));
    }
    let tok = Token {
        kind: TokenKind::Class(Class { is_negated, archetypes }),
        annotation: Annotation { offset: pos, extent: i + 1 - pos },
    };
    Ok((tok, i + 1))
}

/// Parses one class member character at `i`: a plain character other than
/// `[`, `]`, `-` and `\\`, or an escaped `[`, `]` or `-`.
#[verifier::loop_isolation(false)]
fn class_char(chars: &Vec<char>, i: usize) -> (r: Option<(char, usize)>)
    requires
        i <= chars@.len(),
    ensures
        match spec_class_char(chars@, i as int) {
            Some((c, e)) => r matches Some(p) && p.0 == c && p.1 == e,
            None => r is None,
        },
        r matches Some((c, next)) ==> i < next <= chars@.len(),
{
    let n = chars.len();
    if i >= n {
        return None;
    }
    let c = chars[i];
    if c == '\\' {
        if i + 1 < n && (chars[i + 1] == '[' || chars[i + 1] == ']' || chars[i + 1] == '-') {
            Some((chars[i + 1], i + 2))
        } else {
            None
        }
    } else if c == '[' || c == ']' || c == '-' {
        None
    } else {
        Some((c, i + 1))
    }
}

/// Parses the run of decimal digits at `i`; fails when the value overflows.
#[verifier::loop_isolation(false)]
fn parse_number(chars: &Vec<char>, i: usize) -> (r: Option<(usize, usize)>)
    requires
        i <= chars@.len(),
    ensures
        match spec_parse_number(chars@, i as int) {
            Some((v, e)) => r matches Some(p) && p.0 == v && p.1 == e,
            None => r is None,
        },
        r matches Some((v, next)) ==> i < next <= chars@.len(),
{
    let n = chars.len();
    let mut p = i;
    let mut value: usize = 0;
    while p < n && chars[p] >= '0' && chars[p] <= '9'
        invariant
            i <= p <= n,
            spec_num_scan(chars@, i as int, 0) == spec_num_scan(chars@, p as int, value as int),
        decreases n - p,
    {
        let d = (chars[p] as u32) - ('0' as u32);
        proof {
            assert(d as int == chars@[p as int] as int - '0' as int);
        }
        if value > (usize::MAX - (d as usize)) / 10 {
            return None;
        }
        value = value * 10 + (d as usize);
        p = p + 1;
    }
    proof {
        assert(spec_num_scan(chars@, p as int, value as int) == Some((value as int, p as int)));
    }
    if p == i {
        None
    } else {
        Some((value, p))
    }
}

} // verus!

verus! {

/// Structural well-formedness of a token: literal text and classes are
/// non-empty, repetition bounds are ordered with a non-zero upper bound,
/// alternatives have non-empty branches, and no nested tree wildcard is
/// rooted.
pub open spec fn wf_token(g: GToken) -> bool
    decreases g,
{
    match g {
        GToken::Literal { text, .. } => text.len() > 0,
        GToken::Class { archetypes, .. } => archetypes.len() > 0,
        GToken::Repetition { tokens, lower, step } => {
            &&& tokens.len() > 0
            &&& (step matches Some(st) ==> lower + st <= usize::MAX && lower + st >= 1)
            &&& wf_tokens(tokens)
            &&& unrooted_tokens(tokens)
        },
        GToken::Alternative(bs) => bs.len() > 0 && wf_branches(bs),
        GToken::Separator => true,
        GToken::Wildcard(_) => true,
    }
}

/// Every token of the sequence is well formed.
pub open spec fn wf_tokens(s: Seq<GToken>) -> bool
    decreases s,
{
    s.len() == 0 || (wf_token(s[0]) && wf_tokens(s.drop_first()))
}

/// Every branch is non-empty, well formed, and free of rooted trees.
pub open spec fn wf_branches(bs: Seq<Seq<GToken>>) -> bool
    decreases bs,
{
    bs.len() == 0 || (bs[0].len() > 0 && wf_tokens(bs[0]) && unrooted_tokens(bs[0])
        && wf_branches(bs.drop_first()))
}

/// No token of the sequence is a rooted tree wildcard.
pub open spec fn unrooted_tokens(s: Seq<GToken>) -> bool
    decreases s,
{
    s.len() == 0 || (!(s[0] matches GToken::Wildcard(Wildcard::Tree { is_rooted: true }))
        && unrooted_tokens(s.drop_first()))
}

/// A well-formed parsed expression: every token is well formed and only the
/// first may be a rooted tree wildcard.
pub open spec fn wf_glob(s: Seq<GToken>) -> bool {
    wf_tokens(s) && (s.len() == 0 || unrooted_tokens(s.drop_first()))
}

pub proof fn lemma_wf_tokens_push(s: Seq<GToken>, g: GToken)
    ensures
        wf_tokens(s.push(g)) <==> (wf_tokens(s) && wf_token(g)),
    decreases s,
{
    if s.len() == 0 {
        assert(s.push(g)[0] == g);
        assert(s.push(g).drop_first() =~= Seq::<GToken>::empty());
        assert(wf_tokens(Seq::<GToken>::empty()));
    } else {
        assert(s.push(g).drop_first() =~= s.drop_first().push(g));
        lemma_wf_tokens_push(s.drop_first(), g);
    }
}

pub proof fn lemma_unrooted_push(s: Seq<GToken>, g: GToken)
    ensures
        unrooted_tokens(s.push(g)) <==> (unrooted_tokens(s) && !(g matches GToken::Wildcard(
            Wildcard::Tree { is_rooted: true },
        ))),
    decreases s,
{
    if s.len() == 0 {
        assert(s.push(g)[0] == g);
        assert(s.push(g).drop_first() =~= Seq::<GToken>::empty());
        assert(unrooted_tokens(Seq::<GToken>::empty()));
    } else {
        assert(s.push(g).drop_first() =~= s.drop_first().push(g));
        lemma_unrooted_push(s.drop_first(), g);
    }
}

pub proof fn lemma_wf_tokens_index(s: Seq<GToken>, i: int)
    requires
        wf_tokens(s),
        0 <= i < s.len(),
    ensures
        wf_token(s[i]),
    decreases s,
{
    if i > 0 {
        lemma_wf_tokens_index(s.drop_first(), i - 1);
    }
}

/// A sequence whose tokens are each well formed is well formed.
pub proof fn lemma_wf_tokens_from_all(s: Seq<GToken>)
    requires
        forall|i: int| 0 <= i < s.len() ==> wf_token(#[trigger] s[i]),
    ensures
        wf_tokens(s),
    decreases s,
{
    if s.len() > 0 {
        assert forall|i: int| 0 <= i < s.drop_first().len() implies wf_token(
            #[trigger] s.drop_first()[i],
        ) by {
            assert(s.drop_first()[i] == s[i + 1]);
        }
        lemma_wf_tokens_from_all(s.drop_first());
    }
}

pub proof fn lemma_wf_branches_push(bs: Seq<Seq<GToken>>, b: Seq<GToken>)
    ensures
        wf_branches(bs.push(b)) <==> (wf_branches(bs) && b.len() > 0 && wf_tokens(b)
            && unrooted_tokens(b)),
    decreases bs,
{
    if bs.len() == 0 {
        assert(bs.push(b)[0] == b);
        assert(bs.push(b).drop_first() =~= Seq::<Seq<GToken>>::empty());
        assert(wf_branches(Seq::<Seq<GToken>>::empty()));
    } else {
        assert(bs.push(b).drop_first() =~= bs.drop_first().push(b));
        lemma_wf_branches_push(bs.drop_first(), b);
    }
}

/// Parses a zero-or-more wildcard at `pos`: the wildcard must not be
/// followed, after any flag groups, by another `*` or `$`, unless the
/// sub-expression ends there.
#[verifier::loop_isolation(false)]
fn parse_zom(chars: &Vec<char>, pos: usize, evaluation: Evaluation, term: Terminator, ci: bool)
    -> (r: Result<(Token, usize), ErrorLocation>)
    requires
        pos < chars@.len(),
    ensures
        match spec_parse_zom(chars@, pos as int, evaluation, term) {
            Some((g, e)) => r matches Ok((tok, end)) && token_model(tok) == g && end == e,
            None => r is Err,
        },
        r matches Ok((tok, end)) ==> {
            &&& end == pos + 1
            &&& token_model(tok) == GToken::Wildcard(Wildcard::ZeroOrMore(evaluation))
            &&& ({
                let la = spec_flags_skip(chars@, end as int);
                (la < chars@.len() && chars@[la] != '*' && chars@[la] != '$')
                    || spec_at_terminator(chars@, end as int, term)
            })
        },
        r matches Err(e) ==> e.location <= chars@.len(),
{
    let n = chars.len();
    let end = pos + 1;
    let (la, _) = parse_flags(chars, end, ci);
    let ok = (la < n && chars[la] != '*' && chars[la] != '$') || at_terminator(chars, end, term);
    if ok {
        let tok = Token {
            kind: TokenKind::Wildcard(Wildcard::ZeroOrMore(evaluation)),
            annotation: Annotation { offset: pos, extent: 1 },
        };
        proof {
            assert(token_model(tok) == GToken::Wildcard(Wildcard::ZeroOrMore(evaluation)));
        }
        Ok((tok, end))
    } else {
        Err(err_at(end, "wildcard"))
    }
}

/// Builds a tree wildcard token.
fn tree_token(offset: usize, extent: usize, is_rooted: bool) -> (tok: Token)
    ensures
        token_model(tok) == GToken::Wildcard(Wildcard::Tree { is_rooted }),
{
    let tok = Token {
        kind: TokenKind::Wildcard(Wildcard::Tree { is_rooted }),
        annotation: Annotation { offset, extent },
    };
    proof {
        assert(token_model(tok) == GToken::Wildcard(Wildcard::Tree { is_rooted }));
    }
    tok
}

/// Parses one token at `pos`, after any flag groups. `boe` says whether the
/// position is the very beginning of the enclosing sub-expression, which is
/// where an unprefixed tree wildcard may stand.
#[verifier::loop_isolation(false)]
fn parse_token(
    chars: &Vec<char>,
    pos: usize,
    term: Terminator,
    at_top: bool,
    boe: bool,
    ci: bool,
) -> (r: Result<(Token, usize, bool), ErrorLocation>)
    requires
        pos < chars@.len(),
    ensures
        match spec_parse_token(chars@, pos as int, term, at_top, boe, ci) {
            Some((g, e, cf)) => r matches Ok((tok, end, ci2)) && token_model(tok) == g && end
                == e && ci2 == cf,
            None => r is Err,
        },
        r matches Ok((tok, end, ci2)) ==> {
            &&& pos < end <= chars@.len()
            &&& wf_token(token_model(tok))
            &&& ((token_model(tok) matches GToken::Wildcard(Wildcard::Tree { is_rooted })
                && is_rooted) ==> (at_top && pos == 0))
            &&& (at_top && pos == 0 && chars@[0] == '/' ==> spec_is_rooting(token_model(tok)))
            &&& ((boe && pos + 1 < chars@.len() && chars@[pos as int] == '*' && chars@[pos + 1]
                == '*') ==> token_model(tok) == GToken::Wildcard(
                Wildcard::Tree { is_rooted: false },
            ))
            &&& (token_model(tok) matches GToken::Wildcard(Wildcard::Tree { .. }) ==> (
            chars@[end - 1] == '/' || spec_at_terminator(chars@, end as int, term)))
        },
        r matches Err(e) ==> e.location <= chars@.len(),
    decreases chars@.len() - pos, 1int,
{
    let n = chars.len();
    let c = chars[pos];
    if c == '/' {
        let rooted = at_top && pos == 0;
        let (p2, ci2) = parse_flags(chars, pos + 1, ci);
        if p2 < n && p2 + 1 < n && chars[p2] == '*' && chars[p2 + 1] == '*' {
            let p3 = p2 + 2;
            let (p4, ci3) = parse_flags(chars, p3, ci2);
            if p4 < n && chars[p4] == '/' {
                return Ok((tree_token(pos, p4 + 1 - pos, rooted), p4 + 1, ci3));
            }
            if at_terminator(chars, p3, term) {
                return Ok((tree_token(pos, p3 - pos, rooted), p3, ci2));
            }
        }
        let tok = Token {
            kind: TokenKind::Separator,
            annotation: Annotation { offset: pos, extent: 1 },
        };
        proof {
            assert(token_model(tok) == GToken::Separator);
        }
        Ok((tok, pos + 1, ci))
    } else if c == '?' {
        let tok = Token {
            kind: TokenKind::Wildcard(Wildcard::One),
            annotation: Annotation { offset: pos, extent: 1 },
        };
        proof {
            assert(token_model(tok) == GToken::Wildcard(Wildcard::One));
        }
        Ok((tok, pos + 1, ci))
    } else if c == '*' {
        if boe && pos + 1 < n && chars[pos + 1] == '*' {
            let rooted = false;
            let p3 = pos + 2;
            let (p4, ci3) = parse_flags(chars, p3, ci);
            if p4 < n && chars[p4] == '/' {
                return Ok((tree_token(pos, p4 + 1 - pos, rooted), p4 + 1, ci3));
            }
            if at_terminator(chars, p3, term) {
                return Ok((tree_token(pos, p3 - pos, rooted), p3, ci));
            }
            proof {
                assert(spec_flags_skip(chars@, pos + 1) == pos + 1);
            }
            match parse_zom(chars, pos, Evaluation::Eager, term, ci) {
                Ok(_) => {
                    proof {
                        assert(false);
                    }
                    Err(err_at(pos, "wildcard"))
                },
                Err(e) => Err(e),
            }
        } else {
            match parse_zom(chars, pos, Evaluation::Eager, term, ci) {
                Ok((tok, end)) => Ok((tok, end, ci)),
                Err(e) => Err(e),
            }
        }
    } else if c == '$' {
        match parse_zom(chars, pos, Evaluation::Lazy, term, ci) {
            Ok((tok, end)) => Ok((tok, end, ci)),
            Err(e) => Err(e),
        }
    } else if c == '<' {
        parse_repetition(chars, pos, ci)
    } else if c == '{' {
        parse_alternative(chars, pos, ci)
    } else if c == '[' {
        match parse_class(chars, pos) {
            Ok((tok, end)) => Ok((tok, end, ci)),
            Err(e) => Err(e),
        }
    } else {
        match parse_literal(chars, pos, ci) {
            Ok((tok, end)) => Ok((tok, end, ci)),
            Err(e) => Err(e),
        }
    }
}

/// Parses the repetition that starts at `pos` (at its `<`): a sub-expression
/// followed by optional textual bounds and `>`.
#[verifier::loop_isolation(false)]
fn parse_repetition(chars: &Vec<char>, pos: usize, ci: bool) -> (r: Result<
    (Token, usize, bool),
    ErrorLocation,
>)
    requires
        pos < chars@.len(),
        chars@[pos as int] == '<',
    ensures
        match spec_parse_repetition(chars@, pos as int, ci) {
            Some((g, e, cf)) => r matches Ok((tok, end, ci2)) && token_model(tok) == g && end
                == e && ci2 == cf,
            None => r is Err,
        },
        r matches Ok((tok, end, ci2)) ==> {
            &&& pos < end <= chars@.len()
            &&& wf_token(token_model(tok))
            &&& token_model(tok) is Repetition
        },
        r matches Err(e) ==> e.location <= chars@.len(),
    decreases chars@.len() - pos, 0int,
{
    let n = chars.len();
    let (toks, p1, ci1) = match parse_glob(chars, pos + 1, Terminator::InRepetition, false, ci) {
        Ok(v) => v,
        Err(e) => {
            return Err(e);
        },
    };
    let (lower, upper, p2): (usize, Option<usize>, usize) = if chars[p1] == ':' {
        let q = p1 + 1;
        match parse_number(chars, q) {
            Some((lo, q2)) => {
                if q2 < n && chars[q2] == ',' {
                    match parse_number(chars, q2 + 1) {
                        Some((hi, q3)) => (lo, Some(hi), q3),
                        None => (lo, None, q2 + 1),
                    }
                } else {
                    (lo, Some(lo), q2)
                }
            },
            None => (1, None, q),
        }
    } else {
        (0, None, p1)
    };
    if p2 < n && chars[p2] == '>' {
        let ghost gtoks = tokens_model(toks@);
        proof {
            lemma_tokens_model_len(toks@);
        }
        match Repetition::new(toks, lower, upper) {
            Some(rep) => {
                let tok = Token {
                    kind: TokenKind::Repetition(rep),
                    annotation: Annotation { offset: pos, extent: p2 + 1 - pos },
                };
                proof {
                    assert(token_model(tok) == GToken::Repetition {
                        tokens: gtoks,
                        lower: lower,
                        step: match upper {
                            Some(u) => Some((u - lower) as usize),
                            None => None,
                        },
                    });
                }
                Ok((tok, p2 + 1, ci1))
            },
            None => Err(err_at(p2, "repetition bounds")),
        }
    } else {
        Err(err_at(p2, "repetition"))
    }
}

/// Parses the alternative that starts at `pos` (at its `{`): one or more
/// branches separated by `,` and closed by `}`.
#[verifier::loop_isolation(false)]
fn parse_alternative(chars: &Vec<char>, pos: usize, ci: bool) -> (r: Result<
    (Token, usize, bool),
    ErrorLocation,
>)
    requires
        pos < chars@.len(),
        chars@[pos as int] == '{',
    ensures
        match spec_parse_alternative(chars@, pos as int, ci) {
            Some((g, e, cf)) => r matches Ok((tok, end, ci2)) && token_model(tok) == g && end
                == e && ci2 == cf,
            None => r is Err,
        },
        r matches Ok((tok, end, ci2)) ==> {
            &&& pos < end <= chars@.len()
            &&& wf_token(token_model(tok))
            &&& token_model(tok) is Alternative
        },
        r matches Err(e) ==> e.location <= chars@.len(),
    decreases chars@.len() - pos, 0int,
{
    let n = chars.len();
    let mut branches: Vec<Vec<Token>> = Vec::new();
    let mut cur = pos + 1;
    let mut f = ci;
    proof {
        match spec_alt_branches(chars@, pos + 1, ci) {
            Some((bs2, e, cf)) => {
                assert(Seq::<Seq<GToken>>::empty() + bs2 =~= bs2);
            },
            None => {},
        }
    }
    loop
        invariant
            pos < cur <= n,
            wf_branches(branches_model(branches@)),
            match spec_alt_branches(chars@, cur as int, f) {
                Some((bs2, e, cf)) => spec_alt_branches(chars@, pos + 1, ci) == Some((
                    branches_model(branches@) + bs2,
                    e,
                    cf,
                )),
                None => spec_alt_branches(chars@, pos + 1, ci) is None,
            },
        decreases n - cur,
    {
        let ghost pre = branches_model(branches@);
        let (toks, p, f2) = match parse_glob(chars, cur, Terminator::InAlternative, false, f) {
            Ok(v) => v,
            Err(e) => {
                return Err(e);
            },
        };
        proof {
            lemma_tokens_model_len(toks@);
            lemma_branches_model_push_alt(branches@, toks);
            lemma_wf_branches_push(pre, tokens_model(toks@));
            match spec_alt_branches(chars@, p + 1, f2) {
                Some((bs2, e, cf)) => {
                    lemma_branch_concat_assoc(pre, tokens_model(toks@), bs2);
                },
                None => {},
            }
            assert(pre.push(tokens_model(toks@)) =~= pre + seq![tokens_model(toks@)]);
        }
        branches.push(toks);
        f = f2;
        if chars[p] == ',' {
            cur = p + 1;
        } else {
            let ghost bs = branches_model(branches@);
            proof {
                lemma_branches_model_len(branches@);
            }
            let tok = Token {
                kind: TokenKind::Alternative(Alternative(branches)),
                annotation: Annotation { offset: pos, extent: p + 1 - pos },
            };
            proof {
                assert(token_model(tok) == GToken::Alternative(bs));
            }
            return Ok((tok, p + 1, f));
        }
    }
}

/// Appending a branch appends its modelled tokens.
proof fn lemma_branches_model_push_alt(bs: Seq<Vec<Token>>, b: Vec<Token>)
    ensures
        branches_model(bs.push(b)) == branches_model(bs).push(tokens_model(b@)),
{
    lemma_branches_model_len(bs);
    lemma_branches_model_len(bs.push(b));
    assert forall|i: int| 0 <= i < bs.len() + 1 implies branches_model(bs.push(b))[i]
        == branches_model(bs).push(tokens_model(b@))[i] by {
        lemma_branches_model_index(bs.push(b), i);
        if i < bs.len() {
            lemma_branches_model_index(bs, i);
        }
    }
    assert(branches_model(bs.push(b)) =~= branches_model(bs).push(tokens_model(b@)));
}

/// Parses the sub-expression that starts at `start` and runs to its
/// terminator: one or more tokens, each preceded by any flag groups.
#[verifier::loop_isolation(false)]
#[verifier::rlimit(100)]
fn parse_glob(chars: &Vec<char>, start: usize, term: Terminator, at_top: bool, ci: bool) -> (r:
    Result<(Vec<Token>, usize, bool), ErrorLocation>)
    requires
        start <= chars@.len(),
    ensures
        match spec_parse_subglob(chars@, start as int, term, at_top, ci) {
            Some((gs, e, cf)) => r matches Ok((toks, end, ci2)) && tokens_model(toks@) == gs
                && end == e && ci2 == cf,
            None => r is Err,
        },
        r matches Ok((toks, end, ci2)) ==> {
            &&& start < end <= chars@.len()
            &&& toks@.len() >= 1
            &&& wf_tokens(tokens_model(toks@))
            &&& unrooted_tokens(tokens_model(toks@).drop_first())
            &&& (!at_top ==> unrooted_tokens(tokens_model(toks@)))
            &&& spec_at_terminator(chars@, end as int, term)
            &&& (at_top && start == 0 && chars@.len() > 0 && chars@[0] == '/'
                ==> spec_is_rooting(tokens_model(toks@)[0]))
            &&& (at_top && start == 0 && chars@.len() > 1 && chars@[0] == '*' && chars@[1] == '*'
                ==> tokens_model(toks@)[0] == GToken::Wildcard(
                Wildcard::Tree { is_rooted: false },
            ))
        },
        r matches Err(e) ==> e.location <= chars@.len(),
    decreases chars@.len() - start, 2int,
{
    let n = chars.len();
    let mut toks: Vec<Token> = Vec::new();
    let mut pos = start;
    let mut f = ci;
    proof {
        assert(tokens_model(toks@) =~= Seq::<GToken>::empty());
        assert(wf_tokens(Seq::<GToken>::empty()));
        assert(unrooted_tokens(Seq::<GToken>::empty()));
        match spec_glob_seq(chars@, start as int, term, at_top, start as int, ci) {
            Some((rest, e, cf)) => {
                assert(Seq::<GToken>::empty() + rest =~= rest);
            },
            None => {},
        }
    }
    loop
        invariant
            start <= pos <= n,
            (toks@.len() == 0) == (pos == start),
            match spec_glob_seq(chars@, pos as int, term, at_top, start as int, f) {
                Some((rest, e, cf)) => spec_glob_seq(
                    chars@,
                    start as int,
                    term,
                    at_top,
                    start as int,
                    ci,
                ) == Some((tokens_model(toks@) + rest, e, cf)),
                None => spec_glob_seq(chars@, start as int, term, at_top, start as int, ci)
                    is None,
            },
            wf_tokens(tokens_model(toks@)),
            toks@.len() > 0 ==> unrooted_tokens(tokens_model(toks@).drop_first()),
            !at_top ==> unrooted_tokens(tokens_model(toks@)),
            at_top && start == 0 && n > 0 && chars@[0] == '/' && toks@.len() > 0
                ==> spec_is_rooting(tokens_model(toks@)[0]),
            at_top && start == 0 && n > 1 && chars@[0] == '*' && chars@[1] == '*'
                && toks@.len() > 0 ==> tokens_model(toks@)[0] == GToken::Wildcard(
                Wildcard::Tree { is_rooted: false },
            ),
        decreases n - pos,
    {
        if at_terminator(chars, pos, term) {
            proof {
                lemma_tokens_model_len(toks@);
                assert(spec_glob_seq(chars@, pos as int, term, at_top, start as int, f)
                    == Some((Seq::<GToken>::empty(), pos as int, f)));
                assert(tokens_model(toks@) + Seq::<GToken>::empty() =~= tokens_model(toks@));
            }
            if toks.len() == 0 {
                return Err(err_at(pos, "token"));
            }
            return Ok((toks, pos, f));
        }
        if pos >= n {
            return Err(err_at(pos, "terminator"));
        }
        let (p1, f1) = parse_flags(chars, pos, f);
        if p1 >= n {
            return Err(err_at(p1, "token"));
        }
        let boe = p1 == start;
        let ghost gtoks = tokens_model(toks@);
        let (tok, p2, f2) = match parse_token(chars, p1, term, at_top, boe, f1) {
            Ok(v) => v,
            Err(e) => {
                return Err(e);
            },
        };
        proof {
            lemma_tokens_model_len(toks@);
            lemma_tokens_model_push(toks@, tok);
            lemma_wf_tokens_push(gtoks, token_model(tok));
            match spec_glob_seq(chars@, p2 as int, term, at_top, start as int, f2) {
                Some((rest, e, cf)) => {
                    lemma_gtok_concat_assoc(gtoks, token_model(tok), rest);
                },
                None => {},
            }
            assert(gtoks.push(token_model(tok)) =~= gtoks + seq![token_model(tok)]);
            if gtoks.len() == 0 {
                assert(gtoks.push(token_model(tok)).drop_first() =~= Seq::<GToken>::empty());
                assert(unrooted_tokens(Seq::<GToken>::empty()));
            } else {
                assert(gtoks.push(token_model(tok)).drop_first() =~= gtoks.drop_first().push(
                    token_model(tok),
                ));
                lemma_unrooted_push(gtoks.drop_first(), token_model(tok));
                assert(p1 > 0);
            }
            if !at_top {
                lemma_unrooted_push(gtoks, token_model(tok));
            }
            if at_top && start == 0 && n > 0 && chars@[0] == '/' && gtoks.len() == 0 {
                assert(spec_flags_skip(chars@, 0) == 0);
                assert(p1 == 0);
            }
            if at_top && start == 0 && n > 1 && chars@[0] == '*' && chars@[1] == '*'
                && gtoks.len() == 0 {
                assert(spec_flags_skip(chars@, 0) == 0);
                assert(p1 == 0);
            }
        }
        toks.push(tok);
        pos = p2;
        f = f2;
    }
}

/// Parses a glob expression into its token tree, or reports where and why
/// parsing failed: the expression is grammatical exactly when `spec_parse`
/// gives it a token tree, and that tree is what is returned. The empty
/// expression parses to an empty token tree. The parser stops at its first
/// failure; the error's labels hold that one site.
pub fn parse(expression: &str) -> (r: Result<Tokenized, ParseError>)
    ensures
        match spec_parse(expression@) {
            Some(gs) => r matches Ok(t) && tokens_model(t.tokens@) == gs,
            None => r is Err,
        },
        r matches Ok(t) ==> {
            &&& t.expression@ == expression@
            &&& wf_glob(tokens_model(t.tokens@))
            &&& (expression@.len() == 0 <==> t.tokens@.len() == 0)
            &&& (expression@.len() > 0 && expression@[0] == '/' ==> t.tokens@.len() > 0
                && spec_is_rooting(tokens_model(t.tokens@)[0]))
            &&& (expression@.len() > 1 && expression@[0] == '*' && expression@[1] == '*'
                ==> t.tokens@.len() > 0 && tokens_model(t.tokens@)[0] == GToken::Wildcard(
                Wildcard::Tree { is_rooted: false },
            ))
        },
        r matches Err(e) ==> {
            &&& e.expression@ == expression@
            &&& e.start.location <= expression@.len()
            &&& e.ends@.len() == 1
            &&& e.ends@[0].location == e.start.location
        },
{
    let chars = str_to_chars(expression);
    let text = String::from_str(expression);
    if chars.len() == 0 {
        let empty: Vec<Token> = Vec::new();
        proof {
            assert(tokens_model(empty@) =~= Seq::<GToken>::empty());
            assert(wf_tokens(Seq::<GToken>::empty()));
        }
        return Ok(Tokenized { expression: text, tokens: empty });
    }
    match parse_glob(&chars, 0, Terminator::Eof, true, crate::variance::PATHS_ARE_CASE_INSENSITIVE) {
        Ok((toks, _, _)) => {
            proof {
                lemma_tokens_model_len(toks@);
            }
            Ok(Tokenized { expression: text, tokens: toks })
        },
        Err(e) => {
            let start = e.clone();
            let mut ends: Vec<ErrorLocation> = Vec::new();
            ends.push(e);
            Err(ParseError { expression: text, start, ends })
        },
    }
}

} // verus!

verus! {

// The mathematical parse: spec functions that fix, for every input text,
// whether it is grammatical and which token tree it denotes. The
// executable parser below is proved equivalent to them.

/// The case-insensitivity flag after the run of directives that starts at
/// `i`.
pub open spec fn spec_directives_ci(s: Seq<char>, i: int, ci: bool) -> bool
    decreases s.len() - i,
{
    if i < 0 || i >= s.len() {
        ci
    } else if s[i] == 'i' {
        spec_directives_ci(s, i + 1, true)
    } else if s[i] == '-' && i + 1 < s.len() && s[i + 1] == 'i' {
        spec_directives_ci(s, i + 2, false)
    } else {
        ci
    }
}

/// The case-insensitivity flag after the run of well-formed flag groups
/// that starts at `i`.
pub open spec fn spec_flags_ci(s: Seq<char>, i: int, ci: bool) -> bool
    decreases s.len() - i,
    via spec_flags_ci_decreases
{
    if 0 <= i && i + 1 < s.len() && s[i] == '(' && s[i + 1] == '?' {
        let e = spec_directives_end(s, i + 2);
        if e > i + 2 && e < s.len() && s[e] == ')' {
            spec_flags_ci(s, e + 1, spec_directives_ci(s, i + 2, ci))
        } else {
            ci
        }
    } else {
        ci
    }
}

#[via_fn]
proof fn spec_flags_ci_decreases(s: Seq<char>, i: int, ci: bool) {
    if 0 <= i && i + 1 < s.len() && s[i] == '(' && s[i + 1] == '?' {
        lemma_directives_end_ge(s, i + 2);
    }
}

/// The text of the literal that starts at `i` and the position after it:
/// plain characters and collapsed escapes, ending before a structural
/// character; nothing on a bad escape.
pub open spec fn spec_lit_scan(s: Seq<char>, i: int) -> Option<(Seq<char>, int)>
    decreases s.len() - i,
{
    if i < 0 || i >= s.len() {
        Some((Seq::empty(), i))
    } else if s[i] == '\\' {
        if i + 1 < s.len() && spec_is_escapable(s[i + 1]) {
            match spec_lit_scan(s, i + 2) {
                Some((t, e)) => Some((seq![s[i + 1]] + t, e)),
                None => None,
            }
        } else {
            None
        }
    } else if spec_is_structural(s[i]) {
        Some((Seq::empty(), i))
    } else {
        match spec_lit_scan(s, i + 1) {
            Some((t, e)) => Some((seq![s[i]] + t, e)),
            None => None,
        }
    }
}

/// The literal token at `pos`, under the flag `ci`; nothing when the
/// literal is empty or holds a bad escape.
pub open spec fn spec_parse_literal(s: Seq<char>, pos: int, ci: bool) -> Option<(GToken, int)> {
    match spec_lit_scan(s, pos) {
        Some((text, e)) => if text.len() > 0 {
            Some((GToken::Literal { text, is_case_insensitive: ci }, e))
        } else {
            None
        },
        None => None,
    }
}

/// One class member character at `i`: a plain character other than `[`,
/// `]`, `-` and the backslash, or an escaped `[`, `]` or `-`.
pub open spec fn spec_class_char(s: Seq<char>, i: int) -> Option<(char, int)> {
    if i < 0 || i >= s.len() {
        None
    } else if s[i] == '\\' {
        if i + 1 < s.len() && (s[i + 1] == '[' || s[i + 1] == ']' || s[i + 1] == '-') {
            Some((s[i + 1], i + 2))
        } else {
            None
        }
    } else if s[i] == '[' || s[i] == ']' || s[i] == '-' {
        None
    } else {
        Some((s[i], i + 1))
    }
}

/// The class members from `i` to the closing bracket, which is not
/// consumed; nothing when the class is unterminated or malformed.
pub open spec fn spec_class_members(s: Seq<char>, i: int) -> Option<(Seq<Archetype>, int)>
    decreases s.len() - i,
{
    if i < 0 || i >= s.len() {
        None
    } else if s[i] == ']' {
        Some((Seq::empty(), i))
    } else {
        match spec_class_char(s, i) {
            Some((lo, n1)) => if !(i < n1 <= s.len()) {
                None
            } else if n1 < s.len() && s[n1] == '-' && n1 + 1 < s.len() && s[n1 + 1] != ']' {
                match spec_class_char(s, n1 + 1) {
                    Some((hi, n2)) => if !(n1 < n2 <= s.len()) {
                        None
                    } else {
                        match spec_class_members(s, n2) {
                            Some((rest, e)) => Some((seq![Archetype::Range(lo, hi)] + rest, e)),
                            None => None,
                        }
                    },
                    None => None,
                }
            } else {
                match spec_class_members(s, n1) {
                    Some((rest, e)) => Some((seq![Archetype::Character(lo)] + rest, e)),
                    None => None,
                }
            },
            None => None,
        }
    }
}

/// The class token at `pos` (at its opening bracket).
pub open spec fn spec_parse_class(s: Seq<char>, pos: int) -> Option<(GToken, int)> {
    let negated = pos + 1 < s.len() && s[pos + 1] == '!';
    let i0 = if negated {
        pos + 2
    } else {
        pos + 1
    };
    match spec_class_members(s, i0) {
        Some((archetypes, e)) => if archetypes.len() > 0 {
            Some((GToken::Class { is_negated: negated, archetypes }, e + 1))
        } else {
            None
        },
        None => None,
    }
}

/// The decimal number that continues at `i` with the accumulated value
/// `acc`; nothing on overflow.
pub open spec fn spec_num_scan(s: Seq<char>, i: int, acc: int) -> Option<(int, int)>
    decreases s.len() - i,
{
    if 0 <= i && i < s.len() && '0' <= s[i] && s[i] <= '9' {
        let d = s[i] as int - '0' as int;
        if acc > (usize::MAX - d) / 10 {
            None
        } else {
            spec_num_scan(s, i + 1, acc * 10 + d)
        }
    } else {
        Some((acc, i))
    }
}

/// The decimal number at `i`; nothing when no digit stands there or the
/// value overflows.
pub open spec fn spec_parse_number(s: Seq<char>, i: int) -> Option<(int, int)> {
    if 0 <= i && i < s.len() && '0' <= s[i] && s[i] <= '9' {
        spec_num_scan(s, i, 0)
    } else {
        None
    }
}

/// The zero-or-more wildcard at `pos`: accepted only when, after any flag
/// groups, no further `*` or `$` follows, or the sub-expression ends.
pub open spec fn spec_parse_zom(s: Seq<char>, pos: int, evaluation: Evaluation, term: Terminator)
    -> Option<(GToken, int)> {
    let end = pos + 1;
    let la = spec_flags_skip(s, end);
    if (la < s.len() && s[la] != '*' && s[la] != '$') || spec_at_terminator(s, end, term) {
        Some((GToken::Wildcard(Wildcard::ZeroOrMore(evaluation)), end))
    } else {
        None
    }
}

/// The token at `pos` (after any flag groups), with the position and flag
/// it leaves behind.
pub open spec fn spec_parse_token(
    s: Seq<char>,
    pos: int,
    term: Terminator,
    at_top: bool,
    boe: bool,
    ci: bool,
) -> Option<(GToken, int, bool)>
    decreases s.len() - pos, 2int,
{
    if pos < 0 || pos >= s.len() {
        None
    } else if s[pos] == '/' {
        let rooted = at_top && pos == 0;
        let p2 = spec_flags_skip(s, pos + 1);
        let ci2 = spec_flags_ci(s, pos + 1, ci);
        if p2 < s.len() && p2 + 1 < s.len() && s[p2] == '*' && s[p2 + 1] == '*' {
            let p3 = p2 + 2;
            let p4 = spec_flags_skip(s, p3);
            let ci3 = spec_flags_ci(s, p3, ci2);
            if p4 < s.len() && s[p4] == '/' {
                Some((GToken::Wildcard(Wildcard::Tree { is_rooted: rooted }), p4 + 1, ci3))
            } else if spec_at_terminator(s, p3, term) {
                Some((GToken::Wildcard(Wildcard::Tree { is_rooted: rooted }), p3, ci2))
            } else {
                Some((GToken::Separator, pos + 1, ci))
            }
        } else {
            Some((GToken::Separator, pos + 1, ci))
        }
    } else if s[pos] == '?' {
        Some((GToken::Wildcard(Wildcard::One), pos + 1, ci))
    } else if s[pos] == '*' {
        if boe && pos + 1 < s.len() && s[pos + 1] == '*' {
            let p3 = pos + 2;
            let p4 = spec_flags_skip(s, p3);
            let ci3 = spec_flags_ci(s, p3, ci);
            if p4 < s.len() && s[p4] == '/' {
                Some((GToken::Wildcard(Wildcard::Tree { is_rooted: false }), p4 + 1, ci3))
            } else if spec_at_terminator(s, p3, term) {
                Some((GToken::Wildcard(Wildcard::Tree { is_rooted: false }), p3, ci))
            } else {
                match spec_parse_zom(s, pos, Evaluation::Eager, term) {
                    Some((g, e)) => Some((g, e, ci)),
                    None => None,
                }
            }
        } else {
            match spec_parse_zom(s, pos, Evaluation::Eager, term) {
                Some((g, e)) => Some((g, e, ci)),
                None => None,
            }
        }
    } else if s[pos] == '$' {
        match spec_parse_zom(s, pos, Evaluation::Lazy, term) {
            Some((g, e)) => Some((g, e, ci)),
            None => None,
        }
    } else if s[pos] == '<' {
        spec_parse_repetition(s, pos, ci)
    } else if s[pos] == '{' {
        spec_parse_alternative(s, pos, ci)
    } else if s[pos] == '[' {
        match spec_parse_class(s, pos) {
            Some((g, e)) => Some((g, e, ci)),
            None => None,
        }
    } else {
        match spec_parse_literal(s, pos, ci) {
            Some((g, e)) => Some((g, e, ci)),
            None => None,
        }
    }
}

/// The repetition token at `pos` (at its `<`): a non-empty sub-expression,
/// optional textual bounds, and `>`; nothing when the bounds are invalid.
pub open spec fn spec_parse_repetition(s: Seq<char>, pos: int, ci: bool) -> Option<
    (GToken, int, bool),
>
    decreases s.len() - pos, 1int,
{
    if pos < 0 || pos >= s.len() {
        None
    } else {
    match spec_parse_subglob(s, pos + 1, Terminator::InRepetition, false, ci) {
        Some((toks, p1, ci1)) => {
            let b: (int, Option<int>, int) = if p1 < s.len() && s[p1] == ':' {
                let q = p1 + 1;
                match spec_parse_number(s, q) {
                    Some((lo, q2)) => if q2 < s.len() && s[q2] == ',' {
                        match spec_parse_number(s, q2 + 1) {
                            Some((hi, q3)) => (lo, Some(hi), q3),
                            None => (lo, None, q2 + 1),
                        }
                    } else {
                        (lo, Some(lo), q2)
                    },
                    None => (1, None, q),
                }
            } else {
                (0, None, p1)
            };
            let lower = b.0;
            let upper = b.1;
            let p2 = b.2;
            if p2 < s.len() && s[p2] == '>' {
                match upper {
                    Some(u) => if u != 0 && u >= lower {
                        Some(
                            (
                                GToken::Repetition {
                                    tokens: toks,
                                    lower: lower as usize,
                                    step: Some((u - lower) as usize),
                                },
                                p2 + 1,
                                ci1,
                            ),
                        )
                    } else {
                        None
                    },
                    None => Some(
                        (
                            GToken::Repetition { tokens: toks, lower: lower as usize, step: None },
                            p2 + 1,
                            ci1,
                        ),
                    ),
                }
            } else {
                None
            }
        },
        None => None,
    }
    }
}

/// The alternative token at `pos` (at its `{`).
pub open spec fn spec_parse_alternative(s: Seq<char>, pos: int, ci: bool) -> Option<
    (GToken, int, bool),
>
    decreases s.len() - pos, 1int,
{
    if pos < 0 || pos >= s.len() {
        None
    } else {
        match spec_alt_branches(s, pos + 1, ci) {
            Some((bs, e, cf)) => Some((GToken::Alternative(bs), e, cf)),
            None => None,
        }
    }
}

/// The branches of an alternative from `cur` on: non-empty sub-expressions
/// separated by `,` and closed by `}`.
pub open spec fn spec_alt_branches(s: Seq<char>, cur: int, ci: bool) -> Option<
    (Seq<Seq<GToken>>, int, bool),
>
    decreases s.len() - cur, 5int,
{
    match spec_parse_subglob(s, cur, Terminator::InAlternative, false, ci) {
        Some((toks, p, ci1)) => if p < s.len() && s[p] == ',' && p + 1 > cur {
            match spec_alt_branches(s, p + 1, ci1) {
                Some((rest, e, cf)) => Some((seq![toks] + rest, e, cf)),
                None => None,
            }
        } else if p < s.len() && s[p] == '}' {
            Some((seq![toks], p + 1, ci1))
        } else {
            None
        },
        None => None,
    }
}

/// The token sequence from `pos` to the terminator of the enclosing
/// sub-expression, which began at `start`; may be empty.
pub open spec fn spec_glob_seq(
    s: Seq<char>,
    pos: int,
    term: Terminator,
    at_top: bool,
    start: int,
    ci: bool,
) -> Option<(Seq<GToken>, int, bool)>
    decreases s.len() - pos, 3int,
    via spec_glob_seq_decreases
{
    if pos < 0 || pos > s.len() {
        None
    } else if spec_at_terminator(s, pos, term) {
        Some((Seq::empty(), pos, ci))
    } else if pos >= s.len() {
        None
    } else {
        let p1 = spec_flags_skip(s, pos);
        let ci1 = spec_flags_ci(s, pos, ci);
        if p1 >= s.len() {
            None
        } else {
            let boe = p1 == start;
            match spec_parse_token(s, p1, term, at_top, boe, ci1) {
                Some((g, p2, ci2)) => if p2 > pos && p2 <= s.len() {
                    match spec_glob_seq(s, p2, term, at_top, start, ci2) {
                        Some((rest, e, cf)) => Some((seq![g] + rest, e, cf)),
                        None => None,
                    }
                } else {
                    None
                },
                None => None,
            }
        }
    }
}

#[via_fn]
proof fn spec_glob_seq_decreases(
    s: Seq<char>,
    pos: int,
    term: Terminator,
    at_top: bool,
    start: int,
    ci: bool,
) {
    if 0 <= pos <= s.len() {
        lemma_flags_skip_ge(s, pos);
    }
}

/// The non-empty token sequence of the sub-expression that starts at
/// `start`, with the position and flag it leaves behind.
pub open spec fn spec_parse_subglob(
    s: Seq<char>,
    start: int,
    term: Terminator,
    at_top: bool,
    ci: bool,
) -> Option<(Seq<GToken>, int, bool)>
    decreases s.len() - start, 4int,
{
    match spec_glob_seq(s, start, term, at_top, start, ci) {
        Some((toks, e, cf)) => if toks.len() > 0 {
            Some((toks, e, cf))
        } else {
            None
        },
        None => None,
    }
}

/// The token tree a glob expression denotes, or nothing when the
/// expression is not grammatical. The empty expression denotes the empty
/// tree.
pub open spec fn spec_parse(s: Seq<char>) -> Option<Seq<GToken>> {
    if s.len() == 0 {
        Some(Seq::empty())
    } else {
        match spec_parse_subglob(s, 0, Terminator::Eof, true, crate::variance::PATHS_ARE_CASE_INSENSITIVE) {
            Some((toks, _, _)) => Some(toks),
            None => None,
        }
    }
}

} // verus!
