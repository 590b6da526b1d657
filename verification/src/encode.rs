//! The matcher: encodes a token tree as an anchored regular expression and
//! matches candidate paths through the regex engine.
//!
//! The encoding is this module's own, verified logic; only compiling the
//! pattern text and running it against a candidate are trusted calls into
//! the regex engine.

use vstd::prelude::*;

use crate::parse::lemma_wf_tokens_index;
use crate::parse::wf_token;
use crate::parse::wf_tokens;
use crate::parse::wf_branches;
use crate::text::chars_to_string;
use crate::text::str_to_chars;
use crate::token::kind_model;
use crate::token::lemma_branches_model_index;
use crate::token::lemma_branches_model_len;
use crate::token::lemma_tokens_model_index;
use crate::token::lemma_tokens_model_len;
use crate::token::token_model;
use crate::token::tokens_model;
use crate::token::branches_model;
use crate::token::Archetype;
use crate::token::Evaluation;
use crate::token::GToken;
use crate::token::Token;
use crate::token::TokenKind;
use crate::token::Wildcard;

verus! {

/// The regular expression type of the regex engine, opaque to verification.
#[verifier::external_type_specification]
#[verifier::external_body]
pub struct ExRegex(regex::Regex);

/// What the regex engine answers for a pattern and a candidate text: a
/// function of the two texts alone.
pub uninterp spec fn regex_match(pattern: Seq<char>, text: Seq<char>) -> bool;

/// Whether the regex engine accepts a pattern text: a function of the text
/// alone.
pub uninterp spec fn regex_compiles(pattern: Seq<char>) -> bool;

/// The capture table the regex engine reports for a pattern and a matching
/// candidate: for each capture group, in order, the byte range it matched,
/// when it took part in the match. A function of the two texts alone.
pub uninterp spec fn regex_captures(pattern: Seq<char>, text: Seq<char>) -> Seq<
    Option<(usize, usize)>,
>;

/// A compiled pattern together with the text it was compiled from. Values
/// are built only by [`compile_pattern`], so the engine's answers are a
/// function of the recorded text.
#[derive(Debug)]
pub struct CompiledRegex {
    regex: regex::Regex,
    pattern: String,
}

impl CompiledRegex {
    /// The pattern text this value was compiled from.
    pub closed spec fn spec_pattern(&self) -> Seq<char> {
        self.pattern@
    }

    /// The pattern text this value was compiled from.
    pub fn pattern(&self) -> (r: &String)
        ensures
            r@ == self.spec_pattern(),
    {
        &self.pattern
    }
}

/// Relies on regex::Regex::new: whether the pattern text compiles is a
/// function of that text alone, named by `regex_compiles`.
#[verifier::external_body]
fn compile_pattern(pattern: &String) -> (r: Option<CompiledRegex>)
    ensures
        r is Some <==> regex_compiles(pattern@),
        r matches Some(c) ==> c.spec_pattern() == pattern@,
{
    match regex::Regex::new(pattern.as_str()) {
        Ok(regex) => Some(CompiledRegex { regex, pattern: pattern.clone() }),
        Err(_) => None,
    }
}

/// Relies on regex::Regex::is_match: deterministic in the pattern and the
/// haystack, so its answer is named by `regex_match`.
#[verifier::external_body]
fn regex_is_match(c: &CompiledRegex, text: &str) -> (r: bool)
    ensures
        r == regex_match(c.spec_pattern(), text@),
{
    c.regex.is_match(text)
}

/// Relies on regex::Regex::captures: a capture table is present exactly
/// when the pattern matches, and is deterministic in the pattern and the
/// haystack; its ranges are byte offsets into the candidate.
#[verifier::external_body]
fn regex_capture_ranges(c: &CompiledRegex, text: &str) -> (r: Option<
    Vec<Option<(usize, usize)>>,
>)
    ensures
        r is Some <==> regex_match(c.spec_pattern(), text@),
        r matches Some(v) ==> v@ == regex_captures(c.spec_pattern(), text@),
{
    c.regex.captures(text).map(|caps| {
        (0..caps.len()).map(|g| caps.get(g).map(|m| (m.start(), m.end()))).collect()
    })
}

impl Clone for CompiledRegex {
    /// Relies on regex::Regex::clone: the clone matches as the original.
    #[verifier::external_body]
    fn clone(&self) -> (r: Self)
        ensures
            r.spec_pattern() == self.spec_pattern(),
    {
        CompiledRegex { regex: self.regex.clone(), pattern: self.pattern.clone() }
    }
}

/// Whether a character is special to the regex engine outside a class.
pub open spec fn spec_is_meta(c: char) -> bool {
    c == '.' || c == '^' || c == '$' || c == '*' || c == '+' || c == '?' || c == '(' || c == ')'
        || c == '[' || c == ']' || c == '{' || c == '}' || c == '|' || c == '\\'
}

/// The encoding of one character outside a class: escaped when special.
pub open spec fn spec_esc_char(c: char) -> Seq<char> {
    if spec_is_meta(c) {
        seq!['\\', c]
    } else {
        seq![c]
    }
}

/// The encoding of a text outside a class.
pub open spec fn spec_esc_text(s: Seq<char>) -> Seq<char>
    decreases s,
{
    if s.len() == 0 {
        Seq::empty()
    } else {
        spec_esc_char(s[0]) + spec_esc_text(s.drop_first())
    }
}

/// Whether a character is special to the regex engine inside a class.
pub open spec fn spec_is_class_meta(c: char) -> bool {
    c == '[' || c == ']' || c == '^' || c == '-' || c == '\\'
}

/// The encoding of one character inside a class: escaped when special.
pub open spec fn spec_esc_class_char(c: char) -> Seq<char> {
    if spec_is_class_meta(c) {
        seq!['\\', c]
    } else {
        seq![c]
    }
}

/// The encoding of the members of a class, in order.
pub open spec fn spec_enc_archetypes(s: Seq<Archetype>) -> Seq<char>
    decreases s,
{
    if s.len() == 0 {
        Seq::empty()
    } else {
        (match s[0] {
            Archetype::Character(c) => spec_esc_class_char(c),
            Archetype::Range(lo, hi) => spec_esc_class_char(lo) + seq!['-'] + spec_esc_class_char(
                hi,
            ),
        }) + spec_enc_archetypes(s.drop_first())
    }
}

/// The decimal digits of `n`, most significant first.
pub open spec fn spec_digits(n: nat) -> Seq<char>
    decreases n,
{
    if n < 10 {
        seq![spec_digit_char(n)]
    } else {
        spec_digits(n / 10) + seq![spec_digit_char(n % 10)]
    }
}

/// The digit character for a value below ten.
pub open spec fn spec_digit_char(d: nat) -> char {
    if d == 0 {
        '0'
    } else if d == 1 {
        '1'
    } else if d == 2 {
        '2'
    } else if d == 3 {
        '3'
    } else if d == 4 {
        '4'
    } else if d == 5 {
        '5'
    } else if d == 6 {
        '6'
    } else if d == 7 {
        '7'
    } else if d == 8 {
        '8'
    } else {
        '9'
    }
}

/// The encoding of one token. `first` and `last` say whether the token
/// stands at the very beginning or end of the whole pattern, which decides
/// how a tree wildcard absorbs its bounding separators. Every capturing
/// token is wrapped in a capture group, so the engine's capture table
/// records, in token order, what each one matched.
pub open spec fn spec_enc_token(g: GToken, first: bool, last: bool) -> Seq<char>
    decreases g,
{
    match g {
        GToken::Literal { text, is_case_insensitive } => if is_case_insensitive {
            "(?i:"@ + spec_esc_text(text) + ")"@
        } else {
            spec_esc_text(text)
        },
        GToken::Separator => "/"@,
        GToken::Wildcard(Wildcard::One) => "([^/])"@,
        GToken::Wildcard(Wildcard::ZeroOrMore(Evaluation::Eager)) => "([^/]*)"@,
        GToken::Wildcard(Wildcard::ZeroOrMore(Evaluation::Lazy)) => "([^/]*?)"@,
        GToken::Wildcard(Wildcard::Tree { .. }) => if first && last {
            "(.*)"@
        } else if first {
            "((?:.*/)?)"@
        } else if last {
            "((?:/.*)?)"@
        } else {
            "(/(?:.*/)?)"@
        },
        GToken::Class { is_negated, archetypes } => if is_negated {
            "([^"@ + spec_enc_archetypes(archetypes) + "/])"@
        } else {
            "(["@ + spec_enc_archetypes(archetypes) + "])"@
        },
        GToken::Repetition { tokens, lower, step } => "((?:"@ + spec_enc_tokens(
            tokens,
            false,
            false,
        ) + "){"@ + spec_digits(lower as nat) + (match step {
            Some(st) => ","@ + spec_digits((lower + st) as nat) + "})"@,
            None => ",})"@,
        }),
        GToken::Alternative(bs) => "("@ + spec_enc_branches(bs, first, last) + ")"@,
    }
}

/// The encoding of a token sequence: each token encoded with its position.
pub open spec fn spec_enc_tokens(s: Seq<GToken>, first: bool, last: bool) -> Seq<char>
    decreases s,
{
    if s.len() == 0 {
        Seq::empty()
    } else {
        spec_enc_token(s[0], first, last && s.len() == 1) + spec_enc_tokens(
            s.drop_first(),
            false,
            last,
        )
    }
}

/// The encoding of an alternative's branches, separated by `|`.
pub open spec fn spec_enc_branches(bs: Seq<Seq<GToken>>, first: bool, last: bool) -> Seq<char>
    decreases bs,
{
    if bs.len() == 0 {
        Seq::empty()
    } else if bs.len() == 1 {
        spec_enc_tokens(bs[0], first, last)
    } else {
        spec_enc_tokens(bs[0], first, last) + "|"@ + spec_enc_branches(
            bs.drop_first(),
            first,
            last,
        )
    }
}

/// The anchored pattern for a whole token sequence: it must match the whole
/// candidate text.
pub open spec fn spec_encode(s: Seq<GToken>) -> Seq<char> {
    "\\A(?:"@ + spec_enc_tokens(s, true, true) + ")\\z"@
}

} // verus!

verus! {

/// Appends the decimal digits of `n`.
fn push_digits(out: &mut Vec<char>, n: usize)
    ensures
        final(out)@ == old(out)@ + spec_digits(n as nat),
    decreases n,
{
    if n < 10 {
        out.push(digit_char(n));
        proof {
            assert(final(out)@ =~= old(out)@ + spec_digits(n as nat));
        }
    } else {
        push_digits(out, n / 10);
        out.push(digit_char(n % 10));
        proof {
            assert(final(out)@ =~= old(out)@ + spec_digits(n as nat));
        }
    }
}

/// The digit character for a value below ten.
fn digit_char(d: usize) -> (r: char)
    requires
        d < 10,
    ensures
        r == spec_digit_char(d as nat),
{
    if d == 0 {
        '0'
    } else if d == 1 {
        '1'
    } else if d == 2 {
        '2'
    } else if d == 3 {
        '3'
    } else if d == 4 {
        '4'
    } else if d == 5 {
        '5'
    } else if d == 6 {
        '6'
    } else if d == 7 {
        '7'
    } else if d == 8 {
        '8'
    } else {
        '9'
    }
}

/// Whether a character is special to the regex engine outside a class.
fn is_meta(c: char) -> (r: bool)
    ensures
        r == spec_is_meta(c),
{
    c == '.' || c == '^' || c == '$' || c == '*' || c == '+' || c == '?' || c == '(' || c == ')'
        || c == '[' || c == ']' || c == '{' || c == '}' || c == '|' || c == '\\'
}

/// Whether a character is special to the regex engine inside a class.
fn is_class_meta(c: char) -> (r: bool)
    ensures
        r == spec_is_class_meta(c),
{
    c == '[' || c == ']' || c == '^' || c == '-' || c == '\\'
}

/// Appends the escaped encoding of a text.
#[verifier::loop_isolation(false)]
fn push_esc_text(out: &mut Vec<char>, text: &Vec<char>)
    ensures
        final(out)@ == old(out)@ + spec_esc_text(text@),
{
    let n = text.len();
    for i in 0..n
        invariant
            n == text@.len(),
            out@ == old(out)@ + spec_esc_text(text@.subrange(0, i as int)),
        decreases n - i,
    {
        let c = text[i];
        proof {
            lemma_esc_text_push(text@.subrange(0, i as int), c);
            assert(text@.subrange(0, i + 1) =~= text@.subrange(0, i as int).push(c));
        }
        if is_meta(c) {
            out.push('\\');
            out.push(c);
        } else {
            out.push(c);
        }
        proof {
            assert(out@ =~= old(out)@ + spec_esc_text(text@.subrange(0, i + 1)));
        }
    }
    proof {
        assert(text@.subrange(0, n as int) =~= text@);
    }
}

/// Escaping one more character appends its encoding.
proof fn lemma_esc_text_push(s: Seq<char>, c: char)
    ensures
        spec_esc_text(s.push(c)) == spec_esc_text(s) + spec_esc_char(c),
    decreases s,
{
    if s.len() == 0 {
        assert(s.push(c).drop_first() =~= Seq::<char>::empty());
        assert(spec_esc_text(Seq::<char>::empty()) == Seq::<char>::empty());
        assert(spec_esc_text(s.push(c)) =~= spec_esc_text(s) + spec_esc_char(c));
    } else {
        assert(s.push(c).drop_first() =~= s.drop_first().push(c));
        lemma_esc_text_push(s.drop_first(), c);
        assert(spec_esc_char(s[0]) + (spec_esc_text(s.drop_first()) + spec_esc_char(c)) =~= (
        spec_esc_char(s[0]) + spec_esc_text(s.drop_first())) + spec_esc_char(c));
        assert(spec_esc_text(s.push(c)) =~= spec_esc_text(s) + spec_esc_char(c));
    }
}

/// Appends one class member character, escaped as the class requires.
fn push_class_char(out: &mut Vec<char>, c: char)
    ensures
        final(out)@ == old(out)@ + spec_esc_class_char(c),
{
    if is_class_meta(c) {
        out.push('\\');
        out.push(c);
    } else {
        out.push(c);
    }
    proof {
        assert(final(out)@ =~= old(out)@ + spec_esc_class_char(c));
    }
}

/// Appends the encodings of the class members from position `i` on.
#[verifier::loop_isolation(false)]
fn push_archetypes(out: &mut Vec<char>, archetypes: &Vec<Archetype>, i: usize)
    requires
        i <= archetypes@.len(),
    ensures
        final(out)@ == old(out)@ + spec_enc_archetypes(
            archetypes@.subrange(i as int, archetypes@.len() as int),
        ),
    decreases archetypes@.len() - i,
{
    let n = archetypes.len();
    if i >= n {
        proof {
            assert(archetypes@.subrange(i as int, n as int) =~= Seq::<Archetype>::empty());
            assert(final(out)@ =~= old(out)@ + spec_enc_archetypes(Seq::<Archetype>::empty()));
        }
        return ;
    }
    proof {
        assert(archetypes@.subrange(i as int, n as int)[0] == archetypes@[i as int]);
        assert(archetypes@.subrange(i as int, n as int).drop_first() =~= archetypes@.subrange(
            i + 1,
            n as int,
        ));
    }
    match archetypes[i] {
        Archetype::Character(c) => {
            push_class_char(out, c);
        },
        Archetype::Range(lo, hi) => {
            push_class_char(out, lo);
            out.push('-');
            push_class_char(out, hi);
        },
    }
    let ghost mid = out@;
    push_archetypes(out, archetypes, i + 1);
    proof {
        assert(final(out)@ =~= old(out)@ + spec_enc_archetypes(
            archetypes@.subrange(i as int, n as int),
        ));
    }
}

/// Appends the literal characters of a string slice.
fn push_str_chars(out: &mut Vec<char>, s: &str)
    ensures
        final(out)@ == old(out)@ + s@,
{
    let chars = str_to_chars(s);
    let n = chars.len();
    let mut i: usize = 0;
    while i < n
        invariant
            n == chars@.len(),
            chars@ == s@,
            i <= n,
            out@ == old(out)@ + s@.subrange(0, i as int),
        decreases n - i,
    {
        out.push(chars[i]);
        i = i + 1;
        proof {
            assert(old(out)@ + s@.subrange(0, i - 1) + seq![s@[i - 1]] =~= old(out)@
                + s@.subrange(0, i as int));
        }
    }
    proof {
        assert(s@.subrange(0, n as int) =~= s@);
    }
}

/// Appends the encoding of one token.
#[verifier::loop_isolation(false)]
#[verifier::rlimit(60)]
fn push_token(out: &mut Vec<char>, t: &Token, first: bool, last: bool)
    requires
        wf_token(token_model(*t)),
    ensures
        final(out)@ == old(out)@ + spec_enc_token(token_model(*t), first, last),
    decreases *t, 1int,
{
    match &t.kind {
        TokenKind::Literal(l) => {
            let text = str_to_chars(l.text.as_str());
            if l.is_case_insensitive {
                push_str_chars(out, "(?i:");
                push_esc_text(out, &text);
                push_str_chars(out, ")");
            } else {
                push_esc_text(out, &text);
            }
            proof {
                assert(final(out)@ =~= old(out)@ + spec_enc_token(token_model(*t), first, last));
            }
        },
        TokenKind::Separator => {
            push_str_chars(out, "/");
            proof {
                assert(final(out)@ =~= old(out)@ + spec_enc_token(token_model(*t), first, last));
            }
        },
        TokenKind::Wildcard(w) => {
            match w {
                Wildcard::One => {
                    push_str_chars(out, "([^/])");
                },
                Wildcard::ZeroOrMore(Evaluation::Eager) => {
                    push_str_chars(out, "([^/]*)");
                },
                Wildcard::ZeroOrMore(Evaluation::Lazy) => {
                    push_str_chars(out, "([^/]*?)");
                },
                Wildcard::Tree { .. } => {
                    if first && last {
                        push_str_chars(out, "(.*)");
                    } else if first {
                        push_str_chars(out, "((?:.*/)?)");
                    } else if last {
                        push_str_chars(out, "((?:/.*)?)");
                    } else {
                        push_str_chars(out, "(/(?:.*/)?)");
                    }
                },
            }
            proof {
                assert(final(out)@ =~= old(out)@ + spec_enc_token(token_model(*t), first, last));
            }
        },
        TokenKind::Class(c) => {
            if c.is_negated {
                push_str_chars(out, "([^");
            } else {
                push_str_chars(out, "([");
            }
            proof {
                assert(c.archetypes@.subrange(0, c.archetypes@.len() as int) =~= c.archetypes@);
            }
            push_archetypes(out, &c.archetypes, 0);
            if c.is_negated {
                push_str_chars(out, "/])");
            } else {
                push_str_chars(out, "])");
            }
            proof {
                assert(final(out)@ =~= old(out)@ + spec_enc_token(token_model(*t), first, last));
            }
        },
        TokenKind::Repetition(rep) => {
            push_str_chars(out, "((?:");
            proof {
                lemma_tokens_model_len(rep.tokens@);
                assert(tokens_model(rep.tokens@).subrange(
                    0,
                    tokens_model(rep.tokens@).len() as int,
                ) =~= tokens_model(rep.tokens@));
            }
            push_tokens(out, &rep.tokens, 0, false, false);
            push_str_chars(out, "){");
            push_digits(out, rep.lower);
            match rep.step {
                Some(st) => {
                    push_str_chars(out, ",");
                    push_digits(out, rep.lower + st);
                    push_str_chars(out, "})");
                },
                None => {
                    push_str_chars(out, ",})");
                },
            }
            proof {
                assert(tokens_model(rep.tokens@).subrange(
                    0,
                    tokens_model(rep.tokens@).len() as int,
                ) =~= tokens_model(rep.tokens@));
                assert(final(out)@ =~= old(out)@ + spec_enc_token(token_model(*t), first, last));
            }
        },
        TokenKind::Alternative(a) => {
            push_str_chars(out, "(");
            proof {
                lemma_branches_model_len(a.0@);
                assert(branches_model(a.0@).subrange(0, branches_model(a.0@).len() as int)
                    =~= branches_model(a.0@));
            }
            push_branches(out, &a.0, 0, first, last);
            push_str_chars(out, ")");
            proof {
                assert(branches_model(a.0@).subrange(0, branches_model(a.0@).len() as int)
                    =~= branches_model(a.0@));
                assert(final(out)@ =~= old(out)@ + spec_enc_token(token_model(*t), first, last));
            }
        },
    }
}

/// Appends the encodings of the tokens from position `i` on.
#[verifier::loop_isolation(false)]
fn push_tokens(out: &mut Vec<char>, tokens: &Vec<Token>, i: usize, first: bool, last: bool)
    requires
        i <= tokens@.len(),
        wf_tokens(tokens_model(tokens@).subrange(i as int, tokens_model(tokens@).len() as int)),
        tokens_model(tokens@).len() == tokens@.len(),
    ensures
        final(out)@ == old(out)@ + spec_enc_tokens(
            tokens_model(tokens@).subrange(i as int, tokens_model(tokens@).len() as int),
            first,
            last,
        ),
    decreases *tokens, 0int, tokens@.len() - i,
{
    let ghost gs = tokens_model(tokens@);
    let n = tokens.len();
    if i >= n {
        proof {
            assert(gs.subrange(i as int, n as int) =~= Seq::<GToken>::empty());
            assert(final(out)@ =~= old(out)@ + spec_enc_tokens(
                Seq::<GToken>::empty(),
                first,
                last,
            ));
        }
        return ;
    }
    proof {
        lemma_tokens_model_index(tokens@, i as int);
        assert(gs.subrange(i as int, n as int)[0] == gs[i as int]);
        assert(gs.subrange(i as int, n as int).drop_first() =~= gs.subrange(i + 1, n as int));
    }
    push_token(out, &tokens[i], first, last && i + 1 == n);
    push_tokens(out, tokens, i + 1, false, last);
    proof {
        assert(final(out)@ =~= old(out)@ + spec_enc_tokens(
            gs.subrange(i as int, n as int),
            first,
            last,
        ));
    }
}

/// Appends the encodings of the branches from position `i` on, separated by
/// `|`.
#[verifier::loop_isolation(false)]
fn push_branches(out: &mut Vec<char>, branches: &Vec<Vec<Token>>, i: usize, first: bool, last: bool)
    requires
        i <= branches@.len(),
        wf_branches(branches_model(branches@).subrange(
            i as int,
            branches_model(branches@).len() as int,
        )),
        branches_model(branches@).len() == branches@.len(),
    ensures
        final(out)@ == old(out)@ + spec_enc_branches(
            branches_model(branches@).subrange(
                i as int,
                branches_model(branches@).len() as int,
            ),
            first,
            last,
        ),
    decreases *branches, 0int, branches@.len() - i,
{
    let ghost bs = branches_model(branches@);
    let n = branches.len();
    if i >= n {
        proof {
            assert(bs.subrange(i as int, n as int) =~= Seq::<Seq<GToken>>::empty());
            assert(final(out)@ =~= old(out)@ + spec_enc_branches(
                Seq::<Seq<GToken>>::empty(),
                first,
                last,
            ));
        }
        return ;
    }
    proof {
        lemma_branches_model_index(branches@, i as int);
        lemma_tokens_model_len(branches@[i as int]@);
        assert(bs.subrange(i as int, n as int)[0] == bs[i as int]);
        assert(bs.subrange(i as int, n as int).drop_first() =~= bs.subrange(i + 1, n as int));
        assert(tokens_model(branches@[i as int]@).subrange(
            0,
            tokens_model(branches@[i as int]@).len() as int,
        ) =~= tokens_model(branches@[i as int]@));
    }
    push_tokens(out, &branches[i], 0, first, last);
    if i + 1 < n {
        push_str_chars(out, "|");
        push_branches(out, branches, i + 1, first, last);
    }
    proof {
        assert(final(out)@ =~= old(out)@ + spec_enc_branches(
            bs.subrange(i as int, n as int),
            first,
            last,
        ));
    }
}

/// The anchored pattern text for a token sequence.
pub fn encode(tokens: &Vec<Token>) -> (r: String)
    requires
        wf_tokens(tokens_model(tokens@)),
    ensures
        r@ == spec_encode(tokens_model(tokens@)),
{
    let mut out: Vec<char> = Vec::new();
    push_str_chars(&mut out, "\\A(?:");
    proof {
        lemma_tokens_model_len(tokens@);
        assert(tokens_model(tokens@).subrange(0, tokens_model(tokens@).len() as int)
            =~= tokens_model(tokens@));
    }
    push_tokens(&mut out, tokens, 0, true, true);
    push_str_chars(&mut out, ")\\z");
    proof {
        assert(out@ =~= spec_encode(tokens_model(tokens@)));
    }
    chars_to_string(&out)
}

/// Compiles the anchored pattern for a token sequence, when the engine
/// accepts it.
pub fn compile_tokens(tokens: &Vec<Token>) -> (r: Option<CompiledRegex>)
    requires
        wf_tokens(tokens_model(tokens@)),
    ensures
        r is Some <==> regex_compiles(spec_encode(tokens_model(tokens@))),
        r matches Some(c) ==> c.spec_pattern() == spec_encode(tokens_model(tokens@)),
{
    let pattern = encode(tokens);
    compile_pattern(&pattern)
}

/// Whether the compiled pattern accepts the candidate text.
pub fn matches_candidate(c: &CompiledRegex, text: &String) -> (r: bool)
    ensures
        r == regex_match(c.spec_pattern(), text@),
{
    regex_is_match(c, text.as_str())
}

/// The capture table of the compiled pattern over the candidate text,
/// present exactly when the pattern accepts it.
pub fn captures_of(c: &CompiledRegex, text: &String) -> (r: Option<Vec<Option<(usize, usize)>>>)
    ensures
        r is Some <==> regex_match(c.spec_pattern(), text@),
        r matches Some(v) ==> v@ == regex_captures(c.spec_pattern(), text@),
{
    regex_capture_ranges(c, text.as_str())
}

} // verus!
