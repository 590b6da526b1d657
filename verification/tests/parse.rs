//! Tests of the lexical parser: token shapes, recorded case sensitivity,
//! rooting, and rejected expressions.

use wax::parse::parse;
use wax::token::{Literal, Token, TokenKind, Wildcard};

fn literals_of(tokens: &[Token]) -> Vec<&Literal> {
    let mut out = Vec::new();
    for token in tokens {
        if let TokenKind::Literal(ref literal) = token.kind {
            out.push(literal);
        }
    }
    out
}

#[test]
fn literal_case_insensitivity() {
    let tokenized = parse("(?-i)../foo/(?i)**/bar/**(?-i)/baz/*(?i)qux").unwrap();
    let literals = literals_of(tokenized.tokens());

    assert!(!literals[0].is_case_insensitive); // `..`
    assert!(!literals[1].is_case_insensitive); // `foo`
    assert!(literals[2].is_case_insensitive); // `bar`
    assert!(!literals[3].is_case_insensitive); // `baz`
    assert!(literals[4].is_case_insensitive); // `qux`
}

#[test]
fn parse_collects_expected_literal_texts() {
    let tokenized = parse("(?-i)../foo/(?i)**/bar/**(?-i)/baz/*(?i)qux").unwrap();
    let literals = literals_of(tokenized.tokens());
    let texts: Vec<&str> = literals.iter().map(|l| l.text.as_str()).collect();
    assert_eq!(texts, vec!["..", "foo", "bar", "baz", "qux"]);
}

#[test]
fn empty_expression_parses_to_empty_tree() {
    let tokenized = parse("").unwrap();
    assert!(tokenized.tokens().is_empty());
    assert_eq!(tokenized.expression().as_str(), "");
}

#[test]
fn leading_separator_roots_the_tree() {
    let tokenized = parse("/a/b").unwrap();
    assert!(tokenized.tokens()[0].is_rooted());
    assert!(matches!(tokenized.tokens()[0].kind, TokenKind::Separator));
}

#[test]
fn leading_tree_wildcard_rooting() {
    // A bare tree wildcard is not rooted; a leading separator roots it.
    let tokenized = parse("**").unwrap();
    assert!(matches!(
        tokenized.tokens()[0].kind,
        TokenKind::Wildcard(Wildcard::Tree { is_rooted: false })
    ));
    let tokenized = parse("/**").unwrap();
    assert!(matches!(
        tokenized.tokens()[0].kind,
        TokenKind::Wildcard(Wildcard::Tree { is_rooted: true })
    ));
}

#[test]
fn interior_tree_wildcard_is_not_rooted() {
    let tokenized = parse("a/**").unwrap();
    let last = tokenized.tokens().last().unwrap();
    assert!(matches!(
        last.kind,
        TokenKind::Wildcard(Wildcard::Tree { is_rooted: false })
    ));
}

#[test]
fn adjacent_zero_or_more_wildcards_are_rejected() {
    assert!(parse("src/***").is_err());
    assert!(parse("a**").is_err());
    assert!(parse("*$").is_err());
    assert!(parse("$$").is_err());
    assert!(parse("**$").is_err());
}

#[test]
fn unbounded_tree_wildcard_is_rejected() {
    assert!(parse("a/**b").is_err());
    assert!(parse("**a").is_err());
    assert!(parse("a**/b").is_err());
}

#[test]
fn tree_wildcard_bounded_by_group_parses() {
    assert!(parse("{**/a,b}").is_ok());
    assert!(parse("a/**").is_ok());
    assert!(parse("**/a").is_ok());
    assert!(parse("a/**/b").is_ok());
}

#[test]
fn unterminated_groups_are_rejected() {
    assert!(parse("{.local,.config/**/*.toml").is_err());
    assert!(parse("<a:1").is_err());
    assert!(parse("[ab").is_err());
    assert!(parse("{}").is_err());
    assert!(parse("{a,}").is_err());
}

#[test]
fn escapes_collapse_into_literals() {
    let tokenized = parse("a\\*b").unwrap();
    let literals = literals_of(tokenized.tokens());
    assert_eq!(literals[0].text.as_str(), "a*b");
    assert!(parse("a\\/b").is_err());
    assert!(parse("\\").is_err());
}

#[test]
fn repetition_bounds_parse_and_validate() {
    let tokenized = parse("<a:1,3>").unwrap();
    match &tokenized.tokens()[0].kind {
        TokenKind::Repetition(rep) => {
            assert_eq!(rep.bounds(), (1, Some(3)));
        }
        _ => panic!("expected a repetition"),
    }
    let tokenized = parse("<a>").unwrap();
    match &tokenized.tokens()[0].kind {
        TokenKind::Repetition(rep) => {
            assert_eq!(rep.bounds(), (0, None));
        }
        _ => panic!("expected a repetition"),
    }
    let tokenized = parse("<a:>").unwrap();
    match &tokenized.tokens()[0].kind {
        TokenKind::Repetition(rep) => {
            assert_eq!(rep.bounds(), (1, None));
        }
        _ => panic!("expected a repetition"),
    }
    // A converged bound of zero is rejected, as are misordered bounds.
    assert!(parse("<a:0>").is_err());
    assert!(parse("<a:3,2>").is_err());
}

#[test]
fn classes_parse_members_and_negation() {
    let tokenized = parse("[a-z!]").unwrap();
    match &tokenized.tokens()[0].kind {
        TokenKind::Class(class) => {
            assert!(!class.is_negated);
            assert_eq!(class.archetypes.len(), 2);
        }
        _ => panic!("expected a class"),
    }
    let tokenized = parse("[!a]").unwrap();
    match &tokenized.tokens()[0].kind {
        TokenKind::Class(class) => {
            assert!(class.is_negated);
        }
        _ => panic!("expected a class"),
    }
    assert!(parse("[]").is_err());
    assert!(parse("[a-]").is_err());
}

#[test]
fn parse_error_reports_expression_and_location() {
    let error = parse("src/***/*.rs").unwrap_err();
    assert_eq!(error.expression().as_str(), "src/***/*.rs");
    assert!(error.start.location <= "src/***/*.rs".len());
    let owned = error.into_owned();
    assert_eq!(owned.expression().as_str(), "src/***/*.rs");
}
