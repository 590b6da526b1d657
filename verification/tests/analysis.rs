//! Tests of the analyses over the token tree: variance, boundedness, the
//! invariant prefix, and the partition.

use std::path::Path;

use wax::parse::parse;
use wax::partition;
use wax::token::TokenQuery;
use wax::variance::{Boundedness, Variance};

#[test]
fn invariant_prefix_path() {
    fn invariant_prefix_path(expression: &str) -> Option<String> {
        partition::invariant_prefix_path(parse(expression).unwrap().tokens())
    }

    assert_eq!(
        Path::new(invariant_prefix_path("/a/b").unwrap().as_str()),
        Path::new("/a/b")
    );
    assert_eq!(
        Path::new(invariant_prefix_path("a/b").unwrap().as_str()),
        Path::new("a/b")
    );
    assert_eq!(
        Path::new(invariant_prefix_path("a/*").unwrap().as_str()),
        Path::new("a/")
    );
    assert_eq!(
        Path::new(invariant_prefix_path("a/*b").unwrap().as_str()),
        Path::new("a/")
    );
    assert_eq!(
        Path::new(invariant_prefix_path("a/b*").unwrap().as_str()),
        Path::new("a/")
    );
    assert_eq!(
        Path::new(invariant_prefix_path("a/b/*/c").unwrap().as_str()),
        Path::new("a/b/")
    );

    let prefix = invariant_prefix_path("../foo/(?i)bar/(?-i)baz").unwrap();
    assert_eq!(Path::new(prefix.as_str()), Path::new("../foo"));

    assert!(invariant_prefix_path("**").is_none());
    assert!(invariant_prefix_path("a*").is_none());
    assert!(invariant_prefix_path("*/b").is_none());
    assert!(invariant_prefix_path("a?/b").is_none());
}

#[test]
fn tree_expression_variance() {
    let tokenized = parse("**").unwrap();
    assert!(matches!(tokenized.variance(), Variance::Variant(Boundedness::Open)));
    let tokenized = parse("<*/>*").unwrap();
    assert!(matches!(tokenized.variance(), Variance::Variant(Boundedness::Open)));
    let tokenized = parse("<<?>/>*").unwrap();
    assert!(matches!(tokenized.variance(), Variance::Variant(Boundedness::Open)));

    let tokenized = parse("foo/**").unwrap();
    assert!(matches!(tokenized.variance(), Variance::Variant(Boundedness::Closed)));
    let tokenized = parse("<foo*/>*").unwrap();
    assert!(matches!(tokenized.variance(), Variance::Variant(Boundedness::Closed)));
}

#[test]
fn invariant_expression_variance() {
    match parse("a/b").unwrap().variance() {
        Variance::Invariant(text) => assert_eq!(text.as_str(), "a/b"),
        _ => panic!("expected an invariant expression"),
    }
    match parse("").unwrap().variance() {
        Variance::Invariant(text) => assert_eq!(text.as_str(), ""),
        _ => panic!("expected an invariant expression"),
    }
    match parse("<ab:2>").unwrap().variance() {
        Variance::Invariant(text) => assert_eq!(text.as_str(), "abab"),
        _ => panic!("expected a repeated invariant text"),
    }
}

#[test]
fn case_flag_makes_literal_variance_variant() {
    assert!(matches!(
        parse("(?i)bar").unwrap().variance(),
        Variance::Variant(Boundedness::Closed)
    ));
    // Text without cased characters stays invariant under the flag.
    match parse("(?i)..").unwrap().variance() {
        Variance::Invariant(text) => assert_eq!(text.as_str(), ".."),
        _ => panic!("expected an invariant expression"),
    }
}

#[test]
fn boundedness_queries() {
    assert!(Boundedness::Closed.is_closed());
    assert!(!Boundedness::Closed.is_open());
    assert!(Boundedness::Open.is_open());

    let tokenized = parse("**").unwrap();
    assert!(tokenized.tokens()[0].kind.depth().is_open());
    assert!(tokenized.tokens()[0].kind.breadth().is_open());
    let tokenized = parse("*").unwrap();
    assert!(tokenized.tokens()[0].kind.depth().is_closed());
    assert!(tokenized.tokens()[0].kind.breadth().is_open());
    let tokenized = parse("a").unwrap();
    assert!(tokenized.tokens()[0].kind.depth().is_closed());
    assert!(tokenized.tokens()[0].kind.breadth().is_closed());
    // A bounded repetition around a tree wildcard still has open depth.
    let tokenized = parse("<a/**/b:1>").unwrap();
    assert!(tokenized.tokens()[0].kind.depth().is_open());
    // An unbounded repetition crossing a component boundary has open depth.
    let tokenized = parse("<a/>").unwrap();
    assert!(tokenized.tokens()[0].kind.depth().is_open());
    let tokenized = parse("<a:1,2>").unwrap();
    assert!(tokenized.tokens()[0].kind.depth().is_closed());
}

#[test]
fn variance_queries_and_addition() {
    let a = Variance::Invariant(String::from("a"));
    let b = Variance::Invariant(String::from("b"));
    assert!(a.is_invariant());
    assert!(!a.is_variant());
    match a.add(b) {
        Variance::Invariant(text) => assert_eq!(text.as_str(), "ab"),
        _ => panic!("expected concatenated invariant text"),
    }
    let open = Variance::Variant(Boundedness::Open);
    let open_too = Variance::Variant(Boundedness::Open);
    assert!(matches!(open.add(open_too), Variance::Variant(Boundedness::Open)));
    let inv = Variance::Invariant(String::from("a"));
    let open = Variance::Variant(Boundedness::Open);
    assert!(matches!(inv.add(open), Variance::Variant(Boundedness::Closed)));
    assert_eq!(
        Variance::Invariant(String::from("x")).to_invariant_string(),
        Some(String::from("x"))
    );
    assert_eq!(Variance::Variant(Boundedness::Open).to_invariant_string(), None);
    assert!(matches!(
        Variance::Variant(Boundedness::Open).boundedness(),
        Boundedness::Open
    ));
    assert!(matches!(
        Variance::Invariant(String::from("x")).boundedness(),
        Boundedness::Closed
    ));
}

#[test]
fn partition_splits_prefix_and_residual() {
    let (prefix, residual) = parse("a/b/*/c").unwrap().partition();
    assert_eq!(prefix.as_str(), "a/b");
    assert!(partition::invariant_prefix_path(residual.tokens()).is_none());

    let (prefix, residual) = parse("/a/*").unwrap().partition();
    assert_eq!(prefix.as_str(), "/a");
    assert!(!residual.tokens().is_empty());
    assert!(!residual.tokens()[0].is_rooted());

    let (prefix, residual) = parse("**").unwrap().partition();
    assert_eq!(prefix.as_str(), "");
    assert!(!residual.tokens()[0].is_rooted());

    let (prefix, residual) = parse("a/b").unwrap().partition();
    assert_eq!(prefix.as_str(), "a/b");
    assert!(residual.tokens().is_empty());
}

#[test]
fn token_queries_see_boundaries_and_roots() {
    let tokenized = parse("{a,b/c}").unwrap();
    let token = &tokenized.tokens()[0];
    assert!(token.has_component_boundary());
    assert!(token.has_token_with(TokenQuery::ComponentBoundary));
    assert!(!token.is_rooted());

    let tokenized = parse("{/a,b}").unwrap();
    let token = &tokenized.tokens()[0];
    assert!(token.is_rooted());
    assert!(token.has_preceding_token_with(TokenQuery::Rooting));
    assert!(token.has_token_with(TokenQuery::ComponentBoundary));

    let tokenized = parse("a").unwrap();
    assert!(!tokenized.tokens()[0].has_component_boundary());
    assert!(tokenized.tokens()[0].kind.is_capturing() == false);
    let tokenized = parse("?").unwrap();
    assert!(tokenized.tokens()[0].kind.is_capturing());
}

#[test]
fn unroot_drops_the_flag_and_reports_it() {
    let tokenized = parse("/**").unwrap();
    let mut token = tokenized.tokens()[0].clone();
    assert!(token.is_rooted());
    assert!(token.unroot());
    assert!(!token.unroot());
    assert!(!token.is_rooted());
}

#[test]
fn unannotate_keeps_structure() {
    let tokenized = parse("abc").unwrap();
    let token = tokenized.tokens()[0].clone().unannotate();
    assert_eq!(token.annotation().offset, 0);
    assert_eq!(token.annotation().extent, 0);
    assert!(matches!(token.kind, wax::token::TokenKind::Literal(_)));
}

#[test]
fn map_invariant_rewrites_only_invariant_text() {
    let mapped = Variance::Invariant(String::from("a")).map_invariant(|text| {
        let mut text = text;
        text.push_str("b");
        text
    });
    match mapped {
        Variance::Invariant(text) => assert_eq!(text.as_str(), "ab"),
        _ => panic!("expected invariant text"),
    }
    let mapped = Variance::Variant(Boundedness::Open).map_invariant(|text| text);
    assert!(matches!(mapped, Variance::Variant(Boundedness::Open)));
}
