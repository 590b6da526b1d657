//! Tests of component grouping, literal sequences, and the path helpers
//! that the walk engine builds on.

use wax::component::{components, literals};
use wax::parse::parse;
use wax::token::{any, IntoTokens, TokenKind};
use wax::walk::{count_segments, last_component, strip_root, WalkEntry, WalkError, WalkErrorKind};

#[test]
fn components_group_tokens_between_separators() {
    let tokenized = parse("a/b/*/c").unwrap();
    let comps = components(tokenized.tokens());
    assert_eq!(comps.len(), 4);
    assert!(comps[0].variance().is_invariant());
    assert!(comps[2].variance().is_variant());

    let tokenized = parse("a/**/b").unwrap();
    let comps = components(tokenized.tokens());
    // The tree wildcard forms a component of its own.
    assert_eq!(comps.len(), 3);
    assert!(comps[1].tokens()[0].has_component_boundary());

    let tokenized = parse("").unwrap();
    assert!(components(tokenized.tokens()).is_empty());
}

#[test]
fn component_literal_sequences() {
    let tokenized = parse("ab/c*/de").unwrap();
    let comps = components(tokenized.tokens());
    let first = comps[0].literal().unwrap();
    assert_eq!(first.text().as_str(), "ab");
    assert!(!first.is_semantic_literal());
    assert!(comps[1].literal().is_none());

    let tokenized = parse("../x").unwrap();
    let comps = components(tokenized.tokens());
    let dots = comps[0].literal().unwrap();
    assert!(dots.is_semantic_literal());
    assert_eq!(dots.literals().len(), 1);
}

#[test]
fn literals_recurse_into_groups() {
    let tokenized = parse("ab/{cd,e*}/f<gh:1>").unwrap();
    let pairs = literals(tokenized.tokens());
    let mut texts: Vec<String> = pairs.iter().map(|(_, ls)| ls.text()).collect();
    texts.sort();
    // The fully literal components at any level: `ab`, the branch `cd`, and
    // the repetition's `gh`. The components holding wildcards contribute
    // nothing of their own.
    assert_eq!(texts, vec!["ab", "cd", "gh"]);
}

#[test]
fn any_builds_an_alternative_over_branches() {
    let a = parse("x*").unwrap().into_tokens();
    let b = parse("y").unwrap().into_tokens();
    let token = any(vec![a, b]);
    match token.kind {
        TokenKind::Alternative(alternative) => {
            assert_eq!(alternative.branches().len(), 2);
        }
        _ => panic!("expected an alternative"),
    }
}

#[test]
fn path_helpers_split_and_count() {
    assert_eq!(last_component(&String::from("a/b/c")).as_str(), "c");
    assert_eq!(last_component(&String::from("c")).as_str(), "c");
    assert_eq!(last_component(&String::from("a/")).as_str(), "");

    assert_eq!(
        strip_root(&String::from("root/a/b"), &String::from("root")),
        Some(String::from("a/b"))
    );
    assert_eq!(
        strip_root(&String::from("root"), &String::from("root")),
        Some(String::new())
    );
    assert_eq!(
        strip_root(&String::from("other/a"), &String::from("root")),
        None
    );
    assert_eq!(
        strip_root(&String::from("a/b"), &String::new()),
        Some(String::from("a/b"))
    );

    assert_eq!(count_segments(&String::new()), 0);
    assert_eq!(count_segments(&String::from("a")), 1);
    assert_eq!(count_segments(&String::from("a/b/")), 2);
    assert_eq!(count_segments(&String::from("/a/b")), 2);
}

#[test]
fn walk_error_reports_path_and_depth() {
    let error = WalkError {
        depth: 2,
        kind: WalkErrorKind::Io { path: Some(String::from("a/b")), message: String::new() },
    };
    assert_eq!(error.depth(), 2);
    assert_eq!(error.path(), Some(&String::from("a/b")));
    let error = WalkError {
        depth: 0,
        kind: WalkErrorKind::LinkCycle { root: String::from("r"), leaf: String::from("l") },
    };
    assert_eq!(error.path(), Some(&String::from("l")));
    let error = WalkError {
        depth: 1,
        kind: WalkErrorKind::Io { path: None, message: String::from("denied") },
    };
    assert!(error.path().is_none());
}

#[test]
fn walk_entry_accessors() {
    let entry = WalkEntry {
        path: String::from("root/a/b"),
        relative: String::from("a/b"),
        depth: 2,
        is_dir: false,
        matched: Vec::new(),
    };
    assert_eq!(entry.path().as_str(), "root/a/b");
    assert_eq!(entry.to_candidate_path().as_str(), "a/b");
    assert_eq!(entry.depth(), 2);
    assert!(entry.matched().is_empty());
    let entry = entry.into_owned();
    assert_eq!(entry.into_path().as_str(), "root/a/b");
}
