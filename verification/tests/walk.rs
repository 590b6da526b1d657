//! Tests of the walk engine: terminal globs, matching, and the per-entry
//! decisions, exercised against a modelled directory tree.

use wax::component::components;
use wax::encode::{compile_tokens, CompiledRegex};
use wax::glob::Glob;
use wax::parse::parse;
use wax::walk::{
    decide_entry, is_terminal, DepthBehavior, DepthMin, DepthMinMax, LinkBehavior, Negation,
    WalkBehavior, WalkDecision,
};

#[test]
fn query_terminal_glob() {
    assert!(is_terminal(&Glob::new("**").unwrap()));
    assert!(is_terminal(&Glob::new("a/**").unwrap()));
    assert!(is_terminal(&Glob::new("a/<*/>*").unwrap()));
    assert!(is_terminal(&Glob::new("a/<<?>/>*").unwrap()));

    assert!(!is_terminal(&Glob::new("a/**/b").unwrap()));
    assert!(!is_terminal(&Glob::new("a/*").unwrap()));
    assert!(!is_terminal(&Glob::new("a/<?>").unwrap()));
    assert!(!is_terminal(&Glob::new("a</**/b>").unwrap()));
    assert!(!is_terminal(&Glob::new("**/a").unwrap()));
    assert!(!is_terminal(&Glob::new("").unwrap()));
}

#[test]
fn glob_matches_whole_paths() {
    let glob = Glob::new("**/*.rs").unwrap();
    assert!(glob.is_match(&String::from("lib.rs")));
    assert!(glob.is_match(&String::from("src/lib.rs")));
    assert!(glob.is_match(&String::from("a/b/c.rs")));
    assert!(!glob.is_match(&String::from("lib.md")));
    assert!(!glob.is_match(&String::from("lib.rs/")));

    let glob = Glob::new("a*").unwrap();
    assert!(glob.is_match(&String::from("abc")));
    assert!(!glob.is_match(&String::from("a/b")));
    assert!(!glob.is_match(&String::from("b")));

    let glob = Glob::new("a?c").unwrap();
    assert!(glob.is_match(&String::from("abc")));
    assert!(!glob.is_match(&String::from("ac")));
    assert!(!glob.is_match(&String::from("a/c")));

    let glob = Glob::new("[a-c]x").unwrap();
    assert!(glob.is_match(&String::from("bx")));
    assert!(!glob.is_match(&String::from("dx")));
    let glob = Glob::new("[!a]x").unwrap();
    assert!(glob.is_match(&String::from("bx")));
    assert!(!glob.is_match(&String::from("ax")));

    let glob = Glob::new("{a,b/c}d").unwrap();
    assert!(glob.is_match(&String::from("ad")));
    assert!(glob.is_match(&String::from("b/cd")));
    assert!(!glob.is_match(&String::from("cd")));

    let glob = Glob::new("<ab:1,2>").unwrap();
    assert!(glob.is_match(&String::from("ab")));
    assert!(glob.is_match(&String::from("abab")));
    assert!(!glob.is_match(&String::from("ababab")));
    assert!(!glob.is_match(&String::from("")));

    let glob = Glob::new("(?i)foo").unwrap();
    assert!(glob.is_match(&String::from("FOO")));
    assert!(glob.is_match(&String::from("foo")));
    let glob = Glob::new("foo").unwrap();
    assert!(!glob.is_match(&String::from("FOO")));

    let glob = Glob::new("**").unwrap();
    assert!(glob.is_match(&String::from("")));
    assert!(glob.is_match(&String::from("a/b/c")));

    let glob = Glob::new("a\\*b").unwrap();
    assert!(glob.is_match(&String::from("a*b")));
    assert!(!glob.is_match(&String::from("axb")));
}

#[test]
fn depth_behavior_constructors() {
    assert!(matches!(DepthMin::from_min_or_unbounded(0), DepthBehavior::Unbounded));
    assert!(matches!(
        DepthMin::from_min_or_unbounded(2),
        DepthBehavior::Min(DepthMin { min: 2 })
    ));
    assert!(matches!(
        DepthMinMax::from_depths_or_max(3, 1),
        DepthBehavior::MinMax(DepthMinMax { min: 1, extent: 2 })
    ));
    assert!(matches!(
        DepthMinMax::from_depths_or_max(0, 4),
        DepthBehavior::Max(wax::walk::DepthMax { max: 4 })
    ));
    assert_eq!(DepthMinMax { min: 1, extent: 2 }.max(), 3);

    assert!(DepthBehavior::bounded(None, None).is_none());
    assert!(DepthBehavior::bounded(Some(0), None).is_none());
    assert!(DepthBehavior::bounded(Some(3), Some(2)).is_none());
    assert!(matches!(
        DepthBehavior::bounded(Some(2), Some(2)),
        Some(DepthBehavior::MinMax(DepthMinMax { min: 2, extent: 0 }))
    ));
    assert!(matches!(
        DepthBehavior::bounded(None, Some(1)),
        Some(DepthBehavior::Max(wax::walk::DepthMax { max: 1 }))
    ));

    let behavior = WalkBehavior::default();
    assert!(matches!(behavior.depth, DepthBehavior::Unbounded));
    assert!(matches!(behavior.link, LinkBehavior::ReadFile));
}

/// A modelled directory tree: each entry is a relative path, whether it is
/// a directory, and its children.
struct Node {
    name: &'static str,
    children: Vec<Node>,
}

fn dir(name: &'static str, children: Vec<Node>) -> Node {
    Node { name, children }
}

fn file(name: &'static str) -> Node {
    Node { name, children: Vec::new() }
}

/// The tree used by the walk scenarios.
fn sample_tree() -> Node {
    dir(
        "",
        vec![
            dir("doc", vec![file("guide.md")]),
            dir("src", vec![file("glob.rs"), file("lib.rs")]),
            dir(
                "tests",
                vec![dir("harness", vec![file("mod.rs")]), file("walk.rs")],
            ),
            file("README.md"),
        ],
    )
}

struct Simulation {
    pattern: CompiledRegex,
    matchers: Vec<CompiledRegex>,
    negation: Option<Negation>,
    min_depth: usize,
    max_depth: usize,
    emitted: Vec<String>,
    pruned: Vec<String>,
}

/// Prepares a simulation through the real walk builder: the compiled
/// whole pattern, per-component matchers, deny filters and depth bounds
/// are exactly those a walk of the expression would use.
fn prepare(expression: &str, nots: &[&str], bounds: Option<(usize, usize)>) -> Simulation {
    let glob = Glob::new(expression).unwrap();
    let behavior = WalkBehavior {
        depth: match bounds {
            Some((min, max)) => DepthBehavior::bounded(Some(min), Some(max)).unwrap(),
            None => DepthBehavior::Unbounded,
        },
        link: LinkBehavior::ReadFile,
    };
    let mut walk = wax::walk::walk(&glob, &String::new(), behavior).unwrap();
    if !nots.is_empty() {
        let patterns: Vec<String> = nots.iter().map(|p| String::from(*p)).collect();
        walk = walk.not(&patterns).unwrap();
    }
    let wax::walk::Walk { pattern, components, negation, min_depth, max_depth, .. } = walk;
    Simulation {
        pattern,
        matchers: components,
        negation,
        min_depth,
        max_depth,
        emitted: Vec::new(),
        pruned: Vec::new(),
    }
}

/// Feeds the modelled tree through the per-entry decisions the way the
/// traversal would: parents first, and no descent below a pruned entry.
fn visit(sim: &mut Simulation, node: &Node, rel: String, depth: usize) {
    let decision = decide_entry(
        &sim.pattern,
        &sim.matchers,
        &sim.negation,
        sim.min_depth,
        sim.max_depth,
        &rel,
        depth,
    );
    match decision {
        WalkDecision::Emit => {
            sim.emitted.push(rel.clone());
        }
        WalkDecision::Skip => {}
        WalkDecision::Prune => {
            sim.pruned.push(rel);
            return;
        }
    }
    for child in &node.children {
        let path = if rel.is_empty() {
            String::from(child.name)
        } else {
            format!("{}/{}", rel, child.name)
        };
        visit(sim, child, path, depth + 1);
    }
}

fn run(expression: &str, nots: &[&str], bounds: Option<(usize, usize)>) -> Simulation {
    let mut sim = prepare(expression, nots, bounds);
    let tree = sample_tree();
    visit(&mut sim, &tree, String::new(), 0);
    sim
}

fn sorted(mut v: Vec<String>) -> Vec<String> {
    v.sort();
    v
}

#[test]
fn walk_tree_yields_all_paths() {
    let sim = run("**", &[], None);
    assert_eq!(
        sorted(sim.emitted),
        vec![
            "",
            "README.md",
            "doc",
            "doc/guide.md",
            "src",
            "src/glob.rs",
            "src/lib.rs",
            "tests",
            "tests/harness",
            "tests/harness/mod.rs",
            "tests/walk.rs",
        ]
    );
    assert!(sim.pruned.is_empty());
}

#[test]
fn walk_with_terminal_negation_prunes_subtree() {
    let sim = run("**", &["tests/**"], None);
    assert_eq!(
        sorted(sim.emitted),
        vec!["", "README.md", "doc", "doc/guide.md", "src", "src/glob.rs", "src/lib.rs"]
    );
    // The denied directory is pruned whole: nothing below it is visited.
    assert_eq!(sim.pruned, vec!["tests"]);
}

#[test]
fn walk_with_depth_bounds_excludes_ancestors_and_descendants() {
    let sim = run("**", &[], Some((2, 2)));
    assert_eq!(
        sorted(sim.emitted),
        vec![
            "doc/guide.md",
            "src/glob.rs",
            "src/lib.rs",
            "tests/harness",
            "tests/walk.rs",
        ]
    );
}

#[test]
fn walk_invariant_glob_yields_only_invariant_path() {
    // The pattern is wholly invariant: the walk is rooted at the prefix
    // itself and yields exactly that path.
    let glob = Glob::new("src/lib.rs").unwrap();
    let (prefix, residual) = glob.tokenized.partition();
    assert_eq!(prefix.as_str(), "src/lib.rs");
    assert!(residual.tokens().is_empty());
    let mut sim = prepare("src/lib.rs", &[], None);
    // The walk root is the single file named by the prefix.
    let root = file("lib.rs");
    visit(&mut sim, &root, String::new(), 0);
    assert_eq!(sim.emitted, vec![""]);
    assert!(sim.pruned.is_empty());
}

#[test]
fn walk_with_extension_alternative_and_negation() {
    let sim = run("**/*.{md,rs}", &["**/harness/**"], None);
    assert_eq!(
        sorted(sim.emitted),
        vec![
            "README.md",
            "doc/guide.md",
            "src/glob.rs",
            "src/lib.rs",
            "tests/walk.rs",
        ]
    );
    // The engine reports the denied directory as pruned and never reads
    // its children.
    assert_eq!(sim.pruned, vec!["tests/harness"]);
}

#[test]
fn walk_prunes_on_component_mismatch() {
    // The prefix `src` roots the walk, so the residual `*.rs` is matched
    // against paths below it.
    let mut sim = prepare("src/*.rs", &[], None);
    let subtree = dir("", vec![file("glob.rs"), file("lib.rs")]);
    visit(&mut sim, &subtree, String::new(), 0);
    assert_eq!(sorted(sim.emitted), vec!["glob.rs", "lib.rs"]);
    // An unpartitioned pattern prunes a directory that fails its
    // positional component matcher.
    let glob = Glob::new("src/*.rs").unwrap();
    let pattern = compile_tokens(glob.tokens()).unwrap();
    let mut matchers = Vec::new();
    for component in components(glob.tokens()) {
        matchers.push(compile_tokens(component.tokens()).unwrap());
    }
    let decision = decide_entry(
        &pattern,
        &matchers,
        &None,
        0,
        usize::MAX,
        &String::from("doc"),
        1,
    );
    assert!(matches!(decision, WalkDecision::Prune));
}

#[test]
fn negation_splits_terminal_and_nonterminal() {
    let patterns = vec![String::from("tests/**"), String::from("**/*.md")];
    let negation = Negation::try_from_patterns(&patterns).unwrap();
    assert_eq!(negation.terminal.len(), 1);
    assert_eq!(negation.nonterminal.len(), 1);
    let bad = vec![String::from("***")];
    assert!(Negation::try_from_patterns(&bad).is_err());
}

#[test]
fn engine_refuses_oversized_repetition_bounds() {
    // The pattern parses, but the pattern engine refuses a program this
    // large, so the build fails.
    assert!(matches!(
        Glob::new("<<a:100000>:100000>"),
        Err(wax::glob::GlobError::Build)
    ));
}

#[test]
fn glob_captures_record_token_ranges() {
    let glob = Glob::new("{a,b}*").unwrap();
    let caps = glob.captures(&String::from("ab")).unwrap();
    assert_eq!(caps[0], Some((0, 2)));
    assert_eq!(caps[1], Some((0, 1)));
    assert_eq!(caps[2], Some((1, 2)));
    assert!(glob.captures(&String::from("c")).is_none());

    let glob = Glob::new("**/x").unwrap();
    let caps = glob.captures(&String::from("a/b/x")).unwrap();
    assert_eq!(caps[1], Some((0, 4)));
    let caps = glob.captures(&String::from("x")).unwrap();
    assert_eq!(caps[1], Some((0, 0)));
}

#[test]
fn walk_surfaces_a_fault_for_a_missing_root() {
    let glob = Glob::new("**").unwrap();
    let directory = String::from("no-such-directory-here");
    let mut walk = wax::walk::walk(&glob, &directory, WalkBehavior::default()).unwrap();
    match walk.advance() {
        wax::walk::WalkStep::Fault(error) => {
            assert_eq!(error.depth(), 0);
            assert!(error.path().is_some());
        }
        _ => panic!("expected a fault for a missing root"),
    }
    assert!(matches!(walk.advance(), wax::walk::WalkStep::Done));

    let mut walk = wax::walk::walk_path(&directory, WalkBehavior::default()).unwrap();
    assert!(matches!(walk.advance(), wax::walk::WalkStep::Fault(_)));
    assert!(matches!(walk.advance(), wax::walk::WalkStep::Done));
}
