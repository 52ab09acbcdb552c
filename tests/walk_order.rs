use clean_cargo_projects::walk::{keep_children, Strategy, TreeWalker};
use std::collections::BTreeMap;

fn path(s: &str) -> Vec<Vec<u8>> {
    if s.is_empty() {
        Vec::new()
    } else {
        s.split('/').map(|c| c.as_bytes().to_vec()).collect()
    }
}

fn show(p: &[Vec<u8>]) -> String {
    p.iter().map(|c| String::from_utf8(c.clone()).unwrap()).collect::<Vec<_>>().join("/")
}

/// root: b/, a/ (a/y, a/x/deep, a/target/inner), c10/, c9/
fn fixture() -> BTreeMap<String, Vec<&'static str>> {
    let mut t = BTreeMap::new();
    t.insert("".to_string(), vec!["c9", "b", "a", "c10"]);
    t.insert("a".to_string(), vec!["y", "target", "x"]);
    t.insert("a/x".to_string(), vec!["deep"]);
    t.insert("a/target".to_string(), vec!["inner"]);
    t
}

fn run(strategy: Strategy, tree: &BTreeMap<String, Vec<&'static str>>) -> Vec<String> {
    let mut w = TreeWalker::new(strategy);
    while let Some(dir) = w.next_dir() {
        let key = show(&dir);
        let listing: Vec<Vec<u8>> = tree
            .get(&key)
            .map(|names| names.iter().map(|n| n.as_bytes().to_vec()).collect())
            .unwrap_or_default();
        w.advance(listing);
    }
    w.visited().iter().map(|p| show(p)).collect()
}

#[test]
fn breadth_first_is_level_order_with_sorted_siblings() {
    let order = run(Strategy::BreadthFirst, &fixture());
    assert_eq!(order, vec!["", "a", "b", "c10", "c9", "a/x", "a/y", "a/x/deep"]);
}

#[test]
fn depth_first_is_pre_order_with_sorted_siblings() {
    let order = run(Strategy::DepthFirst, &fixture());
    assert_eq!(order, vec!["", "a", "a/x", "a/x/deep", "a/y", "b", "c10", "c9"]);
}

#[test]
fn both_orders_visit_the_same_directories() {
    let mut bfs = run(Strategy::BreadthFirst, &fixture());
    let mut dfs = run(Strategy::DepthFirst, &fixture());
    bfs.sort();
    dfs.sort();
    assert_eq!(bfs, dfs);
}

#[test]
fn build_output_directory_is_never_entered() {
    for strategy in [Strategy::BreadthFirst, Strategy::DepthFirst] {
        let order = run(strategy, &fixture());
        assert!(order.iter().all(|p| !p.split('/').any(|c| c == "target")));
        assert!(!order.contains(&"a/target/inner".to_string()));
    }
}

#[test]
fn unreadable_directory_is_a_leaf() {
    let mut t = BTreeMap::new();
    t.insert("".to_string(), vec!["locked", "open"]);
    t.insert("open".to_string(), vec!["inside"]);
    assert_eq!(run(Strategy::BreadthFirst, &t), vec!["", "locked", "open", "open/inside"]);
}

#[test]
fn empty_root_yields_only_the_root() {
    let t = BTreeMap::new();
    assert_eq!(run(Strategy::DepthFirst, &t), vec![""]);
}

#[test]
fn kept_children_are_sorted_unique_and_pruned() {
    let names = vec![b"zeta".to_vec(), b"target".to_vec(), b"Alpha".to_vec(), b"zeta".to_vec(), b"alpha".to_vec()];
    let kept = keep_children(names);
    assert_eq!(kept, vec![b"Alpha".to_vec(), b"alpha".to_vec(), b"zeta".to_vec()]);
}

#[test]
fn walk_starts_at_the_root() {
    let w = TreeWalker::new(Strategy::BreadthFirst);
    assert_eq!(w.next_dir(), Some(Vec::new()));
    assert!(w.visited().is_empty());
}
