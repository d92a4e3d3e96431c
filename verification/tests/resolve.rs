use lockfile_update::closure::{fill_with_deps, filled};
use lockfile_update::package::{PackageId, Version};
use lockfile_update::resolve::Resolve;
use lockfile_update::source::{SourceId, SourceKind};

fn registry() -> SourceId {
    SourceId::new(SourceKind::Registry, String::from("https://registry.example/index"))
}

fn id(name: &str, patch: u64) -> PackageId {
    PackageId::new(String::from(name), Version::new(0, 0, patch), registry())
}

/// Five nodes: a -> b -> c -> a (a cycle), c -> d, and e on its own.
fn cyclic() -> Resolve {
    Resolve::new(
        vec![id("a", 1), id("b", 1), id("c", 1), id("d", 1), id("e", 1)],
        vec![vec![1], vec![2], vec![0, 3], vec![], vec![]],
    )
    .unwrap()
}

#[test]
fn new_accepts_a_graph() {
    let g = cyclic();
    assert_eq!(g.len(), 5);
    assert_eq!(g.node(3).name(), "d");
    assert_eq!(g.nodes().len(), 5);
    assert_eq!(*g.deps(2), vec![0, 3]);
    assert!(g.deps(4).is_empty());
}

#[test]
fn new_accepts_the_empty_graph() {
    let g = Resolve::new(vec![], vec![]).unwrap();
    assert_eq!(g.len(), 0);
}

#[test]
fn new_refuses_rows_of_another_length() {
    assert!(Resolve::new(vec![id("a", 1)], vec![]).is_none());
    assert!(Resolve::new(vec![], vec![vec![]]).is_none());
}

#[test]
fn new_refuses_a_dependency_outside_the_graph() {
    assert!(Resolve::new(vec![id("a", 1), id("b", 1)], vec![vec![2], vec![]]).is_none());
    assert!(Resolve::new(vec![id("a", 1), id("b", 1)], vec![vec![1], vec![0]]).is_some());
}

#[test]
fn new_refuses_a_package_that_occurs_twice() {
    assert!(Resolve::new(vec![id("a", 1), id("b", 1), id("a", 1)], vec![vec![], vec![], vec![]])
        .is_none());
    let pinned = PackageId::new(
        String::from("a"),
        Version::new(0, 0, 1),
        registry().with_precise(Some(String::from("a=0.0.1"))),
    );
    assert!(Resolve::new(vec![id("a", 1), pinned], vec![vec![], vec![]]).is_none());
}

#[test]
fn new_accepts_two_versions_of_one_name() {
    assert!(Resolve::new(vec![id("a", 1), id("a", 2)], vec![vec![], vec![]]).is_some());
}

#[test]
fn query_finds_the_one_node_with_the_name() {
    let g = cyclic();
    assert_eq!(g.query("a"), Some(0));
    assert_eq!(g.query("e"), Some(4));
}

#[test]
fn query_fails_for_an_unknown_name() {
    let g = cyclic();
    assert_eq!(g.query("zzz"), None);
    assert_eq!(g.query(""), None);
    assert_eq!(Resolve::new(vec![], vec![]).unwrap().query("a"), None);
}

#[test]
fn query_fails_for_an_ambiguous_name() {
    let g = Resolve::new(vec![id("a", 1), id("b", 1), id("a", 2)], vec![vec![], vec![], vec![]])
        .unwrap();
    assert_eq!(g.query("a"), None);
    assert_eq!(g.query("b"), Some(1));
}

#[test]
fn closure_follows_edges_through_a_cycle() {
    let g = cyclic();
    let mut set = vec![false; 5];
    fill_with_deps(&g, 1, &mut set);
    assert_eq!(set, vec![true, true, true, true, false]);
}

#[test]
fn closure_of_a_leaf_is_the_leaf() {
    let g = cyclic();
    let mut set = vec![false; 5];
    fill_with_deps(&g, 3, &mut set);
    assert_eq!(set, vec![false, false, false, true, false]);
}

#[test]
fn closure_keeps_what_was_marked() {
    let g = cyclic();
    let mut set = vec![false, false, false, false, true];
    fill_with_deps(&g, 3, &mut set);
    assert_eq!(set, vec![false, false, false, true, true]);
    fill_with_deps(&g, 0, &mut set);
    assert_eq!(set, vec![true, true, true, true, true]);
}

#[test]
fn closure_does_not_follow_edges_backwards() {
    // a -> b, c -> b: from a, the sibling c of a is not reached.
    let g = Resolve::new(
        vec![id("a", 1), id("b", 1), id("c", 1)],
        vec![vec![1], vec![], vec![1]],
    )
    .unwrap();
    let mut set = vec![false; 3];
    fill_with_deps(&g, 0, &mut set);
    assert_eq!(set, vec![true, true, false]);
}

#[test]
fn closure_handles_a_self_loop_and_repeated_edges() {
    let g = Resolve::new(vec![id("a", 1), id("b", 1)], vec![vec![0, 1, 1, 0], vec![1]]).unwrap();
    let mut set = vec![false; 2];
    fill_with_deps(&g, 0, &mut set);
    assert_eq!(set, vec![true, true]);
}

#[test]
fn closure_walks_a_long_chain() {
    let n = 2000usize;
    let mut nodes = Vec::new();
    let mut rows = Vec::new();
    for i in 0..n {
        nodes.push(id(&format!("p{}", i), 1));
        rows.push(if i + 1 < n { vec![i + 1] } else { vec![] });
    }
    let g = Resolve::new(nodes, rows).unwrap();
    let mut set = vec![false; n];
    fill_with_deps(&g, 1, &mut set);
    assert!(!set[0]);
    assert!(set[1..].iter().all(|m| *m));
}

#[test]
fn filled_repeats_the_value() {
    assert_eq!(filled(0, true), Vec::<bool>::new());
    assert_eq!(filled(3, true), vec![true, true, true]);
    assert_eq!(filled(2, false), vec![false, false]);
}

#[test]
fn index_of_finds_a_package_whatever_its_pin() {
    let g = cyclic();
    assert_eq!(g.index_of(&id("c", 1)), Some(2));
    let pinned = PackageId::new(
        String::from("c"),
        Version::new(0, 0, 1),
        registry().with_precise(Some(String::from("c=0.0.1"))),
    );
    assert_eq!(g.index_of(&pinned), Some(2));
    assert_eq!(g.index_of(&id("c", 2)), None);
    assert_eq!(g.index_of(&id("zzz", 1)), None);
}
