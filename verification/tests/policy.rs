use lockfile_update::package::{PackageId, Version};
use lockfile_update::policy::{plan_update, source_override, UpdateError, UpdateOptions};
use lockfile_update::resolve::Resolve;
use lockfile_update::source::{SourceId, SourceKind};

fn registry() -> SourceId {
    SourceId::new(SourceKind::Registry, String::from("https://registry.example/index"))
        .with_precise(Some(String::from("locked")))
}

fn git() -> SourceId {
    SourceId::new(SourceKind::Git, String::from("https://git.example/baz"))
        .with_precise(Some(String::from("0123456789abcdef")))
}

fn path() -> SourceId {
    SourceId::new(SourceKind::Path, String::from("/work/foo"))
}

fn id(name: &str, patch: u64, source: SourceId) -> PackageId {
    PackageId::new(String::from(name), Version::new(0, 0, patch), source)
}

/// foo -> bar -> log, foo -> baz -> log, and two versions of `dup`.
fn graph() -> Resolve {
    Resolve::new(
        vec![
            id("foo", 1, path()),
            id("bar", 1, registry()),
            id("baz", 1, git()),
            id("log", 1, registry()),
            id("dup", 1, registry()),
            id("dup", 2, registry()),
        ],
        vec![vec![1, 2], vec![3], vec![3, 4], vec![], vec![], vec![]],
    )
    .unwrap()
}

fn names(list: &[&str]) -> Vec<String> {
    list.iter().map(|s| String::from(*s)).collect()
}

#[test]
fn conflicting_request_is_rejected() {
    let to_update = names(&["bar"]);
    let opts = UpdateOptions { to_update: &to_update, precise: Some("1.2.3"), aggressive: true };
    assert_eq!(plan_update(&graph(), &opts).unwrap_err(), UpdateError::ConfigurationConflict);
}

#[test]
fn conflicting_request_is_rejected_before_names_are_looked_up() {
    let to_update = names(&["no-such-package"]);
    let opts = UpdateOptions { to_update: &to_update, precise: Some("x"), aggressive: true };
    assert_eq!(plan_update(&graph(), &opts).unwrap_err(), UpdateError::ConfigurationConflict);
    let none: Vec<String> = Vec::new();
    let opts = UpdateOptions { to_update: &none, precise: Some(""), aggressive: true };
    assert_eq!(plan_update(&graph(), &opts).unwrap_err(), UpdateError::ConfigurationConflict);
    let empty = Resolve::new(vec![], vec![]).unwrap();
    assert_eq!(plan_update(&empty, &opts).unwrap_err(), UpdateError::ConfigurationConflict);
}

#[test]
fn update_without_names_avoids_every_node() {
    let none: Vec<String> = Vec::new();
    let opts = UpdateOptions { to_update: &none, precise: None, aggressive: false };
    let plan = plan_update(&graph(), &opts).unwrap();
    assert_eq!(plan.to_avoid, vec![true; 6]);
    assert!(plan.sources.is_empty());
    let opts = UpdateOptions { to_update: &none, precise: None, aggressive: true };
    let plan = plan_update(&graph(), &opts).unwrap();
    assert_eq!(plan.to_avoid, vec![true; 6]);
    assert!(plan.sources.is_empty());
}

#[test]
fn update_of_one_name_avoids_that_node_only() {
    let to_update = names(&["bar"]);
    let opts = UpdateOptions { to_update: &to_update, precise: None, aggressive: false };
    let plan = plan_update(&graph(), &opts).unwrap();
    assert_eq!(plan.to_avoid, vec![false, true, false, false, false, false]);
    assert_eq!(plan.sources.len(), 1);
    assert_eq!(plan.sources[0].kind, SourceKind::Registry);
    assert_eq!(plan.sources[0].location, "https://registry.example/index");
    assert_eq!(plan.sources[0].precise, None);
}

#[test]
fn update_of_several_names_keeps_their_order() {
    let to_update = names(&["baz", "bar", "baz"]);
    let opts = UpdateOptions { to_update: &to_update, precise: None, aggressive: false };
    let plan = plan_update(&graph(), &opts).unwrap();
    assert_eq!(plan.to_avoid, vec![false, true, true, false, false, false]);
    let kinds: Vec<SourceKind> = plan.sources.iter().map(|s| s.kind).collect();
    assert_eq!(kinds, vec![SourceKind::Git, SourceKind::Registry, SourceKind::Git]);
    assert!(plan.sources.iter().all(|s| s.precise.is_none()));
}

#[test]
fn aggressive_update_avoids_the_closure() {
    let to_update = names(&["baz"]);
    let opts = UpdateOptions { to_update: &to_update, precise: None, aggressive: true };
    let plan = plan_update(&graph(), &opts).unwrap();
    assert_eq!(plan.to_avoid, vec![false, false, true, true, true, false]);
    assert!(plan.sources.is_empty());
}

#[test]
fn aggressive_update_of_two_names_avoids_both_closures() {
    let to_update = names(&["bar", "baz"]);
    let opts = UpdateOptions { to_update: &to_update, precise: None, aggressive: true };
    let plan = plan_update(&graph(), &opts).unwrap();
    assert_eq!(plan.to_avoid, vec![false, true, true, true, true, false]);
    let to_update = names(&["foo"]);
    let opts = UpdateOptions { to_update: &to_update, precise: None, aggressive: true };
    let plan = plan_update(&graph(), &opts).unwrap();
    assert_eq!(plan.to_avoid, vec![true, true, true, true, true, false]);
}

#[test]
fn unknown_name_is_rejected_with_the_name() {
    let to_update = names(&["bar", "nope", "also-nope"]);
    let opts = UpdateOptions { to_update: &to_update, precise: None, aggressive: false };
    assert_eq!(
        plan_update(&graph(), &opts).unwrap_err(),
        UpdateError::AmbiguousOrUnknownPackageName(String::from("nope"))
    );
}

#[test]
fn ambiguous_name_is_rejected_with_the_name() {
    let to_update = names(&["dup"]);
    let opts = UpdateOptions { to_update: &to_update, precise: None, aggressive: true };
    assert_eq!(
        plan_update(&graph(), &opts).unwrap_err(),
        UpdateError::AmbiguousOrUnknownPackageName(String::from("dup"))
    );
}

#[test]
fn precise_pin_for_a_registry_carries_the_name() {
    let to_update = names(&["bar"]);
    let opts = UpdateOptions { to_update: &to_update, precise: Some("0.0.7"), aggressive: false };
    let plan = plan_update(&graph(), &opts).unwrap();
    assert_eq!(plan.to_avoid, vec![false, true, false, false, false, false]);
    assert_eq!(plan.sources.len(), 1);
    assert_eq!(plan.sources[0].precise(), Some("bar=0.0.7"));
    assert_eq!(plan.sources[0].kind, SourceKind::Registry);
}

#[test]
fn precise_pin_for_git_is_the_revision() {
    let to_update = names(&["baz"]);
    let opts = UpdateOptions { to_update: &to_update, precise: Some("deadbeef"), aggressive: false };
    let plan = plan_update(&graph(), &opts).unwrap();
    assert_eq!(plan.sources.len(), 1);
    assert_eq!(plan.sources[0].precise(), Some("deadbeef"));
    assert_eq!(plan.sources[0].location, "https://git.example/baz");
}

#[test]
fn source_override_forgets_or_forces_the_pin() {
    let bar = id("bar", 1, registry());
    let baz = id("baz", 1, git());
    let foo = id("foo", 1, path());
    assert_eq!(source_override(&bar, None).precise(), None);
    assert_eq!(source_override(&baz, None).precise(), None);
    assert_eq!(source_override(&bar, Some("1.0.0")).precise(), Some("bar=1.0.0"));
    assert_eq!(source_override(&bar, Some("")).precise(), Some("bar="));
    assert_eq!(source_override(&baz, Some("1.0.0")).precise(), Some("1.0.0"));
    assert_eq!(source_override(&foo, Some("rev")).precise(), Some("rev"));
    assert_eq!(source_override(&foo, Some("rev")).kind, SourceKind::Path);
    assert_eq!(source_override(&foo, Some("rev")).location, "/work/foo");
}

#[test]
fn avoided_nodes_are_the_marked_nodes_in_order() {
    let g = graph();
    let to_update = names(&["baz"]);
    let opts = UpdateOptions { to_update: &to_update, precise: None, aggressive: true };
    let plan = plan_update(&g, &opts).unwrap();
    let avoided: Vec<&str> = plan.avoided_nodes(&g).iter().map(|p| p.name()).collect();
    assert_eq!(avoided, vec!["baz", "log", "dup"]);
    assert_eq!(plan.avoided_nodes(&g)[2].version().patch, 1);
    let none: Vec<String> = Vec::new();
    let opts = UpdateOptions { to_update: &none, precise: None, aggressive: false };
    let plan = plan_update(&g, &opts).unwrap();
    assert_eq!(plan.avoided_nodes(&g).len(), 6);
    let empty = Resolve::new(vec![], vec![]).unwrap();
    assert!(plan.avoided_nodes(&empty).is_empty());
}
