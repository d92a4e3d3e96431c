use lockfile_update::package::{PackageId, Version};
use lockfile_update::source::{compare_precise, SourceId, SourceKind};
use lockfile_update::text::Order;

fn registry() -> SourceId {
    SourceId::new(SourceKind::Registry, String::from("https://registry.example/index"))
}

fn git(precise: Option<&str>) -> SourceId {
    SourceId::new(SourceKind::Git, String::from("https://git.example/baz"))
        .with_precise(precise.map(String::from))
}

fn id(name: &str, version: (u64, u64, u64), source: SourceId) -> PackageId {
    PackageId::new(String::from(name), Version::new(version.0, version.1, version.2), source)
}

#[test]
fn version_order_is_numeric() {
    let a = Version::new(0, 9, 0);
    let b = Version::new(0, 10, 0);
    assert_eq!(a.compare(&b), Order::Less);
    assert_eq!(b.compare(&a), Order::Greater);
    assert_eq!(a.compare(&a), Order::Equal);
    assert_eq!(Version::new(1, 0, 0).compare(&Version::new(0, 99, 99)), Order::Greater);
    assert_eq!(Version::new(1, 2, 3).compare(&Version::new(1, 2, 4)), Order::Less);
}

#[test]
fn source_kinds_are_ordered_git_path_registry() {
    let g = SourceId::new(SourceKind::Git, String::from("z"));
    let p = SourceId::new(SourceKind::Path, String::from("m"));
    let r = SourceId::new(SourceKind::Registry, String::from("a"));
    assert_eq!(g.compare(&p), Order::Less);
    assert_eq!(p.compare(&r), Order::Less);
    assert_eq!(r.compare(&g), Order::Greater);
}

#[test]
fn sources_of_one_kind_are_ordered_by_location() {
    let a = SourceId::new(SourceKind::Git, String::from("https://a.example/x"));
    let b = SourceId::new(SourceKind::Git, String::from("https://b.example/x"));
    assert_eq!(a.compare(&b), Order::Less);
    assert_eq!(b.compare(&a), Order::Greater);
}

#[test]
fn source_order_ignores_the_pin() {
    assert_eq!(git(Some("aaaa")).compare(&git(Some("bbbb"))), Order::Equal);
    assert_eq!(git(None).compare(&git(Some("bbbb"))), Order::Equal);
}

#[test]
fn with_precise_keeps_kind_and_location() {
    let s = git(None).with_precise(Some(String::from("0123abcd")));
    assert_eq!(s.kind, SourceKind::Git);
    assert_eq!(s.location, "https://git.example/baz");
    assert_eq!(s.precise(), Some("0123abcd"));
    let t = s.with_precise(None);
    assert_eq!(t.kind, SourceKind::Git);
    assert_eq!(t.location, "https://git.example/baz");
    assert_eq!(t.precise(), None);
}

#[test]
fn source_kind_tests() {
    assert!(registry().is_registry());
    assert!(!registry().is_git());
    assert!(git(None).is_git());
    assert!(!git(None).is_registry());
    let p = SourceId::new(SourceKind::Path, String::from("/work/bar"));
    assert!(!p.is_git());
    assert!(!p.is_registry());
}

#[test]
fn pins_are_ordered_none_first() {
    let none: Option<String> = None;
    let a = Some(String::from("aaaa"));
    let b = Some(String::from("bbbb"));
    assert_eq!(compare_precise(&none, &none), Order::Equal);
    assert_eq!(compare_precise(&none, &a), Order::Less);
    assert_eq!(compare_precise(&a, &none), Order::Greater);
    assert_eq!(compare_precise(&a, &b), Order::Less);
    assert_eq!(compare_precise(&b, &b), Order::Equal);
}

#[test]
fn same_package_ignores_the_pin() {
    let a = id("baz", (1, 0, 0), git(Some("aaaa")));
    let b = id("baz", (1, 0, 0), git(Some("bbbb")));
    assert!(a.same_package(&b));
    assert_eq!(a.compare(&b), Order::Equal);
    assert!(!a.same_precise(&b));
    assert_eq!(a.compare_exact(&b), Order::Less);
    assert_eq!(b.compare_exact(&a), Order::Greater);
    assert_eq!(a.compare_exact(&a), Order::Equal);
}

#[test]
fn same_package_needs_name_version_and_source() {
    let a = id("bar", (0, 0, 1), registry());
    assert!(!a.same_package(&id("baz", (0, 0, 1), registry())));
    assert!(!a.same_package(&id("bar", (0, 0, 2), registry())));
    assert!(!a.same_package(&id("bar", (0, 0, 1), git(None))));
    assert!(a.same_package(&id("bar", (0, 0, 1), registry())));
}

#[test]
fn package_order_is_name_then_version_then_source() {
    let a = id("bar", (9, 0, 0), registry());
    let b = id("foo", (0, 0, 1), git(None));
    assert_eq!(a.compare(&b), Order::Less);
    let c = id("bar", (0, 0, 1), registry());
    let d = id("bar", (0, 0, 2), git(None));
    assert_eq!(c.compare(&d), Order::Less);
    let e = id("bar", (0, 0, 1), git(None));
    assert_eq!(e.compare(&c), Order::Less);
    assert_eq!(c.compare(&e), Order::Greater);
}

#[test]
fn getters_return_the_parts() {
    let a = id("bar", (1, 2, 3), registry());
    assert_eq!(a.name(), "bar");
    assert_eq!(*a.version(), Version::new(1, 2, 3));
    assert_eq!(*a.source_id(), registry());
    assert_eq!(a.clone(), a);
}

#[test]
fn equality_ignores_the_pin() {
    assert_eq!(git(Some("aaaa")), git(Some("bbbb")));
    assert_eq!(git(None), git(Some("bbbb")));
    assert_ne!(git(None), registry());
    assert_ne!(git(None), SourceId::new(SourceKind::Git, String::from("https://git.example/fork")));
    assert_eq!(id("baz", (1, 0, 0), git(Some("aaaa"))), id("baz", (1, 0, 0), git(Some("bbbb"))));
    assert_ne!(id("baz", (1, 0, 0), git(Some("aaaa"))), id("baz", (1, 0, 1), git(Some("aaaa"))));
    assert_ne!(id("baz", (1, 0, 0), git(None)), id("bar", (1, 0, 0), git(None)));
    assert_ne!(id("baz", (1, 0, 0), git(None)), id("baz", (1, 0, 0), registry()));
}

#[test]
fn clone_keeps_the_pin() {
    let a = id("baz", (1, 0, 0), git(Some("aaaa")));
    let b = a.clone();
    assert_eq!(b.name(), "baz");
    assert_eq!(b.source_id().precise(), Some("aaaa"));
    assert_eq!(b.compare_exact(&a), Order::Equal);
    assert_eq!(git(None).clone().precise(), None);
}
