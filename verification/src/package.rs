//! Package identities and the two ways of comparing them.
//!
//! A requirement is satisfied by a package whatever exact revision was
//! pinned, so [`same_package`] and [`package_order`] leave the pin aside.
//! Sorting for a report must not depend on the order in which nodes
//! happen to be stored, so [`full_order`] breaks the remaining ties by the pin.

use crate::source::{
    compare_precise, lemma_precise_order_equal, lemma_precise_order_flip,
    lemma_precise_order_transitive, lemma_source_order_equal, lemma_source_order_flip,
    lemma_source_order_transitive, precise_order, same_source, source_order, SourceId,
    SourceIdView,
};
use crate::text::{
    compare_text, int_order, lemma_text_order_equal, lemma_text_order_flip,
    lemma_text_order_transitive, text_order, Order,
};
use vstd::prelude::*;
use vstd::relations::total_ordering;

verus! {

/// A version number: major, minor, patch.
#[derive(Clone, Copy, Debug, PartialEq, Eq, Structural)]
pub struct Version {
    pub major: u64,
    pub minor: u64,
    pub patch: u64,
}

/// Order of two versions: by major, then minor, then patch.
pub open spec fn version_order(a: Version, b: Version) -> Order {
    int_order(a.major as int, b.major as int).followed_by(
        int_order(a.minor as int, b.minor as int),
    ).followed_by(int_order(a.patch as int, b.patch as int))
}

impl Version {
    /// The version `major.minor.patch`.
    pub fn new(major: u64, minor: u64, patch: u64) -> (r: Version)
        ensures
            r == (Version { major, minor, patch }),
    {
        Version { major, minor, patch }
    }

    /// Compares two versions.
    pub fn compare(&self, other: &Version) -> (r: Order)
        ensures
            r == version_order(*self, *other),
    {
        if self.major < other.major {
            Order::Less
        } else if self.major > other.major {
            Order::Greater
        } else if self.minor < other.minor {
            Order::Less
        } else if self.minor > other.minor {
            Order::Greater
        } else if self.patch < other.patch {
            Order::Less
        } else if self.patch > other.patch {
            Order::Greater
        } else {
            Order::Equal
        }
    }
}

/// A package identity: name, version and source.
///
/// `==` is [`same_package`]: two identities that differ only in the pin
/// of their source are equal.
#[derive(Debug)]
pub struct PackageId {
    pub name: String,
    pub version: Version,
    pub source: SourceId,
}

/// Mathematical value of a [`PackageId`].
pub struct PackageIdView {
    pub name: Seq<char>,
    pub version: Version,
    pub source: SourceIdView,
}

impl View for PackageId {
    type V = PackageIdView;

    open spec fn view(&self) -> PackageIdView {
        PackageIdView { name: self.name@, version: self.version, source: self.source@ }
    }
}

impl DeepView for PackageId {
    type V = PackageIdView;

    open spec fn deep_view(&self) -> PackageIdView {
        self@
    }
}

/// Order of two identities by name, version and source, the pin left aside.
pub open spec fn package_order(a: PackageIdView, b: PackageIdView) -> Order {
    text_order(a.name, b.name).followed_by(version_order(a.version, b.version)).followed_by(
        source_order(a.source, b.source),
    )
}

/// Order of two identities with the pin as the last tie-breaker.
pub open spec fn full_order(a: PackageIdView, b: PackageIdView) -> Order {
    package_order(a, b).followed_by(precise_order(a.source.precise, b.source.precise))
}

/// Two identities name the same package when name, version and source
/// agree; the pins may differ.
pub open spec fn same_package(a: PackageIdView, b: PackageIdView) -> bool {
    a.name == b.name && a.version == b.version && same_source(a.source, b.source)
}

/// `a` comes no later than `b` in the full order.
pub open spec fn full_leq(a: PackageIdView, b: PackageIdView) -> bool {
    full_order(a, b) != Order::Greater
}

/// Two identities compare `Equal`, the pin left aside, exactly when they
/// name the same package.
pub proof fn lemma_package_order_equal(a: PackageIdView, b: PackageIdView)
    ensures
        package_order(a, b) == Order::Equal <==> same_package(a, b),
{
    lemma_text_order_equal(a.name, b.name);
    lemma_source_order_equal(a.source, b.source);
}

/// Swapping the identities swaps `Less` and `Greater`.
pub proof fn lemma_package_order_flip(a: PackageIdView, b: PackageIdView)
    ensures
        package_order(a, b) == Order::Less <==> package_order(b, a) == Order::Greater,
        package_order(a, b) == Order::Equal <==> package_order(b, a) == Order::Equal,
{
    lemma_text_order_flip(a.name, b.name);
    lemma_source_order_flip(a.source, b.source);
}

/// "Not after" is transitive, and the ends are `Equal` only if all three are.
pub proof fn lemma_package_order_transitive(a: PackageIdView, b: PackageIdView, c: PackageIdView)
    requires
        package_order(a, b) != Order::Greater,
        package_order(b, c) != Order::Greater,
    ensures
        package_order(a, c) != Order::Greater,
        package_order(a, c) == Order::Equal ==> package_order(a, b) == Order::Equal
            && package_order(b, c) == Order::Equal,
{
    lemma_text_order_equal(a.name, b.name);
    lemma_text_order_equal(b.name, c.name);
    lemma_text_order_equal(a.name, c.name);
    lemma_text_order_flip(a.name, c.name);
    if text_order(a.name, b.name) == Order::Less && text_order(b.name, c.name) == Order::Less {
        lemma_text_order_transitive(a.name, b.name, c.name);
    }
    if a.name == b.name && b.name == c.name && a.version == b.version && b.version == c.version {
        lemma_source_order_transitive(a.source, b.source, c.source);
    }
}

/// Two identities compare `Equal` in the full order exactly when they are
/// the same value.
pub proof fn lemma_full_order_equal(a: PackageIdView, b: PackageIdView)
    ensures
        full_order(a, b) == Order::Equal <==> a == b,
{
    lemma_package_order_equal(a, b);
    lemma_precise_order_equal(a.source.precise, b.source.precise);
}

/// Swapping the identities swaps `Less` and `Greater` in the full order.
pub proof fn lemma_full_order_flip(a: PackageIdView, b: PackageIdView)
    ensures
        full_order(a, b) == Order::Less <==> full_order(b, a) == Order::Greater,
        full_order(a, b) == Order::Equal <==> full_order(b, a) == Order::Equal,
{
    lemma_package_order_flip(a, b);
    lemma_precise_order_flip(a.source.precise, b.source.precise);
}

/// "Not after" in the full order is transitive.
pub proof fn lemma_full_order_transitive(a: PackageIdView, b: PackageIdView, c: PackageIdView)
    requires
        full_leq(a, b),
        full_leq(b, c),
    ensures
        full_leq(a, c),
{
    lemma_package_order_transitive(a, b, c);
    if package_order(a, b) == Order::Equal && package_order(b, c) == Order::Equal {
        lemma_precise_order_transitive(a.source.precise, b.source.precise, c.source.precise);
    }
}

/// [`full_leq`] as a relation.
pub open spec fn full_leq_relation() -> spec_fn(PackageIdView, PackageIdView) -> bool {
    |a: PackageIdView, b: PackageIdView| full_leq(a, b)
}

/// The full order is a total order on identities.
pub proof fn lemma_full_order_total()
    ensures
        total_ordering(full_leq_relation()),
{
    let leq = full_leq_relation();
    assert forall|a: PackageIdView| #[trigger] leq(a, a) by {
        lemma_full_order_equal(a, a);
    }
    assert forall|a: PackageIdView, b: PackageIdView| #[trigger]
        leq(a, b) && #[trigger] leq(b, a) implies a == b by {
        lemma_full_order_flip(a, b);
        lemma_full_order_equal(a, b);
    }
    assert forall|a: PackageIdView, b: PackageIdView| #[trigger] leq(a, b) || #[trigger] leq(
        b,
        a,
    ) by {
        lemma_full_order_flip(a, b);
    }
    assert forall|a: PackageIdView, b: PackageIdView, c: PackageIdView| #[trigger]
        leq(a, b) && #[trigger] leq(b, c) implies leq(a, c) by {
        lemma_full_order_transitive(a, b, c);
    }
}

impl PartialEq for PackageId {
    fn eq(&self, other: &PackageId) -> (r: bool) {
        proof {
            lemma_package_order_equal(self@, other@);
        }
        match self.compare(other) {
            Order::Equal => true,
            _ => false,
        }
    }
}

impl Eq for PackageId {

}

impl vstd::std_specs::cmp::PartialEqSpecImpl for PackageId {
    open spec fn obeys_eq_spec() -> bool {
        true
    }

    open spec fn eq_spec(&self, other: &PackageId) -> bool {
        same_package(self@, other@)
    }
}

impl Clone for PackageId {
    fn clone(&self) -> (r: Self)
        ensures
            r == *self,
    {
        PackageId {
            name: self.name.clone(),
            version: self.version,
            source: self.source.clone(),
        }
    }
}

impl PackageId {
    /// The identity of version `version` of the package `name` from `source`.
    pub fn new(name: String, version: Version, source: SourceId) -> (r: PackageId)
        ensures
            r@ == (PackageIdView { name: name@, version, source: source@ }),
    {
        PackageId { name, version, source }
    }

    /// The name of the package.
    pub fn name(&self) -> (r: &str)
        ensures
            r@ == self@.name,
    {
        self.name.as_str()
    }

    /// The version of the package.
    pub fn version(&self) -> (r: &Version)
        ensures
            *r == self@.version,
    {
        &self.version
    }

    /// Where the package comes from.
    pub fn source_id(&self) -> (r: &SourceId)
        ensures
            r@ == self@.source,
    {
        &self.source
    }

    /// Compares two identities, the pin left aside.
    pub fn compare(&self, other: &PackageId) -> (r: Order)
        ensures
            r == package_order(self@, other@),
    {
        match compare_text(self.name.as_str(), other.name.as_str()) {
            Order::Equal => match self.version.compare(&other.version) {
                Order::Equal => self.source.compare(&other.source),
                decided => decided,
            },
            decided => decided,
        }
    }

    /// Compares two identities, the pin included.
    pub fn compare_exact(&self, other: &PackageId) -> (r: Order)
        ensures
            r == full_order(self@, other@),
    {
        match self.compare(other) {
            Order::Equal => compare_precise(&self.source.precise, &other.source.precise),
            decided => decided,
        }
    }

    /// Whether two identities name the same package, whatever their pins.
    pub fn same_package(&self, other: &PackageId) -> (r: bool)
        ensures
            r == same_package(self@, other@),
    {
        proof {
            lemma_package_order_equal(self@, other@);
        }
        match self.compare(other) {
            Order::Equal => true,
            _ => false,
        }
    }

    /// Whether two identities carry the same pin.
    pub fn same_precise(&self, other: &PackageId) -> (r: bool)
        ensures
            r == (self@.source.precise == other@.source.precise),
    {
        proof {
            lemma_precise_order_equal(self@.source.precise, other@.source.precise);
        }
        match compare_precise(&self.source.precise, &other.source.precise) {
            Order::Equal => true,
            _ => false,
        }
    }
}

} // verus!
