//! Where a package comes from.

use crate::text::{compare_text, int_order, lemma_text_order_equal, lemma_text_order_flip, lemma_text_order_transitive, text_order, Order};
use vstd::prelude::*;

verus! {

/// The kind of place a package is obtained from.
#[derive(Clone, Copy, Debug, PartialEq, Eq, Structural)]
pub enum SourceKind {
    Git,
    Path,
    Registry,
}

impl SourceKind {
    /// Position of the kind in the order of kinds.
    pub open spec fn rank(self) -> int {
        match self {
            SourceKind::Git => 0,
            SourceKind::Path => 1,
            SourceKind::Registry => 2,
        }
    }

    /// Position of the kind in the order of kinds.
    pub fn rank_value(self) -> (r: u8)
        ensures
            r == self.rank(),
    {
        match self {
            SourceKind::Git => 0,
            SourceKind::Path => 1,
            SourceKind::Registry => 2,
        }
    }
}

/// A source: its kind, its location, and optionally the exact revision
/// (a commit, a checksum) that a resolution pinned.
///
/// `==` compares kind and location: two sources that differ only in
/// their pin are equal.
#[derive(Debug)]
pub struct SourceId {
    pub kind: SourceKind,
    pub location: String,
    pub precise: Option<String>,
}

/// Mathematical value of a [`SourceId`].
pub struct SourceIdView {
    pub kind: SourceKind,
    pub location: Seq<char>,
    pub precise: Option<Seq<char>>,
}

impl SourceIdView {
    /// The same source with another pin.
    pub open spec fn with_precise(self, precise: Option<Seq<char>>) -> SourceIdView {
        SourceIdView { kind: self.kind, location: self.location, precise }
    }
}

/// Mathematical value of an optional string.
pub open spec fn option_text(s: Option<String>) -> Option<Seq<char>> {
    match s {
        Some(t) => Some(t@),
        None => None,
    }
}

impl View for SourceId {
    type V = SourceIdView;

    open spec fn view(&self) -> SourceIdView {
        SourceIdView {
            kind: self.kind,
            location: self.location@,
            precise: option_text(self.precise),
        }
    }
}

impl DeepView for SourceId {
    type V = SourceIdView;

    open spec fn deep_view(&self) -> SourceIdView {
        self@
    }
}

/// Order of two sources by kind, then location. The pin takes no part.
pub open spec fn source_order(a: SourceIdView, b: SourceIdView) -> Order {
    int_order(a.kind.rank(), b.kind.rank()).followed_by(text_order(a.location, b.location))
}

/// Order of two pins: no pin comes before any pin, two pins compare as text.
pub open spec fn precise_order(a: Option<Seq<char>>, b: Option<Seq<char>>) -> Order {
    match (a, b) {
        (None, None) => Order::Equal,
        (None, Some(_)) => Order::Less,
        (Some(_), None) => Order::Greater,
        (Some(x), Some(y)) => text_order(x, y),
    }
}

/// Two sources are the same place when kind and location agree.
pub open spec fn same_source(a: SourceIdView, b: SourceIdView) -> bool {
    a.kind == b.kind && a.location == b.location
}

/// Two sources compare `Equal` exactly when they are the same place.
pub proof fn lemma_source_order_equal(a: SourceIdView, b: SourceIdView)
    ensures
        source_order(a, b) == Order::Equal <==> same_source(a, b),
{
    lemma_text_order_equal(a.location, b.location);
}

/// Swapping the sources swaps `Less` and `Greater`.
pub proof fn lemma_source_order_flip(a: SourceIdView, b: SourceIdView)
    ensures
        source_order(a, b) == Order::Less <==> source_order(b, a) == Order::Greater,
        source_order(a, b) == Order::Equal <==> source_order(b, a) == Order::Equal,
{
    lemma_text_order_flip(a.location, b.location);
}

/// "Not after" is transitive, and the ends are `Equal` only if all three are.
pub proof fn lemma_source_order_transitive(a: SourceIdView, b: SourceIdView, c: SourceIdView)
    requires
        source_order(a, b) != Order::Greater,
        source_order(b, c) != Order::Greater,
    ensures
        source_order(a, c) != Order::Greater,
        source_order(a, c) == Order::Equal ==> source_order(a, b) == Order::Equal && source_order(
            b,
            c,
        ) == Order::Equal,
{
    lemma_text_order_equal(a.location, b.location);
    lemma_text_order_equal(b.location, c.location);
    lemma_text_order_equal(a.location, c.location);
    lemma_text_order_flip(a.location, c.location);
    if text_order(a.location, b.location) == Order::Less && text_order(b.location, c.location)
        == Order::Less {
        lemma_text_order_transitive(a.location, b.location, c.location);
    }
}

/// Two pins compare `Equal` exactly when they are the same.
pub proof fn lemma_precise_order_equal(a: Option<Seq<char>>, b: Option<Seq<char>>)
    ensures
        precise_order(a, b) == Order::Equal <==> a == b,
{
    if a is Some && b is Some {
        lemma_text_order_equal(a->0, b->0);
    }
}

/// Swapping the pins swaps `Less` and `Greater`.
pub proof fn lemma_precise_order_flip(a: Option<Seq<char>>, b: Option<Seq<char>>)
    ensures
        precise_order(a, b) == Order::Less <==> precise_order(b, a) == Order::Greater,
        precise_order(a, b) == Order::Equal <==> precise_order(b, a) == Order::Equal,
{
    if a is Some && b is Some {
        lemma_text_order_flip(a->0, b->0);
    }
}

/// "Not after" is transitive, and the ends are `Equal` only if all three are.
pub proof fn lemma_precise_order_transitive(
    a: Option<Seq<char>>,
    b: Option<Seq<char>>,
    c: Option<Seq<char>>,
)
    requires
        precise_order(a, b) != Order::Greater,
        precise_order(b, c) != Order::Greater,
    ensures
        precise_order(a, c) != Order::Greater,
        precise_order(a, c) == Order::Equal ==> precise_order(a, b) == Order::Equal
            && precise_order(b, c) == Order::Equal,
{
    if a is Some && b is Some && c is Some {
        lemma_text_order_equal(a->0, b->0);
        lemma_text_order_equal(b->0, c->0);
        lemma_text_order_equal(a->0, c->0);
        lemma_text_order_flip(a->0, c->0);
        if text_order(a->0, b->0) == Order::Less && text_order(b->0, c->0) == Order::Less {
            lemma_text_order_transitive(a->0, b->0, c->0);
        }
    }
}

/// Compares two optional pins.
pub fn compare_precise(a: &Option<String>, b: &Option<String>) -> (r: Order)
    ensures
        r == precise_order(option_text(*a), option_text(*b)),
{
    match (a, b) {
        (None, None) => Order::Equal,
        (None, Some(_)) => Order::Less,
        (Some(_), None) => Order::Greater,
        (Some(x), Some(y)) => compare_text(x.as_str(), y.as_str()),
    }
}

impl PartialEq for SourceId {
    fn eq(&self, other: &SourceId) -> (r: bool) {
        proof {
            lemma_source_order_equal(self@, other@);
        }
        match self.compare(other) {
            Order::Equal => true,
            _ => false,
        }
    }
}

impl Eq for SourceId {

}

impl vstd::std_specs::cmp::PartialEqSpecImpl for SourceId {
    open spec fn obeys_eq_spec() -> bool {
        true
    }

    open spec fn eq_spec(&self, other: &SourceId) -> bool {
        same_source(self@, other@)
    }
}

impl Clone for SourceId {
    fn clone(&self) -> (r: Self)
        ensures
            r == *self,
    {
        let precise = match &self.precise {
            Some(p) => Some(p.clone()),
            None => None,
        };
        SourceId { kind: self.kind, location: self.location.clone(), precise }
    }
}

impl SourceId {
    /// A source without a pin.
    pub fn new(kind: SourceKind, location: String) -> (r: SourceId)
        ensures
            r@ == (SourceIdView { kind, location: location@, precise: None }),
    {
        SourceId { kind, location, precise: None }
    }

    /// The same source with its pin replaced: `None` forgets the pin,
    /// `Some` forces one.
    pub fn with_precise(self, precise: Option<String>) -> (r: SourceId)
        ensures
            r@ == self@.with_precise(option_text(precise)),
    {
        SourceId { kind: self.kind, location: self.location, precise }
    }

    /// Whether the source is a registry.
    pub fn is_registry(&self) -> (r: bool)
        ensures
            r == (self@.kind == SourceKind::Registry),
    {
        match self.kind {
            SourceKind::Registry => true,
            _ => false,
        }
    }

    /// Whether the source is a git repository.
    pub fn is_git(&self) -> (r: bool)
        ensures
            r == (self@.kind == SourceKind::Git),
    {
        match self.kind {
            SourceKind::Git => true,
            _ => false,
        }
    }

    /// The pin, if there is one.
    pub fn precise(&self) -> (r: Option<&str>)
        ensures
            r is Some == self@.precise is Some,
            r is Some ==> r->0@ == self@.precise->0,
    {
        match &self.precise {
            Some(p) => Some(p.as_str()),
            None => None,
        }
    }

    /// Compares two sources by kind and location, leaving the pin aside.
    pub fn compare(&self, other: &SourceId) -> (r: Order)
        ensures
            r == source_order(self@, other@),
    {
        let x: u8 = self.kind.rank_value();
        let y: u8 = other.kind.rank_value();
        if x < y {
            Order::Less
        } else if x > y {
            Order::Greater
        } else {
            compare_text(self.location.as_str(), other.location.as_str())
        }
    }
}

} // verus!
