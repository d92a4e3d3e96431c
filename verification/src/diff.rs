//! Comparing two dependency graphs.
//!
//! Nodes of both graphs are grouped by name and source, the pin left
//! aside. Within a group, a node of one graph that has no counterpart in
//! the other graph was removed (old graph) or added (new graph).

use crate::package::{
    full_leq, full_leq_relation, lemma_full_order_flip, lemma_full_order_total,
    lemma_full_order_transitive, same_package, PackageId, PackageIdView,
};
use crate::resolve::Resolve;
use crate::source::SourceKind;
use crate::text::{
    compare_text, int_order, lemma_text_order_equal, lemma_text_order_flip,
    lemma_text_order_transitive, text_order, Order,
};
use vstd::prelude::*;

verus! {

/// What the nodes of one group have in common: name and source.
#[derive(Clone, Copy, Debug)]
pub struct GroupKey<'a> {
    pub name: &'a str,
    pub kind: SourceKind,
    pub location: &'a str,
}

/// Mathematical value of a [`GroupKey`].
pub struct GroupKeyView {
    pub name: Seq<char>,
    pub kind: SourceKind,
    pub location: Seq<char>,
}

impl<'a> View for GroupKey<'a> {
    type V = GroupKeyView;

    open spec fn view(&self) -> GroupKeyView {
        GroupKeyView { name: self.name@, kind: self.kind, location: self.location@ }
    }
}

impl<'a> DeepView for GroupKey<'a> {
    type V = GroupKeyView;

    open spec fn deep_view(&self) -> GroupKeyView {
        self@
    }
}

/// The group that an identity belongs to.
pub open spec fn key_of(p: PackageIdView) -> GroupKeyView {
    GroupKeyView { name: p.name, kind: p.source.kind, location: p.source.location }
}

/// Order of groups: by name, then kind of source, then location.
pub open spec fn key_order(a: GroupKeyView, b: GroupKeyView) -> Order {
    text_order(a.name, b.name).followed_by(int_order(a.kind.rank(), b.kind.rank())).followed_by(
        text_order(a.location, b.location),
    )
}

/// Two groups compare `Equal` exactly when they are the same group.
pub proof fn lemma_key_order_equal(a: GroupKeyView, b: GroupKeyView)
    ensures
        key_order(a, b) == Order::Equal <==> a == b,
{
    lemma_text_order_equal(a.name, b.name);
    lemma_text_order_equal(a.location, b.location);
}

/// Swapping the groups swaps `Less` and `Greater`.
pub proof fn lemma_key_order_flip(a: GroupKeyView, b: GroupKeyView)
    ensures
        key_order(a, b) == Order::Less <==> key_order(b, a) == Order::Greater,
        key_order(a, b) == Order::Equal <==> key_order(b, a) == Order::Equal,
{
    lemma_text_order_flip(a.name, b.name);
    lemma_text_order_flip(a.location, b.location);
}

/// A group before a group that is not after a third is before the third.
pub proof fn lemma_key_order_transitive(a: GroupKeyView, b: GroupKeyView, c: GroupKeyView)
    requires
        key_order(a, b) == Order::Less,
        key_order(b, c) != Order::Greater,
    ensures
        key_order(a, c) == Order::Less,
{
    lemma_text_order_equal(a.name, b.name);
    lemma_text_order_equal(b.name, c.name);
    lemma_text_order_equal(a.name, c.name);
    lemma_text_order_flip(a.name, c.name);
    if text_order(a.name, b.name) == Order::Less && text_order(b.name, c.name) == Order::Less {
        lemma_text_order_transitive(a.name, b.name, c.name);
    }
    lemma_text_order_equal(a.location, b.location);
    lemma_text_order_equal(b.location, c.location);
    lemma_text_order_equal(a.location, c.location);
    lemma_text_order_flip(a.location, c.location);
    if text_order(a.location, b.location) == Order::Less && text_order(b.location, c.location)
        == Order::Less {
        lemma_text_order_transitive(a.location, b.location, c.location);
    }
}

/// The group of an identity.
pub fn key<'a>(dep: &'a PackageId) -> (r: GroupKey<'a>)
    ensures
        r@ == key_of(dep@),
{
    GroupKey {
        name: dep.name.as_str(),
        kind: dep.source.kind,
        location: dep.source.location.as_str(),
    }
}

impl<'a> GroupKey<'a> {
    /// Compares two groups.
    pub fn compare(&self, other: &GroupKey) -> (r: Order)
        ensures
            r == key_order(self@, other@),
    {
        match compare_text(self.name, other.name) {
            Order::Equal => {
                let x: u8 = self.kind.rank_value();
                let y: u8 = other.kind.rank_value();
                if x < y {
                    Order::Less
                } else if x > y {
                    Order::Greater
                } else {
                    compare_text(self.location, other.location)
                }
            },
            decided => decided,
        }
    }
}

/// `b` stands for `a` on the other side: it names the same package and,
/// unless the source is a registry (where the version says it all),
/// carries the same pin.
pub open spec fn counterpart(a: PackageIdView, b: PackageIdView) -> bool {
    same_package(a, b) && (a.source.kind == SourceKind::Registry || a.source.precise
        == b.source.precise)
}

/// `a` has a counterpart among `side`.
pub open spec fn present_in(a: PackageIdView, side: Seq<PackageIdView>) -> bool {
    exists|j: int| 0 <= j < side.len() && counterpart(a, #[trigger] side[j])
}

/// The test "has no counterpart among `side`".
pub open spec fn absent_from(side: Seq<PackageIdView>) -> spec_fn(PackageIdView) -> bool {
    |a: PackageIdView| !present_in(a, side)
}

/// The test "belongs to group `k`".
pub open spec fn in_group(k: GroupKeyView) -> spec_fn(PackageIdView) -> bool {
    |a: PackageIdView| key_of(a) == k
}

/// The identities of `a` that have no counterpart in `b`, in the order of `a`.
pub open spec fn subtract(a: Seq<PackageIdView>, b: Seq<PackageIdView>) -> Seq<PackageIdView> {
    a.filter(absent_from(b))
}

/// The identities of `nodes` that belong to group `k`, in the order of `nodes`.
pub open spec fn members(nodes: Seq<PackageIdView>, k: GroupKeyView) -> Seq<PackageIdView> {
    nodes.filter(in_group(k))
}

/// `s` is sorted by the full order.
pub open spec fn ascending(s: Seq<PackageIdView>) -> bool {
    forall|i: int, j: int| 0 <= i < j < s.len() ==> full_leq(#[trigger] s[i], #[trigger] s[j])
}

/// Whether `a` has a counterpart among `side`.
pub fn is_present(a: &PackageId, side: &[&PackageId]) -> (r: bool)
    ensures
        r == present_in(a@, side.deep_view()),
{
    let ghost views = side.deep_view();
    let mut j: usize = 0;
    while j < side.len()
        invariant
            0 <= j <= side.len(),
            views == side.deep_view(),
            forall|m: int| 0 <= m < j ==> !counterpart(a@, #[trigger] views[m]),
        decreases side.len() - j,
    {
        let b = side[j];
        assert(views[j as int] == b@);
        if a.same_package(b) && (a.source_id().is_registry() || a.same_precise(b)) {
            return true;
        }
        j += 1;
    }
    false
}

/// Removes from `a` every identity that has a counterpart in `b`.
///
/// Identities that differ only in their pin count as the same package
/// elsewhere; here the pin matters, except for registry sources.
pub fn vec_subtract<'a>(a: &[&'a PackageId], b: &[&'a PackageId]) -> (r: Vec<&'a PackageId>)
    ensures
        r.deep_view() == subtract(a.deep_view(), b.deep_view()),
{
    let ghost av = a.deep_view();
    let ghost keep = absent_from(b.deep_view());
    let mut r: Vec<&'a PackageId> = Vec::new();
    let mut i: usize = 0;
    proof {
        reveal(Seq::filter);
        assert(av.take(0) =~= Seq::empty());
        assert(r.deep_view() =~= av.take(0).filter(keep));
    }
    while i < a.len()
        invariant
            0 <= i <= a.len(),
            av == a.deep_view(),
            keep == absent_from(b.deep_view()),
            r.deep_view() == av.take(i as int).filter(keep),
        decreases a.len() - i,
    {
        let x = a[i];
        let ghost before = r.deep_view();
        proof {
            reveal(Seq::filter);
            assert(av.take(i + 1).drop_last() =~= av.take(i as int));
            assert(av.take(i + 1).last() == x@);
        }
        if !is_present(x, b) {
            r.push(x);
            assert(r.deep_view() =~= before.push(x@));
        }
        i += 1;
    }
    proof {
        assert(av.take(a.len() as int) =~= av);
    }
    r
}

/// Sorts identities by the full order.
pub fn sort_ids<'a>(v: &[&'a PackageId]) -> (r: Vec<&'a PackageId>)
    ensures
        ascending(r.deep_view()),
        r.deep_view().to_multiset() == v.deep_view().to_multiset(),
{
    let ghost input = v.deep_view();
    let mut r: Vec<&'a PackageId> = Vec::new();
    let mut i: usize = 0;
    proof {
        assert(input.take(0) =~= Seq::empty());
        assert(r.deep_view() =~= input.take(0));
    }
    while i < v.len()
        invariant
            0 <= i <= v.len(),
            input == v.deep_view(),
            ascending(r.deep_view()),
            r.deep_view().to_multiset() == input.take(i as int).to_multiset(),
        decreases v.len() - i,
    {
        let x = v[i];
        let ghost before = r.deep_view();
        let mut j: usize = 0;
        let mut limit: usize = r.len();
        while j < limit
            invariant
                0 <= j <= limit <= r.len(),
                before == r.deep_view(),
                forall|m: int| 0 <= m < j ==> full_leq(#[trigger] before[m], x@),
                limit < r.len() ==> !full_leq(before[limit as int], x@),
            decreases limit - j,
        {
            assert(before[j as int] == r[j as int]@);
            match r[j].compare_exact(x) {
                Order::Greater => {
                    limit = j;
                },
                _ => {
                    j += 1;
                },
            }
        }
        r.insert(j, x);
        proof {
            let after = r.deep_view();
            assert(after =~= before.insert(j as int, x@));
            assert forall|p: int, q: int| 0 <= p < q < after.len() implies full_leq(
                #[trigger] after[p],
                #[trigger] after[q],
            ) by {
                if p == j {
                    lemma_full_order_flip(before[j as int], x@);
                    if q - 1 > j {
                        lemma_full_order_transitive(x@, before[j as int], before[q - 1]);
                    }
                } else if q == j {
                } else {
                    let from_p = if p < j { p } else { p - 1 };
                    let from_q = if q < j { q } else { q - 1 };
                    assert(after[p] == before[from_p]);
                    assert(after[q] == before[from_q]);
                }
            }
            vstd::seq_lib::to_multiset_insert(before, j as int, x@);
            assert(input.take(i + 1) =~= input.take(i as int).push(x@));
            vstd::seq_lib::to_multiset_build(input.take(i as int), x@);
        }
        i += 1;
    }
    proof {
        assert(input.take(v.len() as int) =~= input);
    }
    r
}

/// One group of the comparison: the identities that only the old graph
/// holds and those that only the new graph holds, each sorted.
#[derive(Debug)]
pub struct ChangeEntry<'a> {
    pub key: GroupKey<'a>,
    pub removed: Vec<&'a PackageId>,
    pub added: Vec<&'a PackageId>,
}

/// Mathematical value of a [`ChangeEntry`].
pub struct ChangeEntryView {
    pub key: GroupKeyView,
    pub removed: Seq<PackageIdView>,
    pub added: Seq<PackageIdView>,
}

impl<'a> View for ChangeEntry<'a> {
    type V = ChangeEntryView;

    open spec fn view(&self) -> ChangeEntryView {
        ChangeEntryView {
            key: self.key@,
            removed: self.removed.deep_view(),
            added: self.added.deep_view(),
        }
    }
}

impl<'a> DeepView for ChangeEntry<'a> {
    type V = ChangeEntryView;

    open spec fn deep_view(&self) -> ChangeEntryView {
        self@
    }
}

/// Some identity in `nodes` belongs to group `k`.
pub open spec fn has_group(nodes: Seq<PackageIdView>, k: GroupKeyView) -> bool {
    exists|i: int| 0 <= i < nodes.len() && key_of(#[trigger] nodes[i]) == k
}

/// `keys` is strictly increasing in the order of groups.
pub open spec fn keys_ascending(keys: Seq<GroupKeyView>) -> bool {
    forall|i: int, j: int|
        0 <= i < j < keys.len() ==> key_order(#[trigger] keys[i], #[trigger] keys[j])
            == Order::Less
}

/// `e` is the entry of its group for the graphs `previous` and `next`:
/// what the group lost and what it gained, each sorted by the full order.
pub open spec fn is_change_entry(
    previous: Seq<PackageIdView>,
    next: Seq<PackageIdView>,
    e: ChangeEntryView,
) -> bool {
    &&& ascending(e.removed)
    &&& e.removed.to_multiset() == subtract(
        members(previous, e.key),
        members(next, e.key),
    ).to_multiset()
    &&& ascending(e.added)
    &&& e.added.to_multiset() == subtract(
        members(next, e.key),
        members(previous, e.key),
    ).to_multiset()
}

/// The keys of `groups`, in order.
pub open spec fn keys_of(groups: Seq<ChangeEntryView>) -> Seq<GroupKeyView> {
    Seq::new(groups.len(), |i: int| groups[i].key)
}

/// `groups` is the comparison of `previous` with `next`: one entry for
/// each group that occurs in either graph, in increasing order of groups.
pub open spec fn is_change_set(
    previous: Seq<PackageIdView>,
    next: Seq<PackageIdView>,
    groups: Seq<ChangeEntryView>,
) -> bool {
    &&& keys_ascending(keys_of(groups))
    &&& forall|k: GroupKeyView| #[trigger]
        keys_of(groups).contains(k) <==> has_group(previous, k) || has_group(next, k)
    &&& forall|i: int|
        0 <= i < groups.len() ==> is_change_entry(previous, next, #[trigger] groups[i])
}

/// Adds `k` to the sorted list of keys unless it is there already.
fn insert_key<'a>(keys: &mut Vec<GroupKey<'a>>, k: GroupKey<'a>)
    requires
        keys_ascending(old(keys).deep_view()),
    ensures
        keys_ascending(final(keys).deep_view()),
        forall|x: GroupKeyView| #[trigger]
            final(keys).deep_view().contains(x) <==> old(keys).deep_view().contains(x) || x == k@,
{
    let ghost before = keys.deep_view();
    let mut j: usize = 0;
    let mut limit: usize = keys.len();
    let mut known = false;
    while j < limit
        invariant
            0 <= j <= limit <= keys.len(),
            before == keys.deep_view(),
            forall|m: int| 0 <= m < j ==> key_order(#[trigger] before[m], k@) == Order::Less,
            limit < keys.len() ==> key_order(before[limit as int], k@) != Order::Less,
            known ==> j == limit && limit < keys.len() && before[limit as int] == k@,
            !known && limit < keys.len() ==> key_order(before[limit as int], k@) == Order::Greater,
        decreases limit - j,
    {
        assert(before[j as int] == keys[j as int]@);
        match keys[j].compare(&k) {
            Order::Less => {
                j += 1;
            },
            Order::Equal => {
                proof {
                    lemma_key_order_equal(before[j as int], k@);
                }
                known = true;
                limit = j;
            },
            Order::Greater => {
                limit = j;
            },
        }
    }
    if known {
        assert(before.contains(k@));
        return ;
    }
    keys.insert(j, k);
    proof {
        let after = keys.deep_view();
        assert(after =~= before.insert(j as int, k@));
        assert forall|p: int, q: int| 0 <= p < q < after.len() implies key_order(
            #[trigger] after[p],
            #[trigger] after[q],
        ) == Order::Less by {
            if p == j {
                lemma_key_order_flip(before[j as int], k@);
                if q - 1 > j {
                    lemma_key_order_flip(before[j as int], before[q - 1]);
                    lemma_key_order_transitive(k@, before[j as int], before[q - 1]);
                }
            } else if q == j {
            } else {
                let from_p = if p < j { p } else { p - 1 };
                let from_q = if q < j { q } else { q - 1 };
                assert(after[p] == before[from_p]);
                assert(after[q] == before[from_q]);
            }
        }
        assert forall|x: GroupKeyView| #[trigger]
            after.contains(x) <==> before.contains(x) || x == k@ by {
            if after.contains(x) {
                let m = choose|m: int| 0 <= m < after.len() && after[m] == x;
                if m < j {
                    assert(before[m] == x);
                } else if m > j {
                    assert(before[m - 1] == x);
                }
            }
            if before.contains(x) {
                let m = choose|m: int| 0 <= m < before.len() && before[m] == x;
                if m < j {
                    assert(after[m] == x);
                } else {
                    assert(after[m + 1] == x);
                }
            }
            if x == k@ {
                assert(after[j as int] == x);
            }
        }
    }
}

/// Adds the group of every node to the sorted list of keys.
fn collect_keys<'a>(keys: &mut Vec<GroupKey<'a>>, nodes: &'a Vec<PackageId>)
    requires
        keys_ascending(old(keys).deep_view()),
    ensures
        keys_ascending(final(keys).deep_view()),
        forall|x: GroupKeyView| #[trigger]
            final(keys).deep_view().contains(x) <==> old(keys).deep_view().contains(x)
                || has_group(nodes.deep_view(), x),
{
    let ghost before = keys.deep_view();
    let ghost views = nodes.deep_view();
    let mut i: usize = 0;
    while i < nodes.len()
        invariant
            0 <= i <= nodes.len(),
            views == nodes.deep_view(),
            keys_ascending(keys.deep_view()),
            forall|x: GroupKeyView| #[trigger]
                keys.deep_view().contains(x) <==> before.contains(x) || has_group(
                    views.take(i as int),
                    x,
                ),
        decreases nodes.len() - i,
    {
        let ghost listed = keys.deep_view();
        insert_key(keys, key(&nodes[i]));
        proof {
            let shorter = views.take(i as int);
            let longer = views.take(i + 1);
            assert(views[i as int] == nodes[i as int]@);
            assert forall|x: GroupKeyView| #[trigger]
                keys.deep_view().contains(x) <==> before.contains(x) || has_group(longer, x) by {
                assert(listed.contains(x) <==> before.contains(x) || has_group(shorter, x));
                if has_group(shorter, x) {
                    let m = choose|m: int| 0 <= m < shorter.len() && key_of(#[trigger] shorter[m]) == x;
                    assert(longer[m] == shorter[m]);
                }
                if has_group(longer, x) {
                    let m = choose|m: int| 0 <= m < longer.len() && key_of(#[trigger] longer[m]) == x;
                    if m < i {
                        assert(shorter[m] == longer[m]);
                    }
                }
                if x == key_of(views[i as int]) {
                    assert(longer[i as int] == views[i as int]);
                }
            }
        }
        i += 1;
    }
    proof {
        assert(views.take(nodes.len() as int) =~= views);
    }
}

/// The nodes that belong to group `k`, in the order of `nodes`.
fn group_members<'a>(nodes: &'a Vec<PackageId>, k: &GroupKey) -> (r: Vec<&'a PackageId>)
    ensures
        r.deep_view() == members(nodes.deep_view(), k@),
{
    let ghost views = nodes.deep_view();
    let ghost keep = in_group(k@);
    let mut r: Vec<&'a PackageId> = Vec::new();
    let mut i: usize = 0;
    proof {
        reveal(Seq::filter);
        assert(views.take(0) =~= Seq::empty());
        assert(r.deep_view() =~= views.take(0).filter(keep));
    }
    while i < nodes.len()
        invariant
            0 <= i <= nodes.len(),
            views == nodes.deep_view(),
            keep == in_group(k@),
            r.deep_view() == views.take(i as int).filter(keep),
        decreases nodes.len() - i,
    {
        let x = &nodes[i];
        let ghost before = r.deep_view();
        proof {
            reveal(Seq::filter);
            assert(views.take(i + 1).drop_last() =~= views.take(i as int));
            assert(views.take(i + 1).last() == x@);
            lemma_key_order_equal(key_of(x@), k@);
        }
        match key(x).compare(k) {
            Order::Equal => {
                r.push(x);
                assert(r.deep_view() =~= before.push(x@));
            },
            _ => {},
        }
        i += 1;
    }
    proof {
        assert(views.take(nodes.len() as int) =~= views);
    }
    r
}

/// Compares two graphs group by group.
///
/// The result holds one entry for each pair of name and source that
/// occurs in either graph, in increasing order of name and source. An
/// entry lists the identities that only the previous graph holds and
/// those that only the new graph holds. Entries of unchanged groups are
/// there too, with both lists empty.
pub fn compare_dependency_graphs<'a>(previous_resolve: &'a Resolve, resolve: &'a Resolve) -> (r:
    Vec<ChangeEntry<'a>>)
    ensures
        is_change_set(previous_resolve@.nodes, resolve@.nodes, r.deep_view()),
{
    let old_nodes = previous_resolve.nodes();
    let new_nodes = resolve.nodes();
    let ghost previous = previous_resolve@.nodes;
    let ghost next = resolve@.nodes;
    let mut keys: Vec<GroupKey<'a>> = Vec::new();
    assert(keys.deep_view() =~= Seq::empty());
    collect_keys(&mut keys, old_nodes);
    collect_keys(&mut keys, new_nodes);
    let ghost key_views = keys.deep_view();
    let mut changes: Vec<ChangeEntry<'a>> = Vec::new();
    let mut i: usize = 0;
    while i < keys.len()
        invariant
            0 <= i <= keys.len(),
            key_views == keys.deep_view(),
            previous == old_nodes.deep_view(),
            next == new_nodes.deep_view(),
            changes.len() == i,
            forall|m: int| 0 <= m < i ==> (#[trigger] changes.deep_view()[m]).key == key_views[m],
            forall|m: int|
                0 <= m < i ==> is_change_entry(previous, next, #[trigger] changes.deep_view()[m]),
        decreases keys.len() - i,
    {
        let k = keys[i];
        assert(key_views[i as int] == k@);
        let old = group_members(old_nodes, &k);
        let new = group_members(new_nodes, &k);
        let old_side = old.as_slice();
        let new_side = new.as_slice();
        proof {
            assert(old_side.deep_view() =~= old.deep_view());
            assert(new_side.deep_view() =~= new.deep_view());
        }
        let lost = vec_subtract(old_side, new_side);
        let gained = vec_subtract(new_side, old_side);
        let lost_side = lost.as_slice();
        let gained_side = gained.as_slice();
        proof {
            assert(lost_side.deep_view() =~= lost.deep_view());
            assert(gained_side.deep_view() =~= gained.deep_view());
        }
        let removed = sort_ids(lost_side);
        let added = sort_ids(gained_side);
        let ghost listed = changes.deep_view();
        let entry = ChangeEntry { key: k, removed, added };
        assert(is_change_entry(previous, next, entry@));
        changes.push(entry);
        proof {
            assert(changes.deep_view() =~= listed.push(entry@));
        }
        i += 1;
    }
    proof {
        assert(keys_of(changes.deep_view()) =~= key_views);
        assert(key_views.len() == changes.len());
        assert forall|k: GroupKeyView| #[trigger]
            key_views.contains(k) <==> has_group(previous, k) || has_group(next, k) by {
            assert(!Seq::<GroupKeyView>::empty().contains(k));
        }
    }
    changes
}

/// A filter that no element passes yields nothing.
proof fn lemma_filter_none(s: Seq<PackageIdView>, pred: spec_fn(PackageIdView) -> bool)
    requires
        forall|i: int| 0 <= i < s.len() ==> !pred(#[trigger] s[i]),
    ensures
        s.filter(pred) == Seq::<PackageIdView>::empty(),
    decreases s.len(),
{
    reveal(Seq::filter);
    if s.len() > 0 {
        assert forall|i: int| 0 <= i < s.drop_last().len() implies !pred(
            #[trigger] s.drop_last()[i],
        ) by {
            assert(s.drop_last()[i] == s[i]);
        }
        lemma_filter_none(s.drop_last(), pred);
        assert(!pred(s[s.len() - 1]));
    }
}

/// The members of a group are the nodes of the graph that belong to it.
pub proof fn lemma_members(nodes: Seq<PackageIdView>, k: GroupKeyView, p: PackageIdView)
    ensures
        members(nodes, k).contains(p) <==> nodes.contains(p) && key_of(p) == k,
{
    if members(nodes, k).contains(p) {
        nodes.lemma_filter_contains_rev(in_group(k), p);
        let i = choose|i: int| 0 <= i < members(nodes, k).len() && members(nodes, k)[i] == p;
        nodes.lemma_filter_pred(in_group(k), i);
    }
    if nodes.contains(p) && key_of(p) == k {
        let i = choose|i: int| 0 <= i < nodes.len() && nodes[i] == p;
        nodes.lemma_filter_contains(in_group(k), i);
    }
}

/// A group that holds the same identities in both graphs lost nothing
/// and gained nothing.
pub proof fn lemma_same_members_no_change(
    previous: Seq<PackageIdView>,
    next: Seq<PackageIdView>,
    e: ChangeEntryView,
)
    requires
        is_change_entry(previous, next, e),
        forall|p: PackageIdView|
            key_of(p) == e.key ==> (previous.contains(p) <==> next.contains(p)),
    ensures
        e.removed.len() == 0,
        e.added.len() == 0,
{
    let old = members(previous, e.key);
    let new = members(next, e.key);
    assert forall|i: int| 0 <= i < old.len() implies !absent_from(new)(#[trigger] old[i]) by {
        let p = old[i];
        lemma_members(previous, e.key, p);
        lemma_members(next, e.key, p);
        let j = choose|j: int| 0 <= j < new.len() && new[j] == p;
        assert(counterpart(p, new[j]));
    }
    assert forall|i: int| 0 <= i < new.len() implies !absent_from(old)(#[trigger] new[i]) by {
        let p = new[i];
        lemma_members(previous, e.key, p);
        lemma_members(next, e.key, p);
        let j = choose|j: int| 0 <= j < old.len() && old[j] == p;
        assert(counterpart(p, old[j]));
    }
    lemma_filter_none(old, absent_from(new));
    lemma_filter_none(new, absent_from(old));
    vstd::seq_lib::to_multiset_len(e.removed);
    vstd::seq_lib::to_multiset_len(e.added);
    vstd::seq_lib::to_multiset_len(Seq::<PackageIdView>::empty());
}

/// Comparing a graph with itself finds no change in any group.
pub proof fn lemma_unchanged_graph_has_no_changes(
    nodes: Seq<PackageIdView>,
    groups: Seq<ChangeEntryView>,
)
    requires
        is_change_set(nodes, nodes, groups),
    ensures
        forall|i: int|
            0 <= i < groups.len() ==> (#[trigger] groups[i]).removed.len() == 0
                && groups[i].added.len() == 0,
{
    assert forall|i: int| 0 <= i < groups.len() implies (#[trigger] groups[i]).removed.len() == 0
        && groups[i].added.len() == 0 by {
        lemma_same_members_no_change(nodes, nodes, groups[i]);
    }
}

/// Two strictly increasing lists of keys that hold the same keys are equal.
proof fn lemma_keys_unique(x: Seq<GroupKeyView>, y: Seq<GroupKeyView>)
    requires
        keys_ascending(x),
        keys_ascending(y),
        forall|k: GroupKeyView| x.contains(k) <==> y.contains(k),
    ensures
        x == y,
    decreases x.len(),
{
    if x.len() == 0 {
        if y.len() > 0 {
            assert(y.contains(y[0]));
        }
        assert(x =~= y);
    } else if y.len() == 0 {
        assert(x.contains(x[0]));
    } else {
        assert(x.contains(x[0]));
        assert(y.contains(y[0]));
        let i = choose|i: int| 0 <= i < x.len() && x[i] == y[0];
        let j = choose|j: int| 0 <= j < y.len() && y[j] == x[0];
        lemma_key_order_flip(x[0], y[0]);
        lemma_key_order_equal(x[0], y[0]);
        assert(x[0] == y[0]);
        let xs = x.drop_first();
        let ys = y.drop_first();
        assert forall|k: GroupKeyView| xs.contains(k) <==> ys.contains(k) by {
            if xs.contains(k) {
                let m = choose|m: int| 0 <= m < xs.len() && xs[m] == k;
                assert(x[m + 1] == k);
                assert(x.contains(k));
                lemma_key_order_equal(x[0], k);
                let n = choose|n: int| 0 <= n < y.len() && y[n] == k;
                assert(n > 0);
                assert(ys[n - 1] == k);
            }
            if ys.contains(k) {
                let m = choose|m: int| 0 <= m < ys.len() && ys[m] == k;
                assert(y[m + 1] == k);
                assert(y.contains(k));
                lemma_key_order_equal(y[0], k);
                let n = choose|n: int| 0 <= n < x.len() && x[n] == k;
                assert(n > 0);
                assert(xs[n - 1] == k);
            }
        }
        assert forall|a: int, b: int| 0 <= a < b < xs.len() implies key_order(
            #[trigger] xs[a],
            #[trigger] xs[b],
        ) == Order::Less by {
            assert(xs[a] == x[a + 1] && xs[b] == x[b + 1]);
        }
        assert forall|a: int, b: int| 0 <= a < b < ys.len() implies key_order(
            #[trigger] ys[a],
            #[trigger] ys[b],
        ) == Order::Less by {
            assert(ys[a] == y[a + 1] && ys[b] == y[b + 1]);
        }
        lemma_keys_unique(xs, ys);
        assert(x =~= seq![x[0]] + xs);
        assert(y =~= seq![y[0]] + ys);
    }
}

/// Two sorted lists that hold the same identities equally often are equal.
pub proof fn lemma_ascending_unique(x: Seq<PackageIdView>, y: Seq<PackageIdView>)
    requires
        ascending(x),
        ascending(y),
        x.to_multiset() == y.to_multiset(),
    ensures
        x == y,
{
    lemma_full_order_total();
    let leq = full_leq_relation();
    assert(vstd::relations::sorted_by(x, leq)) by {
        assert forall|i: int, j: int| 0 <= i < j < x.len() implies #[trigger] leq(x[i], x[j]) by {
            assert(full_leq(x[i], x[j]));
        }
    }
    assert(vstd::relations::sorted_by(y, leq)) by {
        assert forall|i: int, j: int| 0 <= i < j < y.len() implies #[trigger] leq(y[i], y[j]) by {
            assert(full_leq(y[i], y[j]));
        }
    }
    vstd::seq_lib::lemma_sorted_unique(x, y, leq);
}

/// The comparison of two graphs is determined by the graphs: whatever
/// order the nodes are stored in, and however often the comparison is
/// made, the same groups come out in the same order with the same
/// contents.
pub proof fn lemma_change_set_unique(
    previous: Seq<PackageIdView>,
    next: Seq<PackageIdView>,
    a: Seq<ChangeEntryView>,
    b: Seq<ChangeEntryView>,
)
    requires
        is_change_set(previous, next, a),
        is_change_set(previous, next, b),
    ensures
        a == b,
{
    assert forall|k: GroupKeyView| keys_of(a).contains(k) <==> keys_of(b).contains(k) by {
        assert(keys_of(a).contains(k) <==> has_group(previous, k) || has_group(next, k));
        assert(keys_of(b).contains(k) <==> has_group(previous, k) || has_group(next, k));
    }
    lemma_keys_unique(keys_of(a), keys_of(b));
    assert(a.len() == keys_of(a).len());
    assert(b.len() == keys_of(b).len());
    assert forall|i: int| 0 <= i < a.len() implies a[i] == b[i] by {
        assert(a[i].key == keys_of(a)[i]);
        assert(b[i].key == keys_of(b)[i]);
        assert(is_change_entry(previous, next, a[i]));
        assert(is_change_entry(previous, next, b[i]));
        lemma_ascending_unique(a[i].removed, b[i].removed);
        lemma_ascending_unique(a[i].added, b[i].added);
    }
    assert(a =~= b);
}

/// Filtering keeps every occurrence of what passes and nothing else.
proof fn lemma_filter_count(
    s: Seq<PackageIdView>,
    pred: spec_fn(PackageIdView) -> bool,
    x: PackageIdView,
)
    ensures
        s.filter(pred).to_multiset().count(x) == if pred(x) {
            s.to_multiset().count(x)
        } else {
            0
        },
    decreases s.len(),
{
    broadcast use vstd::multiset::group_multiset_axioms;

    reveal(Seq::filter);
    if s.len() == 0 {
        assert(s.to_multiset().count(x) == 0) by {
            vstd::seq_lib::to_multiset_len(s);
        }
    } else {
        let rest = s.drop_last();
        let last = s.last();
        lemma_filter_count(rest, pred, x);
        assert(s =~= rest.push(last));
        vstd::seq_lib::to_multiset_build(rest, last);
        if pred(last) {
            vstd::seq_lib::to_multiset_build(rest.filter(pred), last);
        }
    }
}

/// Whether an identity has a counterpart among `side` depends on which
/// identities `side` holds, not on their order.
proof fn lemma_present_in_same_elements(
    a: PackageIdView,
    side: Seq<PackageIdView>,
    other: Seq<PackageIdView>,
)
    requires
        forall|x: PackageIdView| side.contains(x) <==> other.contains(x),
    ensures
        present_in(a, side) == present_in(a, other),
{
    if present_in(a, side) {
        let j = choose|j: int| 0 <= j < side.len() && counterpart(a, #[trigger] side[j]);
        assert(side.contains(side[j]));
        let m = choose|m: int| 0 <= m < other.len() && other[m] == side[j];
        assert(counterpart(a, other[m]));
    }
    if present_in(a, other) {
        let j = choose|j: int| 0 <= j < other.len() && counterpart(a, #[trigger] other[j]);
        assert(other.contains(other[j]));
        let m = choose|m: int| 0 <= m < side.len() && side[m] == other[j];
        assert(counterpart(a, side[m]));
    }
}

/// What a group lost does not depend on the order in which the graphs
/// store their nodes.
proof fn lemma_subtract_ignores_node_order(
    previous: Seq<PackageIdView>,
    next: Seq<PackageIdView>,
    previous_shuffled: Seq<PackageIdView>,
    next_shuffled: Seq<PackageIdView>,
    k: GroupKeyView,
)
    requires
        previous.to_multiset() == previous_shuffled.to_multiset(),
        next.to_multiset() == next_shuffled.to_multiset(),
    ensures
        subtract(members(previous, k), members(next, k)).to_multiset() == subtract(
            members(previous_shuffled, k),
            members(next_shuffled, k),
        ).to_multiset(),
{
    let a = members(previous, k);
    let b = members(next, k);
    let a2 = members(previous_shuffled, k);
    let b2 = members(next_shuffled, k);
    assert forall|x: PackageIdView| b.contains(x) <==> b2.contains(x) by {
        lemma_filter_count(next, in_group(k), x);
        lemma_filter_count(next_shuffled, in_group(k), x);
        vstd::seq_lib::to_multiset_contains(b, x);
        vstd::seq_lib::to_multiset_contains(b2, x);
    }
    assert forall|x: PackageIdView|
        subtract(a, b).to_multiset().count(x) == subtract(a2, b2).to_multiset().count(x) by {
        lemma_filter_count(previous, in_group(k), x);
        lemma_filter_count(previous_shuffled, in_group(k), x);
        lemma_filter_count(a, absent_from(b), x);
        lemma_filter_count(a2, absent_from(b2), x);
        lemma_present_in_same_elements(x, b, b2);
    }
    assert(subtract(a, b).to_multiset() =~= subtract(a2, b2).to_multiset());
}

/// The comparison of two graphs does not depend on the order in which
/// the graphs store their nodes.
pub proof fn lemma_change_set_ignores_node_order(
    previous: Seq<PackageIdView>,
    next: Seq<PackageIdView>,
    previous_shuffled: Seq<PackageIdView>,
    next_shuffled: Seq<PackageIdView>,
    groups: Seq<ChangeEntryView>,
)
    requires
        previous.to_multiset() == previous_shuffled.to_multiset(),
        next.to_multiset() == next_shuffled.to_multiset(),
        is_change_set(previous, next, groups),
    ensures
        is_change_set(previous_shuffled, next_shuffled, groups),
{
    assert forall|x: PackageIdView| previous.contains(x) <==> previous_shuffled.contains(x) by {
        vstd::seq_lib::to_multiset_contains(previous, x);
        vstd::seq_lib::to_multiset_contains(previous_shuffled, x);
    }
    assert forall|x: PackageIdView| next.contains(x) <==> next_shuffled.contains(x) by {
        vstd::seq_lib::to_multiset_contains(next, x);
        vstd::seq_lib::to_multiset_contains(next_shuffled, x);
    }
    assert forall|k: GroupKeyView| has_group(previous, k) == has_group(previous_shuffled, k) by {
        lemma_has_group_same_elements(previous, previous_shuffled, k);
    }
    assert forall|k: GroupKeyView| has_group(next, k) == has_group(next_shuffled, k) by {
        lemma_has_group_same_elements(next, next_shuffled, k);
    }
    assert forall|k: GroupKeyView| #[trigger]
        keys_of(groups).contains(k) <==> has_group(previous_shuffled, k) || has_group(
            next_shuffled,
            k,
        ) by {
        assert(keys_of(groups).contains(k) <==> has_group(previous, k) || has_group(next, k));
    }
    assert forall|i: int| 0 <= i < groups.len() implies is_change_entry(
        previous_shuffled,
        next_shuffled,
        #[trigger] groups[i],
    ) by {
        assert(is_change_entry(previous, next, groups[i]));
        lemma_subtract_ignores_node_order(
            previous,
            next,
            previous_shuffled,
            next_shuffled,
            groups[i].key,
        );
        lemma_subtract_ignores_node_order(
            next,
            previous,
            next_shuffled,
            previous_shuffled,
            groups[i].key,
        );
    }
}

/// Whether a graph has a group depends on which identities it holds.
proof fn lemma_has_group_same_elements(
    nodes: Seq<PackageIdView>,
    other: Seq<PackageIdView>,
    k: GroupKeyView,
)
    requires
        forall|x: PackageIdView| nodes.contains(x) <==> other.contains(x),
    ensures
        has_group(nodes, k) == has_group(other, k),
{
    if has_group(nodes, k) {
        let i = choose|i: int| 0 <= i < nodes.len() && key_of(#[trigger] nodes[i]) == k;
        assert(nodes.contains(nodes[i]));
        let m = choose|m: int| 0 <= m < other.len() && other[m] == nodes[i];
        assert(key_of(other[m]) == k);
    }
    if has_group(other, k) {
        let i = choose|i: int| 0 <= i < other.len() && key_of(#[trigger] other[i]) == k;
        assert(other.contains(other[i]));
        let m = choose|m: int| 0 <= m < nodes.len() && nodes[m] == other[i];
        assert(key_of(nodes[m]) == k);
    }
}

} // verus!
