//! Turning a comparison of two graphs into status lines.

use crate::diff::{
    is_change_set, key_of, keys_of, lemma_change_set_ignores_node_order, lemma_change_set_unique,
    lemma_same_members_no_change, ChangeEntry, ChangeEntryView, GroupKeyView,
};
use crate::package::{PackageId, PackageIdView, Version};
use crate::source::SourceKind;
use crate::text::{decimal, push_decimal};
use vstd::prelude::*;
use vstd::string::{StrSliceExecFns, StringExecFns};

verus! {

/// What happened to a package.
#[derive(Clone, Copy, Debug, PartialEq, Eq, Structural)]
pub enum Verb {
    Updating,
    Removing,
    Adding,
}

impl Verb {
    /// The word shown for the verb.
    pub open spec fn word(self) -> Seq<char> {
        match self {
            Verb::Updating => "Updating"@,
            Verb::Removing => "Removing"@,
            Verb::Adding => "Adding"@,
        }
    }

    /// The word shown for the verb.
    pub fn as_str(&self) -> (r: &'static str)
        ensures
            r@ == self.word(),
    {
        match self {
            Verb::Updating => "Updating",
            Verb::Removing => "Removing",
            Verb::Adding => "Adding",
        }
    }
}

/// One line of the report: a verb and what it applies to.
#[derive(Debug, PartialEq, Eq)]
pub struct StatusLine {
    pub verb: Verb,
    pub message: String,
}

/// Mathematical value of a [`StatusLine`].
pub struct StatusLineView {
    pub verb: Verb,
    pub message: Seq<char>,
}

impl View for StatusLine {
    type V = StatusLineView;

    open spec fn view(&self) -> StatusLineView {
        StatusLineView { verb: self.verb, message: self.message@ }
    }
}

impl DeepView for StatusLine {
    type V = StatusLineView;

    open spec fn deep_view(&self) -> StatusLineView {
        self@
    }
}

/// A version as text: `major.minor.patch`.
pub open spec fn version_text(v: Version) -> Seq<char> {
    decimal(v.major as nat) + seq!['.'] + decimal(v.minor as nat) + seq!['.'] + decimal(
        v.patch as nat,
    )
}

/// An identity as text: the name, ` v`, the version.
pub open spec fn package_text(p: PackageIdView) -> Seq<char> {
    p.name + seq![' ', 'v'] + version_text(p.version)
}

/// The first eight characters of a pin; all of it if it is shorter;
/// nothing if there is no pin.
pub open spec fn short_pin(precise: Option<Seq<char>>) -> Seq<char> {
    match precise {
        Some(p) => if p.len() <= 8 {
            p
        } else {
            p.take(8)
        },
        None => Seq::empty(),
    }
}

/// The message for a package that moved from `removed` to `added`: the
/// old identity, an arrow, and the new revision for a git source, the new
/// version for any other.
pub open spec fn update_text(removed: PackageIdView, added: PackageIdView) -> Seq<char> {
    if removed.source.kind == SourceKind::Git {
        package_text(removed) + seq![' ', '-', '>', ' ', '#'] + short_pin(added.source.precise)
    } else {
        package_text(removed) + seq![' ', '-', '>', ' ', 'v'] + version_text(added.version)
    }
}

/// The line that says `verb` of `p`.
pub open spec fn plain_line(verb: Verb, p: PackageIdView) -> StatusLineView {
    StatusLineView { verb, message: package_text(p) }
}

/// One line for each of `ids`, in order, all with the same verb.
pub open spec fn plain_lines(verb: Verb, ids: Seq<PackageIdView>) -> Seq<StatusLineView> {
    Seq::new(ids.len(), |i: int| plain_line(verb, ids[i]))
}

/// The lines for one group: a single `Updating` line when exactly one
/// identity left and exactly one came; else a `Removing` line for each
/// that left, then an `Adding` line for each that came.
pub open spec fn entry_lines(e: ChangeEntryView) -> Seq<StatusLineView> {
    if e.removed.len() == 1 && e.added.len() == 1 {
        seq![StatusLineView { verb: Verb::Updating, message: update_text(e.removed[0], e.added[0]) }]
    } else {
        plain_lines(Verb::Removing, e.removed) + plain_lines(Verb::Adding, e.added)
    }
}

/// The lines for all groups, group after group.
pub open spec fn report_lines(groups: Seq<ChangeEntryView>) -> Seq<StatusLineView> {
    Seq::new(groups.len(), |i: int| entry_lines(groups[i])).flatten()
}

/// The report of a longer list is the report of the list followed by the
/// lines of the new entry.
pub proof fn lemma_report_lines_push(groups: Seq<ChangeEntryView>, e: ChangeEntryView)
    ensures
        report_lines(groups.push(e)) == report_lines(groups) + entry_lines(e),
{
    let shorter = Seq::new(groups.len(), |i: int| entry_lines(groups[i]));
    let longer = Seq::new(groups.push(e).len(), |i: int| entry_lines(groups.push(e)[i]));
    assert(longer =~= shorter.push(entry_lines(e)));
    shorter.lemma_flatten_push(entry_lines(e));
}

/// Appends a version as text.
fn push_version(out: &mut String, v: &Version)
    ensures
        final(out)@ == old(out)@ + version_text(*v),
{
    proof {
        reveal_strlit(".");
    }
    push_decimal(out, v.major);
    out.append(".");
    push_decimal(out, v.minor);
    out.append(".");
    push_decimal(out, v.patch);
    assert(out@ =~= old(out)@ + version_text(*v));
}

/// An identity as text.
pub fn describe(p: &PackageId) -> (r: String)
    ensures
        r@ == package_text(p@),
{
    let mut out = String::from_str(p.name());
    proof {
        reveal_strlit(" v");
    }
    out.append(" v");
    push_version(&mut out, p.version());
    assert(out@ =~= package_text(p@));
    out
}

/// The message for a package that moved from `removed` to `added`.
pub fn describe_update(removed: &PackageId, added: &PackageId) -> (r: String)
    ensures
        r@ == update_text(removed@, added@),
{
    let mut out = describe(removed);
    if removed.source_id().is_git() {
        proof {
            reveal_strlit(" -> #");
        }
        out.append(" -> #");
        match added.source_id().precise() {
            Some(p) => {
                let n = p.unicode_len();
                if n <= 8 {
                    out.append(p);
                } else {
                    assert(p@.take(8) =~= p@.subrange(0, 8));
                    out.append(p.substring_char(0, 8));
                }
            },
            None => {},
        }
        assert(out@ =~= update_text(removed@, added@));
    } else {
        proof {
            reveal_strlit(" -> v");
        }
        out.append(" -> v");
        push_version(&mut out, added.version());
        assert(out@ =~= update_text(removed@, added@));
    }
    out
}

/// Appends one line for each of `ids`.
fn push_plain_lines(out: &mut Vec<StatusLine>, verb: Verb, ids: &Vec<&PackageId>)
    ensures
        final(out).deep_view() == old(out).deep_view() + plain_lines(verb, ids.deep_view()),
{
    let ghost start = out.deep_view();
    let ghost views = ids.deep_view();
    let mut i: usize = 0;
    assert(out.deep_view() =~= start + plain_lines(verb, views.take(0)));
    while i < ids.len()
        invariant
            0 <= i <= ids.len(),
            views == ids.deep_view(),
            out.deep_view() == start + plain_lines(verb, views.take(i as int)),
        decreases ids.len() - i,
    {
        let ghost before = out.deep_view();
        let line = StatusLine { verb, message: describe(ids[i]) };
        assert(line@ == plain_line(verb, views[i as int]));
        out.push(line);
        assert(out.deep_view() =~= before.push(line@));
        assert(out.deep_view() =~= start + plain_lines(verb, views.take(i + 1)));
        i += 1;
    }
    assert(views.take(ids.len() as int) =~= views);
}

/// Appends the lines for one group.
fn push_entry_lines(out: &mut Vec<StatusLine>, entry: &ChangeEntry)
    ensures
        final(out).deep_view() == old(out).deep_view() + entry_lines(entry@),
{
    let ghost start = out.deep_view();
    if entry.removed.len() == 1 && entry.added.len() == 1 {
        let line = StatusLine {
            verb: Verb::Updating,
            message: describe_update(entry.removed[0], entry.added[0]),
        };
        assert(entry@.removed[0] == entry.removed[0]@);
        assert(entry@.added[0] == entry.added[0]@);
        out.push(line);
        assert(out.deep_view() =~= start + entry_lines(entry@));
    } else {
        push_plain_lines(out, Verb::Removing, &entry.removed);
        push_plain_lines(out, Verb::Adding, &entry.added);
        assert(out.deep_view() =~= start + entry_lines(entry@));
    }
}

/// Writes the report of a comparison: the lines for each group, in the
/// order of the groups. A group that neither lost nor gained anything
/// contributes no line.
pub fn report_changes(changes: &Vec<ChangeEntry>) -> (r: Vec<StatusLine>)
    ensures
        r.deep_view() == report_lines(changes.deep_view()),
{
    let ghost groups = changes.deep_view();
    let mut out: Vec<StatusLine> = Vec::new();
    let mut i: usize = 0;
    assert(out.deep_view() =~= report_lines(groups.take(0)));
    while i < changes.len()
        invariant
            0 <= i <= changes.len(),
            groups == changes.deep_view(),
            out.deep_view() == report_lines(groups.take(i as int)),
        decreases changes.len() - i,
    {
        push_entry_lines(&mut out, &changes[i]);
        proof {
            assert(groups[i as int] == changes[i as int]@);
            assert(groups.take(i + 1) =~= groups.take(i as int).push(groups[i as int]));
            lemma_report_lines_push(groups.take(i as int), groups[i as int]);
        }
        i += 1;
    }
    assert(groups.take(changes.len() as int) =~= groups);
    out
}

/// When at most the entry at `at` has lines, the report is the lines of
/// that entry.
proof fn lemma_report_of_one_entry(groups: Seq<ChangeEntryView>, at: int)
    requires
        forall|i: int| 0 <= i < groups.len() && i != at ==> entry_lines(#[trigger] groups[i]).len() == 0,
    ensures
        0 <= at < groups.len() ==> report_lines(groups) == entry_lines(groups[at]),
        !(0 <= at < groups.len()) ==> report_lines(groups) == Seq::<StatusLineView>::empty(),
    decreases groups.len(),
{
    if groups.len() == 0 {
        assert(Seq::new(groups.len(), |i: int| entry_lines(groups[i])) =~= Seq::<
            Seq<StatusLineView>,
        >::empty());
    } else {
        let shorter = groups.drop_last();
        let last = groups.last();
        assert(groups =~= shorter.push(last));
        assert forall|i: int| 0 <= i < shorter.len() && i != at implies entry_lines(
            #[trigger] shorter[i],
        ).len() == 0 by {
            assert(shorter[i] == groups[i]);
        }
        lemma_report_of_one_entry(shorter, at);
        lemma_report_lines_push(shorter, last);
        if 0 <= at < shorter.len() {
            assert(shorter[at] == groups[at]);
            assert(report_lines(groups) =~= entry_lines(groups[at]));
        } else {
            assert(report_lines(groups) =~= entry_lines(last));
        }
    }
}

/// The report is determined by the graphs: two comparisons of the same
/// graphs, in whatever order their nodes are stored, give the same groups
/// in the same order and the same lines.
pub proof fn lemma_report_is_determined(
    previous: Seq<PackageIdView>,
    next: Seq<PackageIdView>,
    previous_shuffled: Seq<PackageIdView>,
    next_shuffled: Seq<PackageIdView>,
    first: Seq<ChangeEntryView>,
    second: Seq<ChangeEntryView>,
)
    requires
        previous.to_multiset() == previous_shuffled.to_multiset(),
        next.to_multiset() == next_shuffled.to_multiset(),
        is_change_set(previous, next, first),
        is_change_set(previous_shuffled, next_shuffled, second),
    ensures
        first == second,
        report_lines(first) == report_lines(second),
{
    lemma_change_set_ignores_node_order(previous, next, previous_shuffled, next_shuffled, first);
    lemma_change_set_unique(previous_shuffled, next_shuffled, first, second);
}

/// Comparing a graph with itself reports nothing.
pub proof fn lemma_unchanged_graph_reports_nothing(
    nodes: Seq<PackageIdView>,
    groups: Seq<ChangeEntryView>,
)
    requires
        is_change_set(nodes, nodes, groups),
    ensures
        report_lines(groups) == Seq::<StatusLineView>::empty(),
{
    assert forall|i: int| 0 <= i < groups.len() implies entry_lines(#[trigger] groups[i]).len()
        == 0 by {
        lemma_same_members_no_change(nodes, nodes, groups[i]);
    }
    lemma_report_of_one_entry(groups, -1);
}

/// When two graphs hold the same identities outside the group `k`, every
/// line of the report belongs to that group: the other groups are empty,
/// and the report is the lines of the entry for `k`, or nothing if
/// neither graph has that group.
pub proof fn lemma_report_stays_in_group(
    previous: Seq<PackageIdView>,
    next: Seq<PackageIdView>,
    groups: Seq<ChangeEntryView>,
    k: GroupKeyView,
)
    requires
        is_change_set(previous, next, groups),
        forall|p: PackageIdView| key_of(p) != k ==> (previous.contains(p) <==> next.contains(p)),
    ensures
        forall|i: int|
            0 <= i < groups.len() && (#[trigger] groups[i]).key != k ==> groups[i].removed.len()
                == 0 && groups[i].added.len() == 0,
        keys_of(groups).contains(k) ==> report_lines(groups) == entry_lines(
            groups[keys_of(groups).index_of(k)],
        ),
        !keys_of(groups).contains(k) ==> report_lines(groups) == Seq::<StatusLineView>::empty(),
{
    assert forall|i: int| 0 <= i < groups.len() && (#[trigger] groups[i]).key != k implies groups[i].removed.len()
        == 0 && groups[i].added.len() == 0 by {
        lemma_same_members_no_change(previous, next, groups[i]);
    }
    if keys_of(groups).contains(k) {
        let at = keys_of(groups).index_of(k);
        assert(0 <= at < groups.len() && keys_of(groups)[at] == k);
        assert forall|i: int| 0 <= i < groups.len() && i != at implies entry_lines(
            #[trigger] groups[i],
        ).len() == 0 by {
            if groups[i].key == k {
                assert(keys_of(groups)[i] == k);
                crate::diff::lemma_key_order_equal(keys_of(groups)[i], keys_of(groups)[at]);
                if i < at {
                    assert(crate::diff::key_order(keys_of(groups)[i], keys_of(groups)[at])
                        == crate::text::Order::Less);
                } else {
                    assert(crate::diff::key_order(keys_of(groups)[at], keys_of(groups)[i])
                        == crate::text::Order::Less);
                }
            }
        }
        lemma_report_of_one_entry(groups, at);
    } else {
        assert forall|i: int| 0 <= i < groups.len() implies entry_lines(#[trigger] groups[i]).len()
            == 0 by {
            if groups[i].key == k {
                assert(keys_of(groups)[i] == k);
            }
        }
        lemma_report_of_one_entry(groups, -1);
    }
}

} // verus!
