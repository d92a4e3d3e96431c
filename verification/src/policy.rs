//! The update policy: which recorded selections a solver must give up.
//!
//! A solver that is handed the previous graph keeps what it can. The only
//! way to make it move is to forbid nodes of that graph. This module turns
//! a request ("update everything", "update `foo`", "update `foo` and all
//! it depends on", "pin `foo` to this revision") into the set of forbidden
//! nodes and the sources whose pin has to be forgotten or forced.

use crate::closure::{fill_with_deps, filled};
use crate::package::{PackageId, PackageIdView};
use crate::resolve::{Resolve, ResolveView};
use crate::source::{SourceId, SourceIdView, SourceKind};
use vstd::prelude::*;
use vstd::string::StringExecFns;

verus! {

/// What the user asked for.
#[derive(Clone, Copy, Debug)]
pub struct UpdateOptions<'a> {
    /// Names of the packages to update. Empty means all of them.
    pub to_update: &'a [String],
    /// The exact revision to move the named packages to.
    pub precise: Option<&'a str>,
    /// Whether the dependencies of the named packages are updated too.
    pub aggressive: bool,
}

/// Why an update did not go through.
#[derive(Debug, PartialEq, Eq)]
pub enum UpdateError {
    /// `aggressive` and `precise` were both given.
    ConfigurationConflict,
    /// No node of the previous graph, or more than one, carries the name.
    AmbiguousOrUnknownPackageName(String),
    /// The solver found no graph.
    ResolutionFailure(String),
    /// The lockfile could not be read or written.
    PersistenceFailure(String),
}

/// What the solver is told.
#[derive(Debug)]
pub struct UpdatePlan {
    /// For each node of the previous graph, whether the solver must not
    /// select it again.
    pub to_avoid: Vec<bool>,
    /// Sources to make known to the solver, with the pin it has to use.
    pub sources: Vec<SourceId>,
}

/// The identities among the first `n` of `nodes` whose entry in `marks`
/// is set, in the order of `nodes`.
pub open spec fn selected_upto(nodes: Seq<PackageIdView>, marks: Seq<bool>, n: int) -> Seq<
    PackageIdView,
>
    decreases n,
{
    if n <= 0 {
        Seq::empty()
    } else if marks[n - 1] {
        selected_upto(nodes, marks, n - 1).push(nodes[n - 1])
    } else {
        selected_upto(nodes, marks, n - 1)
    }
}

/// The identities of `nodes` whose entry in `marks` is set. Nodes
/// without an entry are not selected.
pub open spec fn selected(nodes: Seq<PackageIdView>, marks: Seq<bool>) -> Seq<PackageIdView> {
    selected_upto(
        nodes,
        marks,
        if nodes.len() <= marks.len() {
            nodes.len() as int
        } else {
            marks.len() as int
        },
    )
}

impl UpdatePlan {
    /// The identities that the solver must not select again: the nodes
    /// of `previous` that the plan marks.
    pub fn avoided_nodes<'a>(&self, previous: &'a Resolve) -> (r: Vec<&'a PackageId>)
        ensures
            r.deep_view() == selected(previous@.nodes, self.to_avoid@),
    {
        let nodes = previous.nodes();
        let ghost views = previous@.nodes;
        let n = if nodes.len() <= self.to_avoid.len() {
            nodes.len()
        } else {
            self.to_avoid.len()
        };
        let mut r: Vec<&'a PackageId> = Vec::new();
        let mut i: usize = 0;
        assert(r.deep_view() =~= selected_upto(views, self.to_avoid@, 0));
        while i < n
            invariant
                0 <= i <= n,
                n <= nodes.len(),
                n <= self.to_avoid.len(),
                views == nodes.deep_view(),
                r.deep_view() == selected_upto(views, self.to_avoid@, i as int),
            decreases n - i,
        {
            let ghost before = r.deep_view();
            if self.to_avoid[i] {
                r.push(&nodes[i]);
                assert(r.deep_view() =~= before.push(views[i as int]));
            }
            i += 1;
        }
        r
    }
}

/// Mathematical value of an optional string slice.
pub open spec fn option_str(s: Option<&str>) -> Option<Seq<char>> {
    match s {
        Some(t) => Some(t@),
        None => None,
    }
}

/// The request asks for two things that exclude each other.
pub open spec fn conflicting(aggressive: bool, precise: Option<Seq<char>>) -> bool {
    aggressive && precise is Some
}

/// The pin that a request gives to the source of `node`: nothing without
/// a requested revision; the revision itself for most sources; for a
/// registry the name of the package, `=`, and the revision.
pub open spec fn pin_for(node: PackageIdView, precise: Option<Seq<char>>) -> Option<Seq<char>> {
    match precise {
        Some(p) => if node.source.kind == SourceKind::Registry {
            Some(node.name + seq!['='] + p)
        } else {
            Some(p)
        },
        None => None,
    }
}

/// The source of `node` with the pin that the request gives it.
pub open spec fn override_for(node: PackageIdView, precise: Option<Seq<char>>) -> SourceIdView {
    node.source.with_precise(pin_for(node, precise))
}

/// Whether one of `names` forbids node `v` of graph `g`: `v` is one of
/// the named nodes or, for an aggressive update, one of them depends on
/// it, directly or not.
pub open spec fn avoided_by_name(
    g: ResolveView,
    names: Seq<Seq<char>>,
    aggressive: bool,
    v: int,
) -> bool {
    exists|i: int|
        0 <= i < names.len() && g.known(#[trigger] names[i]) && if aggressive {
            g.reaches(g.target(names[i]), v)
        } else {
            v == g.target(names[i])
        }
}

/// Whether the request forbids node `v` of graph `g`. Without names
/// every node is forbidden.
pub open spec fn avoided(g: ResolveView, names: Seq<Seq<char>>, aggressive: bool, v: int) -> bool {
    if names.len() == 0 {
        0 <= v < g.nodes.len()
    } else {
        avoided_by_name(g, names, aggressive, v)
    }
}

/// The sources that the request overrides: none for an aggressive update
/// or an update of everything, else one for each name, in order.
pub open spec fn overrides(
    g: ResolveView,
    names: Seq<Seq<char>>,
    aggressive: bool,
    precise: Option<Seq<char>>,
) -> Seq<SourceIdView> {
    if aggressive {
        Seq::empty()
    } else {
        Seq::new(names.len(), |i: int| override_for(g.nodes[g.target(names[i])], precise))
    }
}

/// `i` is the first position in `names` whose name does not single out a node.
pub open spec fn first_unknown(g: ResolveView, names: Seq<Seq<char>>, i: int) -> bool {
    &&& 0 <= i < names.len()
    &&& !g.known(names[i])
    &&& forall|j: int| 0 <= j < i ==> g.known(#[trigger] names[j])
}

/// Every name singles out a node.
pub open spec fn all_known(g: ResolveView, names: Seq<Seq<char>>) -> bool {
    forall|i: int| 0 <= i < names.len() ==> g.known(#[trigger] names[i])
}

/// `plan` is what the request asks of the solver.
pub open spec fn is_plan(
    g: ResolveView,
    names: Seq<Seq<char>>,
    aggressive: bool,
    precise: Option<Seq<char>>,
    plan: UpdatePlan,
) -> bool {
    &&& plan.to_avoid.len() == g.nodes.len()
    &&& forall|v: int|
        0 <= v < plan.to_avoid.len() ==> #[trigger] plan.to_avoid[v] == avoided(
            g,
            names,
            aggressive,
            v,
        )
    &&& plan.sources.deep_view() == overrides(g, names, aggressive, precise)
}

/// `e` reports the first of `names` that does not single out a node.
pub open spec fn is_rejection(g: ResolveView, names: Seq<Seq<char>>, e: UpdateError) -> bool {
    match e {
        UpdateError::AmbiguousOrUnknownPackageName(name) => exists|i: int|
            first_unknown(g, names, i) && name@ == names[i],
        _ => false,
    }
}

/// A plain update of one package releases that package and nothing else.
pub proof fn lemma_single_update_avoids_one(g: ResolveView, name: Seq<char>, v: int)
    requires
        g.known(name),
    ensures
        avoided(g, seq![name], false, v) <==> v == g.target(name),
{
    let names = seq![name];
    assert(names[0] == name);
}

/// An aggressive update of one package releases that package and all it
/// depends on, and nothing else.
pub proof fn lemma_aggressive_update_avoids_closure(g: ResolveView, name: Seq<char>, v: int)
    requires
        g.known(name),
    ensures
        avoided(g, seq![name], true, v) <==> g.reaches(g.target(name), v),
{
    let names = seq![name];
    assert(names[0] == name);
}

/// The source that the solver must use for `dep`: the source of `dep`
/// with its pin forgotten, or replaced by the requested revision.
pub fn source_override(dep: &PackageId, precise: Option<&str>) -> (r: SourceId)
    ensures
        r@ == override_for(dep@, option_str(precise)),
{
    match precise {
        Some(p) => {
            let pin = if dep.source_id().is_registry() {
                let mut s = String::from_str(dep.name());
                proof {
                    reveal_strlit("=");
                }
                s.append("=");
                s.append(p);
                assert(s@ =~= dep@.name + seq!['='] + p@);
                s
            } else {
                String::from_str(p)
            };
            dep.source_id().clone().with_precise(Some(pin))
        },
        None => dep.source_id().clone().with_precise(None),
    }
}

/// Decides what the solver must give up.
///
/// Fails with `ConfigurationConflict` when `aggressive` and `precise` are
/// both set, whatever the graph holds. Fails with
/// `AmbiguousOrUnknownPackageName` for the first name that does not
/// single out a node of the previous graph.
pub fn plan_update(previous: &Resolve, opts: &UpdateOptions) -> (r: Result<UpdatePlan, UpdateError>)
    ensures
        conflicting(opts.aggressive, option_str(opts.precise)) ==> r == Err::<
            UpdatePlan,
            UpdateError,
        >(UpdateError::ConfigurationConflict),
        !conflicting(opts.aggressive, option_str(opts.precise)) && all_known(
            previous@,
            opts.to_update.deep_view(),
        ) ==> r is Ok && is_plan(
            previous@,
            opts.to_update.deep_view(),
            opts.aggressive,
            option_str(opts.precise),
            r->Ok_0,
        ),
        !conflicting(opts.aggressive, option_str(opts.precise)) && !all_known(
            previous@,
            opts.to_update.deep_view(),
        ) ==> r is Err && is_rejection(previous@, opts.to_update.deep_view(), r->Err_0),
{
    if opts.aggressive && opts.precise.is_some() {
        return Err(UpdateError::ConfigurationConflict);
    }
    let ghost g = previous@;
    let ghost names = opts.to_update.deep_view();
    let ghost precise = option_str(opts.precise);
    let n = previous.len();
    if opts.to_update.len() == 0 {
        let sources: Vec<SourceId> = Vec::new();
        assert(sources.deep_view() =~= overrides(g, names, opts.aggressive, precise));
        return Ok(UpdatePlan { to_avoid: filled(n, true), sources });
    }
    let mut to_avoid = filled(n, false);
    let mut sources: Vec<SourceId> = Vec::new();
    let mut i: usize = 0;
    assert(sources.deep_view() =~= Seq::empty());
    while i < opts.to_update.len()
        invariant
            0 <= i <= opts.to_update.len(),
            g == previous@,
            g.wf(),
            n == g.nodes.len(),
            names == opts.to_update.deep_view(),
            precise == option_str(opts.precise),
            !conflicting(opts.aggressive, precise),
            to_avoid.len() == n,
            forall|j: int| 0 <= j < i ==> g.known(#[trigger] names[j]),
            forall|v: int|
                0 <= v < n ==> #[trigger] to_avoid[v] == avoided_by_name(
                    g,
                    names.take(i as int),
                    opts.aggressive,
                    v,
                ),
            sources.deep_view() == overrides(g, names.take(i as int), opts.aggressive, precise),
        decreases opts.to_update.len() - i,
    {
        let name = &opts.to_update[i];
        assert(names[i as int] == name@);
        let dep = match previous.query(name.as_str()) {
            Some(t) => t,
            None => {
                assert(first_unknown(g, names, i as int));
                return Err(UpdateError::AmbiguousOrUnknownPackageName(name.clone()));
            },
        };
        let ghost marks = to_avoid@;
        let ghost listed = sources.deep_view();
        let ghost shorter = names.take(i as int);
        let ghost longer = names.take(i + 1);
        if opts.aggressive {
            fill_with_deps(previous, dep, &mut to_avoid);
            assert(sources.deep_view() =~= overrides(g, longer, opts.aggressive, precise));
        } else {
            to_avoid.set(dep, true);
            sources.push(source_override(previous.node(dep), opts.precise));
            assert(sources.deep_view() =~= listed.push(override_for(g.nodes[dep as int], precise)));
            assert(sources.deep_view() =~= overrides(g, longer, opts.aggressive, precise)) by {
                assert forall|m: int| 0 <= m < longer.len() implies longer[m] == names[m] by {}
                assert forall|m: int| 0 <= m < shorter.len() implies shorter[m] == names[m] by {}
            }
        }
        proof {
            assert forall|v: int| 0 <= v < n implies #[trigger] to_avoid[v] == avoided_by_name(
                g,
                longer,
                opts.aggressive,
                v,
            ) by {
                let here = if opts.aggressive {
                    g.reaches(dep as int, v)
                } else {
                    v == dep
                };
                assert(to_avoid[v] == (marks[v] || here));
                assert(longer[i as int] == names[i as int]);
                assert(marks[v] == avoided_by_name(g, shorter, opts.aggressive, v));
                if avoided_by_name(g, shorter, opts.aggressive, v) {
                    let m = choose|m: int|
                        0 <= m < shorter.len() && g.known(#[trigger] shorter[m])
                            && if opts.aggressive {
                            g.reaches(g.target(shorter[m]), v)
                        } else {
                            v == g.target(shorter[m])
                        };
                    assert(longer[m] == shorter[m]);
                }
                if avoided_by_name(g, longer, opts.aggressive, v) {
                    let m = choose|m: int|
                        0 <= m < longer.len() && g.known(#[trigger] longer[m])
                            && if opts.aggressive {
                            g.reaches(g.target(longer[m]), v)
                        } else {
                            v == g.target(longer[m])
                        };
                    if m < i {
                        assert(shorter[m] == longer[m]);
                    }
                }
            }
        }
        i += 1;
    }
    proof {
        assert(names.take(opts.to_update.len() as int) =~= names);
    }
    Ok(UpdatePlan { to_avoid, sources })
}

} // verus!
