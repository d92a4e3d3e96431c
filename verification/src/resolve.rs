//! The dependency graph that a resolution produced.

use crate::package::{same_package, PackageId, PackageIdView};
use crate::text::same_text;
use vstd::prelude::*;

verus! {

/// Mathematical value of a [`Resolve`]: the identities of its nodes, and
/// for each node the set of nodes it depends on.
pub struct ResolveView {
    pub nodes: Seq<PackageIdView>,
    pub deps: Seq<Set<int>>,
}

impl ResolveView {
    /// Every node has a dependency set, dependencies are nodes of the
    /// graph, and no package occurs twice.
    pub open spec fn wf(self) -> bool {
        &&& self.deps.len() == self.nodes.len()
        &&& forall|i: int, j: int|
            0 <= i < self.deps.len() && #[trigger] self.deps[i].contains(j) ==> 0 <= j
                < self.nodes.len()
        &&& forall|i: int, j: int|
            0 <= i < j < self.nodes.len() ==> !same_package(
                #[trigger] self.nodes[i],
                #[trigger] self.nodes[j],
            )
    }

    /// Node `i` is the one and only node called `name`.
    pub open spec fn unique_match(self, name: Seq<char>, i: int) -> bool {
        &&& 0 <= i < self.nodes.len()
        &&& self.nodes[i].name == name
        &&& forall|j: int|
            0 <= j < self.nodes.len() && (#[trigger] self.nodes[j]).name == name ==> j == i
    }

    /// Exactly one node is called `name`.
    pub open spec fn known(self, name: Seq<char>) -> bool {
        exists|t: int| self.unique_match(name, t)
    }

    /// The one node called `name`.
    pub open spec fn target(self, name: Seq<char>) -> int {
        choose|t: int| self.unique_match(name, t)
    }

    /// `path` walks along dependency edges of the graph.
    pub open spec fn is_path(self, path: Seq<int>) -> bool {
        &&& path.len() > 0
        &&& forall|k: int| 0 <= k < path.len() ==> 0 <= #[trigger] path[k] < self.nodes.len()
        &&& forall|k: int|
            0 <= k < path.len() - 1 ==> self.deps[#[trigger] path[k]].contains(path[k + 1])
    }

    /// Node `to` is `from` itself or one of its direct or indirect
    /// dependencies.
    pub open spec fn reaches(self, from: int, to: int) -> bool {
        exists|path: Seq<int>| #[trigger]
            self.is_path(path) && path.first() == from && path.last() == to
    }
}

/// A node that matches a name uniquely is the target of that name.
pub proof fn lemma_target(g: ResolveView, name: Seq<char>, t: int)
    requires
        g.unique_match(name, t),
    ensures
        g.known(name),
        g.target(name) == t,
{
    let c = g.target(name);
    assert(g.unique_match(name, c));
    assert(g.nodes[c].name == name);
}

/// The set of nodes that a row of dependency indices names.
pub open spec fn dep_set(row: Seq<usize>) -> Set<int> {
    Set::new(|j: int| exists|k: int| 0 <= k < row.len() && #[trigger] row[k] == j)
}

/// The graph with the given nodes, where `rows[i]` lists the dependencies
/// of node `i`.
pub open spec fn graph_of(nodes: Seq<PackageId>, rows: Seq<Vec<usize>>) -> ResolveView {
    ResolveView {
        nodes: Seq::new(nodes.len(), |i: int| nodes[i]@),
        deps: Seq::new(rows.len(), |i: int| dep_set(rows[i]@)),
    }
}

/// Whether every index in `row` is below `n`.
fn row_within(row: &Vec<usize>, n: usize) -> (r: bool)
    ensures
        r <==> forall|k: int| 0 <= k < row.len() ==> row[k] < n,
{
    let mut k: usize = 0;
    while k < row.len()
        invariant
            0 <= k <= row.len(),
            forall|m: int| 0 <= m < k ==> row[m] < n,
        decreases row.len() - k,
    {
        if row[k] >= n {
            return false;
        }
        k += 1;
    }
    true
}

/// Whether the package of `nodes[i]` occurs again later in `nodes`.
fn occurs_after(nodes: &Vec<PackageId>, i: usize) -> (r: bool)
    requires
        i < nodes.len(),
    ensures
        r <==> exists|j: int| i < j < nodes.len() && same_package(nodes[i as int]@, nodes[j]@),
{
    let mut j: usize = i + 1;
    while j < nodes.len()
        invariant
            i < j <= nodes.len(),
            forall|b: int| i < b < j ==> !same_package(nodes[i as int]@, nodes[b]@),
        decreases nodes.len() - j,
    {
        if nodes[i].same_package(&nodes[j]) {
            return true;
        }
        j += 1;
    }
    false
}

/// An immutable snapshot of a resolved dependency graph.
#[derive(Debug)]
pub struct Resolve {
    nodes: Vec<PackageId>,
    rows: Vec<Vec<usize>>,
}

impl View for Resolve {
    type V = ResolveView;

    closed spec fn view(&self) -> ResolveView {
        graph_of(self.nodes@, self.rows@)
    }
}

impl Resolve {
    #[verifier::type_invariant]
    spec fn well_formed(self) -> bool {
        self@.wf()
    }

    /// Builds a graph from its nodes and, for each node, the indices of
    /// the nodes it depends on. Returns `None` unless the parts form a
    /// graph in which no package occurs twice.
    pub fn new(nodes: Vec<PackageId>, rows: Vec<Vec<usize>>) -> (r: Option<Resolve>)
        ensures
            r is Some <==> graph_of(nodes@, rows@).wf(),
            r is Some ==> r->0@ == graph_of(nodes@, rows@),
    {
        let ghost g = graph_of(nodes@, rows@);
        let n = nodes.len();
        if rows.len() != n {
            return None;
        }
        let mut i: usize = 0;
        while i < n
            invariant
                0 <= i <= n,
                n == nodes.len(),
                n == rows.len(),
                g == graph_of(nodes@, rows@),
                forall|a: int, j: int|
                    0 <= a < i && #[trigger] g.deps[a].contains(j) ==> 0 <= j < n,
                forall|a: int, b: int|
                    0 <= a < b < n && a < i ==> !same_package(
                        #[trigger] g.nodes[a],
                        #[trigger] g.nodes[b],
                    ),
            decreases n - i,
        {
            if !row_within(&rows[i], n) {
                proof {
                    let k = choose|k: int| 0 <= k < rows[i as int].len() && rows[i as int][k] >= n;
                    assert(g.deps[i as int].contains(rows[i as int][k] as int));
                }
                return None;
            }
            if occurs_after(&nodes, i) {
                proof {
                    let j = choose|j: int|
                        i < j < nodes.len() && same_package(nodes[i as int]@, nodes[j]@);
                    assert(same_package(g.nodes[i as int], g.nodes[j]));
                }
                return None;
            }
            proof {
                assert forall|b: int| i < b < n implies !same_package(
                    g.nodes[i as int],
                    #[trigger] g.nodes[b],
                ) by {
                    assert(!same_package(nodes[i as int]@, nodes[b]@));
                }
            }
            i += 1;
        }
        Some(Resolve { nodes, rows })
    }

    /// Number of nodes.
    pub fn len(&self) -> (r: usize)
        ensures
            r == self@.nodes.len(),
            self@.wf(),
    {
        proof {
            use_type_invariant(self);
        }
        self.nodes.len()
    }

    /// The identities of the nodes, in index order.
    pub fn nodes(&self) -> (r: &Vec<PackageId>)
        ensures
            r.deep_view() == self@.nodes,
            self@.wf(),
    {
        proof {
            use_type_invariant(self);
            assert(self.nodes.deep_view() =~= self@.nodes);
        }
        &self.nodes
    }

    /// The identity of node `i`.
    pub fn node(&self, i: usize) -> (r: &PackageId)
        requires
            i < self@.nodes.len(),
        ensures
            r@ == self@.nodes[i as int],
    {
        &self.nodes[i]
    }

    /// The node that holds the package of `id`, whatever its pin.
    pub fn index_of(&self, id: &PackageId) -> (r: Option<usize>)
        ensures
            match r {
                Some(i) => i < self@.nodes.len() && same_package(self@.nodes[i as int], id@),
                None => forall|i: int|
                    0 <= i < self@.nodes.len() ==> !same_package(#[trigger] self@.nodes[i], id@),
            },
    {
        let mut i: usize = 0;
        while i < self.nodes.len()
            invariant
                0 <= i <= self.nodes.len(),
                forall|j: int| 0 <= j < i ==> !same_package(#[trigger] self@.nodes[j], id@),
            decreases self.nodes.len() - i,
        {
            assert(self@.nodes[i as int] == self.nodes[i as int]@);
            if self.nodes[i].same_package(id) {
                return Some(i);
            }
            i += 1;
        }
        None
    }

    /// The nodes that node `i` depends on directly.
    pub fn deps(&self, i: usize) -> (r: &Vec<usize>)
        requires
            i < self@.nodes.len(),
        ensures
            dep_set(r@) == self@.deps[i as int],
            forall|k: int| 0 <= k < r.len() ==> r[k] < self@.nodes.len(),
    {
        proof {
            use_type_invariant(self);
            let row = self.rows[i as int];
            assert forall|k: int| 0 <= k < row.len() implies row[k] < self@.nodes.len() by {
                assert(self@.deps[i as int].contains(row[k] as int));
            }
        }
        &self.rows[i]
    }

    /// Looks a node up by package name. The answer is `Some` exactly when
    /// one node, and only one, carries the name.
    pub fn query(&self, name: &str) -> (r: Option<usize>)
        ensures
            r is Some <==> self@.known(name@),
            r is Some ==> r->0 == self@.target(name@) && self@.unique_match(name@, r->0 as int),
    {
        let n = self.nodes.len();
        let mut found: Option<usize> = None;
        let mut i: usize = 0;
        while i < n
            invariant
                0 <= i <= n,
                n == self.nodes.len(),
                match found {
                    Some(f) => f < i && self.nodes[f as int]@.name == name@ && forall|j: int|
                        0 <= j < i && (#[trigger] self.nodes[j])@.name == name@ ==> j == f,
                    None => forall|j: int| 0 <= j < i ==> (#[trigger] self.nodes[j])@.name != name@,
                },
            decreases n - i,
        {
            if same_text(self.nodes[i].name.as_str(), name) {
                match found {
                    Some(f) => {
                        assert forall|x: int| !self@.unique_match(name@, x) by {
                            if self@.unique_match(name@, x) {
                                assert(self@.nodes[f as int].name == name@);
                                assert(self@.nodes[i as int].name == name@);
                            }
                        }
                        return None;
                    },
                    None => {
                        found = Some(i);
                    },
                }
            }
            i += 1;
        }
        proof {
            match found {
                Some(f) => {
                    assert forall|j: int|
                        0 <= j < self@.nodes.len() && (#[trigger] self@.nodes[j]).name
                            == name@ implies j == f by {
                        assert(self.nodes[j]@.name == name@);
                    }
                    lemma_target(self@, name@, f as int);
                },
                None => {
                    assert forall|x: int| !self@.unique_match(name@, x) by {
                        if 0 <= x < n {
                            assert(self.nodes[x]@.name != name@);
                        }
                    }
                },
            }
        }
        found
    }
}

} // verus!
