//! Transitive dependencies of a node.

use crate::resolve::{Resolve, ResolveView};
use vstd::prelude::*;

verus! {

/// Number of `false` entries in `marks`.
spec fn count_false(marks: Seq<bool>) -> nat
    decreases marks.len(),
{
    if marks.len() == 0 {
        0
    } else {
        count_false(marks.drop_last()) + if marks.last() {
            0nat
        } else {
            1nat
        }
    }
}

proof fn lemma_count_false_update(marks: Seq<bool>, i: int)
    requires
        0 <= i < marks.len(),
        !marks[i],
    ensures
        count_false(marks.update(i, true)) + 1 == count_false(marks),
    decreases marks.len(),
{
    let after = marks.update(i, true);
    if i == marks.len() - 1 {
        assert(after.drop_last() =~= marks.drop_last());
    } else {
        lemma_count_false_update(marks.drop_last(), i);
        assert(after.drop_last() =~= marks.drop_last().update(i, true));
    }
}

/// Node `v` waits on the work list.
spec fn pending(stack: Seq<usize>, v: int) -> bool {
    exists|k: int| 0 <= k < stack.len() && #[trigger] stack[k] == v
}

/// Every marked node other than `current` and those on the work list has
/// all its dependencies marked.
spec fn settled(g: ResolveView, marks: Seq<bool>, stack: Seq<usize>, current: int) -> bool {
    forall|v: int, w: int|
        0 <= v < marks.len() && marks[v] && #[trigger] g.deps[v].contains(w) && v != current
            && !pending(stack, v) ==> 0 <= w < marks.len() && marks[w]
}

/// Every marked node is reached from `from`.
spec fn sound(g: ResolveView, marks: Seq<bool>, from: int) -> bool {
    forall|v: int| 0 <= v < marks.len() && #[trigger] marks[v] ==> g.reaches(from, v)
}

proof fn lemma_reaches_self(g: ResolveView, v: int)
    requires
        0 <= v < g.nodes.len(),
    ensures
        g.reaches(v, v),
{
    let path = seq![v];
    assert(g.is_path(path) && path.first() == v && path.last() == v);
}

proof fn lemma_reaches_step(g: ResolveView, from: int, v: int, w: int)
    requires
        g.reaches(from, v),
        0 <= v < g.deps.len(),
        g.deps[v].contains(w),
        0 <= w < g.nodes.len(),
    ensures
        g.reaches(from, w),
{
    let path = choose|path: Seq<int>| #[trigger]
        g.is_path(path) && path.first() == from && path.last() == v;
    let longer = path.push(w);
    assert forall|k: int| 0 <= k < longer.len() - 1 implies g.deps[#[trigger] longer[k]].contains(
        longer[k + 1],
    ) by {
        if k < path.len() - 1 {
            assert(longer[k] == path[k]);
            assert(longer[k + 1] == path[k + 1]);
        }
    }
    assert(g.is_path(longer) && longer.first() == from && longer.last() == w);
}

proof fn lemma_settled_holds_path(g: ResolveView, marks: Seq<bool>, path: Seq<int>)
    requires
        marks.len() == g.nodes.len(),
        g.is_path(path),
        marks[path.first()],
        settled(g, marks, Seq::empty(), -1),
    ensures
        marks[path.last()],
    decreases path.len(),
{
    if path.len() > 1 {
        let shorter = path.drop_last();
        assert forall|k: int| 0 <= k < shorter.len() - 1 implies g.deps[#[trigger] shorter[k]].contains(
            shorter[k + 1],
        ) by {
            assert(shorter[k] == path[k]);
            assert(shorter[k + 1] == path[k + 1]);
        }
        assert(g.is_path(shorter));
        lemma_settled_holds_path(g, marks, shorter);
        let v = path[path.len() - 2];
        let w = path.last();
        assert(shorter.last() == v);
        assert(g.deps[v].contains(w));
        assert(!pending(Seq::<usize>::empty(), v));
    }
}

/// A vector of `n` entries, all equal to `value`.
pub fn filled(n: usize, value: bool) -> (r: Vec<bool>)
    ensures
        r.len() == n,
        forall|i: int| 0 <= i < n ==> r[i] == value,
{
    let mut r: Vec<bool> = Vec::new();
    while r.len() < n
        invariant
            r.len() <= n,
            forall|i: int| 0 <= i < r.len() ==> r[i] == value,
        decreases n - r.len(),
    {
        r.push(value);
    }
    r
}

/// Marks in `set` the node `dep` and everything it depends on, directly
/// or through other nodes. Entries already marked stay marked. The graph
/// may contain cycles.
pub fn fill_with_deps(resolve: &Resolve, dep: usize, set: &mut Vec<bool>)
    requires
        dep < resolve@.nodes.len(),
        old(set).len() == resolve@.nodes.len(),
    ensures
        final(set).len() == old(set).len(),
        forall|v: int|
            0 <= v < final(set).len() ==> final(set)[v] == (old(set)[v] || resolve@.reaches(
                dep as int,
                v,
            )),
{
    let n = resolve.len();
    let ghost g = resolve@;
    let ghost before = set@;
    let mut visited = filled(n, false);
    let mut stack: Vec<usize> = Vec::new();
    visited.set(dep, true);
    set.set(dep, true);
    stack.push(dep);
    proof {
        lemma_reaches_self(g, dep as int);
        assert(pending(stack@, dep as int)) by {
            assert(stack@[0] == dep);
        }
    }
    while stack.len() > 0
        invariant
            g == resolve@,
            g.wf(),
            n == g.nodes.len(),
            dep < n,
            visited.len() == n,
            set.len() == n,
            before.len() == n,
            visited[dep as int],
            forall|k: int| 0 <= k < stack.len() ==> stack[k] < n,
            sound(g, visited@, dep as int),
            settled(g, visited@, stack@, -1),
            forall|k: int| 0 <= k < stack.len() ==> visited[stack[k] as int],
            forall|v: int| 0 <= v < n ==> #[trigger] set[v] == (before[v] || visited[v]),
        decreases count_false(visited@), stack.len(),
    {
        let ghost stack_before = stack@;
        let ghost unseen = count_false(visited@);
        let v = stack.pop().unwrap();
        let row = resolve.deps(v);
        proof {
            assert forall|x: int| pending(stack_before, x) implies x == v || pending(stack@, x) by {
                let k = choose|k: int| 0 <= k < stack_before.len() && stack_before[k] == x;
                if k < stack@.len() {
                    assert(stack@[k] == x);
                }
            }
        }
        let mut k: usize = 0;
        while k < row.len()
            invariant
                0 <= k <= row.len(),
                g == resolve@,
                g.wf(),
                n == g.nodes.len(),
                dep < n,
                v < n,
                visited.len() == n,
                set.len() == n,
                before.len() == n,
                visited[dep as int],
                visited[v as int],
                crate::resolve::dep_set(row@) == g.deps[v as int],
                forall|m: int| 0 <= m < row.len() ==> row[m] < n,
                forall|m: int| 0 <= m < stack.len() ==> stack[m] < n,
                forall|m: int| 0 <= m < stack.len() ==> visited[stack[m] as int],
                forall|m: int| 0 <= m < k ==> visited[row[m] as int],
                sound(g, visited@, dep as int),
                settled(g, visited@, stack@, v as int),
                forall|x: int| 0 <= x < n ==> #[trigger] set[x] == (before[x] || visited[x]),
                count_false(visited@) <= unseen,
                count_false(visited@) == unseen ==> stack.len() + 1 == stack_before.len(),
            decreases row.len() - k,
        {
            let w = row[k];
            if !visited[w] {
                let ghost marks = visited@;
                let ghost waiting = stack@;
                proof {
                    lemma_count_false_update(visited@, w as int);
                    assert(g.deps[v as int].contains(w as int)) by {
                        assert(row@[k as int] == w);
                    }
                    lemma_reaches_step(g, dep as int, v as int, w as int);
                }
                visited.set(w, true);
                set.set(w, true);
                stack.push(w);
                proof {
                    assert forall|x: int| pending(waiting, x) implies pending(stack@, x) by {
                        let m = choose|m: int| 0 <= m < waiting.len() && waiting[m] == x;
                        assert(stack@[m] == x);
                    }
                    assert(pending(stack@, w as int)) by {
                        assert(stack@[stack.len() - 1] == w);
                    }
                    assert(settled(g, visited@, stack@, v as int)) by {
                        assert forall|a: int, b: int|
                            0 <= a < visited@.len() && visited@[a] && #[trigger] g.deps[a].contains(b)
                                && a != v && !pending(stack@, a) implies 0 <= b < visited@.len()
                            && visited@[b] by {
                            assert(a != w);
                            assert(marks[a]);
                            assert(!pending(waiting, a));
                        }
                    }
                }
            }
            k += 1;
        }
        proof {
            assert(settled(g, visited@, stack@, -1)) by {
                assert forall|a: int, b: int|
                    0 <= a < visited@.len() && visited@[a] && #[trigger] g.deps[a].contains(b)
                        && a != -1 && !pending(stack@, a) implies 0 <= b < visited@.len()
                    && visited@[b] by {
                    if a == v {
                        let m = choose|m: int| 0 <= m < row@.len() && #[trigger] row@[m] == b;
                        assert(visited@[row@[m] as int]);
                    }
                }
            }
        }
    }
    proof {
        assert forall|x: int| 0 <= x < set.len() implies #[trigger] set[x] == (before[x]
            || g.reaches(dep as int, x)) by {
            assert(visited[x] ==> g.reaches(dep as int, x));
            if g.reaches(dep as int, x) {
                let path = choose|path: Seq<int>| #[trigger]
                    g.is_path(path) && path.first() == dep as int && path.last() == x;
                assert(settled(g, visited@, Seq::empty(), -1)) by {
                    assert forall|a: int| !pending(Seq::<usize>::empty(), a) by {}
                    assert(stack@ =~= Seq::<usize>::empty());
                }
                lemma_settled_holds_path(g, visited@, path);
            }
        }
    }
}

} // verus!
