//! The object graph a table of managed values spans, and what is reachable in it.
//!
//! A table maps address ids to values; the value under `from` has an edge to every id
//! it keeps. Walks may end at an id the table does not hold: such an id is dangling.
use crate::{Address, Keep};
use vstd::prelude::*;

verus! {

/// The value stored under `from` keeps the address with id `to`.
pub open spec fn edge<T: Keep>(m: Map<usize, T>, from: usize, to: usize) -> bool {
    &&& m.contains_key(from)
    &&& exists|i: int| 0 <= i < m[from].keeps().len() && (#[trigger] m[from].keeps()[i]).id() == to
}

/// The `i`-th step of `path` follows an edge of `m`.
pub open spec fn walk_step<T: Keep>(m: Map<usize, T>, path: Seq<usize>, i: int) -> bool {
    edge(m, path[i], path[i + 1])
}

/// `path` is a non-empty walk along edges of `m`.
pub open spec fn is_walk<T: Keep>(m: Map<usize, T>, path: Seq<usize>) -> bool {
    &&& path.len() > 0
    &&& forall|i: int| 0 <= i < path.len() - 1 ==> #[trigger] walk_step(m, path, i)
}

/// Some walk of `m` leads from `from` to `to`.
pub open spec fn reaches<T: Keep>(m: Map<usize, T>, from: usize, to: usize) -> bool {
    exists|path: Seq<usize>| #[trigger] is_walk(m, path) && path[0] == from && path.last() == to
}

/// The ids reachable from the root; none when no root is set.
pub open spec fn reachable_set<T: Keep>(m: Map<usize, T>, root: Option<Address>) -> Set<usize> {
    match root {
        None => Set::empty(),
        Some(r) => Set::new(|id: usize| reaches(m, r.id(), id)),
    }
}

/// Every id reachable from the root is held by the table: a collecting pass succeeds.
pub open spec fn traceable<T: Keep>(m: Map<usize, T>, root: Option<Address>) -> bool {
    reachable_set(m, root).subset_of(m.dom())
}

/// The table that a successful collecting pass leaves: the reachable entries.
pub open spec fn collected<T: Keep>(m: Map<usize, T>, root: Option<Address>) -> Map<usize, T> {
    m.restrict(reachable_set(m, root))
}

/// The table a collecting pass leaves: the collected one when the pass succeeds, the
/// same one when it fails.
pub open spec fn after_collect<T: Keep>(m: Map<usize, T>, root: Option<Address>) -> Map<usize, T> {
    if traceable(m, root) {
        collected(m, root)
    } else {
        m
    }
}

/// Every id reaches itself.
pub proof fn lemma_reaches_self<T: Keep>(m: Map<usize, T>, id: usize)
    ensures
        reaches(m, id, id),
{
    let path = seq![id];
    assert(is_walk(m, path));
}

/// Reachability extends along one more edge.
pub proof fn lemma_reaches_step<T: Keep>(m: Map<usize, T>, from: usize, mid: usize, to: usize)
    requires
        reaches(m, from, mid),
        edge(m, mid, to),
    ensures
        reaches(m, from, to),
{
    let path = choose|path: Seq<usize>| #[trigger] is_walk(m, path) && path[0] == from && path.last() == mid;
    let longer = path.push(to);
    assert forall|i: int| 0 <= i < longer.len() - 1 implies #[trigger] walk_step(m, longer, i) by {
        if i < path.len() - 1 {
            assert(walk_step(m, path, i));
        }
    }
    assert(is_walk(m, longer));
}

/// Each node of a walk is reached from its start.
pub proof fn lemma_walk_node_reached<T: Keep>(m: Map<usize, T>, path: Seq<usize>, i: int)
    requires
        is_walk(m, path),
        0 <= i < path.len(),
    ensures
        reaches(m, path[0], path[i]),
{
    let prefix = path.take(i + 1);
    assert forall|j: int| 0 <= j < prefix.len() - 1 implies #[trigger] walk_step(m, prefix, j) by {
        assert(walk_step(m, path, j));
    }
    assert(is_walk(m, prefix));
}

/// Collecting leaves every reachable id, and nothing else, reachable.
proof fn lemma_collected_same_reachable<T: Keep>(m: Map<usize, T>, root: Option<Address>)
    requires
        traceable(m, root),
    ensures
        reachable_set(collected(m, root), root) == reachable_set(m, root),
{
    let c = collected(m, root);
    if let Some(r) = root {
        assert forall|id: usize| reaches(c, r.id(), id) implies reaches(m, r.id(), id) by {
            let path = choose|path: Seq<usize>| #[trigger] is_walk(c, path) && path[0] == r.id() && path.last() == id;
            assert forall|i: int| 0 <= i < path.len() - 1 implies #[trigger] walk_step(m, path, i) by {
                assert(walk_step(c, path, i));
                let k = choose|k: int| 0 <= k < c[path[i]].keeps().len() && (#[trigger] c[path[i]].keeps()[k]).id() == path[i + 1];
                assert(m[path[i]].keeps()[k].id() == path[i + 1]);
            }
            assert(is_walk(m, path));
        }
        assert forall|id: usize| reaches(m, r.id(), id) implies reaches(c, r.id(), id) by {
            let path = choose|path: Seq<usize>| #[trigger] is_walk(m, path) && path[0] == r.id() && path.last() == id;
            assert forall|i: int| 0 <= i < path.len() - 1 implies #[trigger] walk_step(c, path, i) by {
                assert(walk_step(m, path, i));
                lemma_walk_node_reached(m, path, i);
                assert(reachable_set(m, root).contains(path[i]));
                let k = choose|k: int| 0 <= k < m[path[i]].keeps().len() && (#[trigger] m[path[i]].keeps()[k]).id() == path[i + 1];
                assert(c[path[i]].keeps()[k].id() == path[i + 1]);
            }
            assert(is_walk(c, path));
        }
        assert(reachable_set(c, root) =~= reachable_set(m, root));
    } else {
        assert(reachable_set(c, root) =~= reachable_set(m, root));
    }
}

/// Collecting twice in a row with nothing in between: the second pass leaves the table
/// the first one left, so both report the same alive count.
pub proof fn lemma_collect_idempotent<T: Keep>(m: Map<usize, T>, root: Option<Address>)
    ensures
        after_collect(after_collect(m, root), root) == after_collect(m, root),
        after_collect(after_collect(m, root), root).len() == after_collect(m, root).len(),
{
    if traceable(m, root) {
        let c = collected(m, root);
        lemma_collected_same_reachable(m, root);
        assert(traceable(c, root));
        assert(collected(c, root) =~= c);
    }
}

/// Two tables with the same ids, whose values report the same addresses, span the same
/// graph: the same ids are reachable, and a collecting pass succeeds on both or on
/// neither.
pub proof fn lemma_same_edges_same_reachable<T: Keep>(
    m1: Map<usize, T>,
    m2: Map<usize, T>,
    root: Option<Address>,
)
    requires
        m1.dom() == m2.dom(),
        forall|k: usize| #[trigger] m1.contains_key(k) ==> m1[k].keeps() == m2[k].keeps(),
    ensures
        reachable_set(m1, root) == reachable_set(m2, root),
        traceable(m1, root) == traceable(m2, root),
{
    assert forall|x: usize, y: usize| #[trigger] edge(m1, x, y) == edge(m2, x, y) by {
        if m1.contains_key(x) {
            assert(m1[x].keeps() == m2[x].keeps());
        }
    }
    assert forall|path: Seq<usize>| #[trigger] is_walk(m1, path) <==> is_walk(m2, path) by {
        if is_walk(m1, path) {
            assert forall|i: int| 0 <= i < path.len() - 1 implies #[trigger] walk_step(m2, path, i) by {
                assert(walk_step(m1, path, i));
                assert(edge(m1, path[i], path[i + 1]) == edge(m2, path[i], path[i + 1]));
            }
        }
        if is_walk(m2, path) {
            assert forall|i: int| 0 <= i < path.len() - 1 implies #[trigger] walk_step(m1, path, i) by {
                assert(walk_step(m2, path, i));
                assert(edge(m1, path[i], path[i + 1]) == edge(m2, path[i], path[i + 1]));
            }
        }
    }
    if let Some(r) = root {
        assert forall|id: usize| reaches(m1, r.id(), id) <==> reaches(m2, r.id(), id) by {
            if reaches(m1, r.id(), id) {
                let path = choose|path: Seq<usize>| #[trigger] is_walk(m1, path) && path[0] == r.id() && path.last() == id;
                assert(is_walk(m2, path));
            }
            if reaches(m2, r.id(), id) {
                let path = choose|path: Seq<usize>| #[trigger] is_walk(m2, path) && path[0] == r.id() && path.last() == id;
                assert(is_walk(m1, path));
            }
        }
    }
    assert(reachable_set(m1, root) =~= reachable_set(m2, root));
}

/// A set that holds `from` and is closed under the edges of `m` holds every node of a
/// walk from `from`.
proof fn lemma_closed_holds_walk<T: Keep>(m: Map<usize, T>, s: Set<usize>, path: Seq<usize>)
    requires
        is_walk(m, path),
        s.contains(path[0]),
        forall|x: usize, y: usize| s.contains(x) && #[trigger] edge(m, x, y) ==> s.contains(y),
    ensures
        s.contains(path.last()),
    decreases path.len(),
{
    if path.len() > 1 {
        let prefix = path.drop_last();
        assert forall|i: int| 0 <= i < prefix.len() - 1 implies #[trigger] walk_step(m, prefix, i) by {
            assert(walk_step(m, path, i));
        }
        lemma_closed_holds_walk(m, s, prefix);
        assert(walk_step(m, path, path.len() - 2));
    }
}

/// A set that holds `from` and is closed under the edges of `m` holds every id that
/// `from` reaches.
pub proof fn lemma_closed_holds_reachable<T: Keep>(m: Map<usize, T>, s: Set<usize>, from: usize)
    requires
        s.contains(from),
        forall|x: usize, y: usize| s.contains(x) && #[trigger] edge(m, x, y) ==> s.contains(y),
    ensures
        forall|id: usize| reaches(m, from, id) ==> s.contains(id),
{
    assert forall|id: usize| reaches(m, from, id) implies s.contains(id) by {
        let path = choose|path: Seq<usize>| #[trigger] is_walk(m, path) && path[0] == from && path.last() == id;
        lemma_closed_holds_walk(m, s, path);
    }
}

} // verus!
