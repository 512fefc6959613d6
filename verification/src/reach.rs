//! Reachability over the object graph, stated on the heap's view.
//!
//! A node is reachable from a root when some walk of live nodes leads from
//! the root to it. Absent slots take part in no edge, so a stale child
//! entry contributes nothing to reachability.

use vstd::prelude::*;

use crate::heap::Node;

verus! {

/// Whether slot `id` currently holds an owned node.
pub open spec fn live_at(slots: Seq<Option<Node>>, id: usize) -> bool {
    id < slots.len() && slots[id as int] is Some
}

/// The child entries of the node in slot `id`.
pub open spec fn child_seq(slots: Seq<Option<Node>>, id: usize) -> Seq<usize> {
    slots[id as int]->0.children@
}

/// The label of the node in slot `id`.
pub open spec fn node_name(slots: Seq<Option<Node>>, id: usize) -> Seq<char> {
    slots[id as int]->0.name@
}

/// One step of the graph: both ends resolve to owned nodes and `to`
/// stands in `from`'s child list.
pub open spec fn edge(slots: Seq<Option<Node>>, from: usize, to: usize) -> bool {
    live_at(slots, from) && live_at(slots, to) && child_seq(slots, from).contains(to)
}

/// A walk through the graph: at least one node, alive at the start, with
/// an edge between each consecutive pair.
pub open spec fn is_path(slots: Seq<Option<Node>>, p: Seq<usize>) -> bool {
    &&& p.len() >= 1
    &&& live_at(slots, p[0])
    &&& forall|i: int| 0 <= i < p.len() - 1 ==> #[trigger] edge(slots, p[i], p[i + 1])
}

/// `id` is transitively reachable from `root`. Holds only when both
/// resolve to owned nodes.
pub open spec fn reaches(slots: Seq<Option<Node>>, root: usize, id: usize) -> bool {
    exists|p: Seq<usize>| #[trigger] is_path(slots, p) && p.first() == root && p.last() == id
}

/// `id` is reachable from at least one of the given roots.
pub open spec fn reachable(slots: Seq<Option<Node>>, roots: Seq<usize>, id: usize) -> bool {
    exists|k: int| 0 <= k < roots.len() && #[trigger] reaches(slots, roots[k], id)
}

/// A live node reaches itself, by the walk of one node.
pub proof fn lemma_reaches_self(slots: Seq<Option<Node>>, root: usize)
    requires
        live_at(slots, root),
    ensures
        reaches(slots, root, root),
{
    let p = seq![root];
    assert(is_path(slots, p));
    assert(p.first() == root && p.last() == root);
}

/// Both ends of a reach are live.
pub proof fn lemma_reaches_live(slots: Seq<Option<Node>>, root: usize, id: usize)
    requires
        reaches(slots, root, id),
    ensures
        live_at(slots, root),
        live_at(slots, id),
{
    let p = choose|p: Seq<usize>| #[trigger] is_path(slots, p) && p.first() == root && p.last() == id;
    assert(live_at(slots, p[0]));
    if p.len() >= 2 {
        assert(edge(slots, p[p.len() - 2], p[p.len() - 2 + 1]));
    }
}

/// Reach extends along one further edge.
pub proof fn lemma_reaches_step(slots: Seq<Option<Node>>, root: usize, x: usize, y: usize)
    requires
        reaches(slots, root, x),
        edge(slots, x, y),
    ensures
        reaches(slots, root, y),
{
    let p = choose|p: Seq<usize>| #[trigger] is_path(slots, p) && p.first() == root && p.last() == x;
    let q = p.push(y);
    assert forall|i: int| 0 <= i < q.len() - 1 implies #[trigger] edge(slots, q[i], q[i + 1]) by {
        if i < p.len() - 1 {
            assert(edge(slots, p[i], p[i + 1]));
        } else {
            assert(q[i] == p.last());
            assert(q[i + 1] == y);
        }
    }
    assert(is_path(slots, q));
    assert(q.first() == root && q.last() == y);
}

/// Every node of a walk whose start is in a mark table that is closed
/// under edges is in the table; in particular the walk's end.
proof fn lemma_path_marked(slots: Seq<Option<Node>>, m: Seq<bool>, p: Seq<usize>)
    requires
        m.len() == slots.len(),
        is_path(slots, p),
        m[p[0] as int],
        forall|x: usize, y: usize|
            x < m.len() && m[x as int] && #[trigger] edge(slots, x, y) ==> m[y as int],
    ensures
        p.last() < m.len(),
        m[p.last() as int],
    decreases p.len(),
{
    if p.len() == 1 {
        assert(p.last() == p[0]);
        assert(live_at(slots, p[0]));
    } else {
        let q = p.drop_last();
        assert forall|i: int| 0 <= i < q.len() - 1 implies #[trigger] edge(slots, q[i], q[i + 1]) by {
            assert(edge(slots, p[i], p[i + 1]));
        }
        assert(is_path(slots, q));
        lemma_path_marked(slots, m, q);
        assert(edge(slots, p[p.len() - 2], p[p.len() - 2 + 1]));
        assert(q.last() == p[p.len() - 2]);
    }
}

/// A mark table that contains a root and is closed under edges contains
/// everything the root reaches.
pub proof fn lemma_closed_contains_reach(
    slots: Seq<Option<Node>>,
    m: Seq<bool>,
    root: usize,
    id: usize,
)
    requires
        m.len() == slots.len(),
        reaches(slots, root, id),
        m[root as int],
        forall|x: usize, y: usize|
            x < m.len() && m[x as int] && #[trigger] edge(slots, x, y) ==> m[y as int],
    ensures
        id < m.len(),
        m[id as int],
{
    let p = choose|p: Seq<usize>| #[trigger] is_path(slots, p) && p.first() == root && p.last() == id;
    lemma_path_marked(slots, m, p);
}

} // verus!
