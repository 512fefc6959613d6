//! Host-level helpers: the small moves a host program makes around the
//! collector, with the same contracts spelled out in one place.

use vstd::prelude::*;

use crate::collector::Gc;
use crate::heap::Heap;
use crate::reach::{child_seq, live_at, node_name};

verus! {

/// Allocates a node and registers it with the collector in one step.
pub fn new_node(gc: &mut Gc, heap: &mut Heap, name: &str) -> (id: usize)
    ensures
        id == old(heap)@.len(),
        final(heap)@.len() == old(heap)@.len() + 1,
        forall|j: int| 0 <= j < old(heap)@.len() ==> final(heap)@[j] == old(heap)@[j],
        live_at(final(heap)@, id),
        node_name(final(heap)@, id) == name@,
        child_seq(final(heap)@, id) == Seq::<usize>::empty(),
        final(gc)@ == old(gc)@.push(id),
{
    let id: usize = heap.create(name);
    gc.register(id);
    id
}

/// Drops every edge from `parent` that resolves to `target`: the host
/// letting one reference go before the next collection cycle.
pub fn disconnect(heap: &mut Heap, parent: usize, target: usize)
    requires
        live_at(old(heap)@, parent),
        live_at(old(heap)@, target),
    ensures
        final(heap)@.len() == old(heap)@.len(),
        forall|j: int| 0 <= j < old(heap)@.len() && j != parent ==> final(heap)@[j] == old(
            heap,
        )@[j],
        live_at(final(heap)@, parent),
        node_name(final(heap)@, parent) == node_name(old(heap)@, parent),
        child_seq(final(heap)@, parent) == child_seq(old(heap)@, parent).filter(
            |c: usize| c != target,
        ),
{
    heap.remove_child(parent, target);
}

/// Whether the registry currently holds exactly `expected` entries.
pub fn assert_gc_count(gc: &Gc, expected: usize, _context: &str) -> (ok: bool)
    ensures
        ok == (gc@.len() == expected),
{
    gc.count_objects() == expected
}

/// Three fresh registered nodes labelled A, B and C, linked A -> B -> C.
pub fn build_sample_graph(gc: &mut Gc, heap: &mut Heap) -> (ids: (usize, usize, usize))
    ensures
        ids.0 == old(heap)@.len() && ids.1 == old(heap)@.len() + 1 && ids.2 == old(heap)@.len()
            + 2,
        final(heap)@.len() == old(heap)@.len() + 3,
        forall|j: int| 0 <= j < old(heap)@.len() ==> final(heap)@[j] == old(heap)@[j],
        live_at(final(heap)@, ids.0),
        live_at(final(heap)@, ids.1),
        live_at(final(heap)@, ids.2),
        node_name(final(heap)@, ids.0) == "A"@,
        node_name(final(heap)@, ids.1) == "B"@,
        node_name(final(heap)@, ids.2) == "C"@,
        child_seq(final(heap)@, ids.0) == seq![ids.1],
        child_seq(final(heap)@, ids.1) == seq![ids.2],
        child_seq(final(heap)@, ids.2) == Seq::<usize>::empty(),
        final(gc)@ == old(gc)@ + seq![ids.0, ids.1, ids.2],
{
    let a: usize = new_node(gc, heap, "A");
    let b: usize = new_node(gc, heap, "B");
    let c: usize = new_node(gc, heap, "C");
    heap.add_child(a, b);
    heap.add_child(b, c);
    proof {
        assert(child_seq(heap@, a) =~= seq![b]);
        assert(child_seq(heap@, b) =~= seq![c]);
        assert(gc@ =~= old(gc)@ + seq![a, b, c]);
    }
    (a, b, c)
}

} // verus!
