use gc_sim::collector::Gc;
use gc_sim::heap::{Heap, Node};
use gc_sim::test_utils::new_node;

// The sample graph of the demonstration: A -> B, A -> C, B -> D. All four
// nodes are registered before any collection runs.
fn demo_graph() -> (Heap, Gc, usize, usize, usize, usize) {
    let mut heap = Heap::new();
    let mut gc = Gc::new();
    let a = new_node(&mut gc, &mut heap, "A");
    let b = new_node(&mut gc, &mut heap, "B");
    let c = new_node(&mut gc, &mut heap, "C");
    let d = new_node(&mut gc, &mut heap, "D");
    heap.add_child(a, b);
    heap.add_child(a, c);
    heap.add_child(b, d);
    (heap, gc, a, b, c, d)
}

#[test]
fn demo_counts_before_and_after_collections() {
    let (mut heap, mut gc, a, _b, c, _d) = demo_graph();
    assert_eq!(gc.count_objects(), 4);

    gc.collect_garbage(&heap, &vec![a]);
    assert_eq!(gc.count_objects(), 4);

    heap.remove_child(a, c);
    gc.collect_garbage(&heap, &vec![a]);
    assert_eq!(gc.count_objects(), 3);
}

#[test]
fn collection_is_idempotent() {
    let (heap, mut gc, a, _b, _c, _d) = demo_graph();
    gc.collect_garbage(&heap, &vec![a]);
    let first = gc.count_objects();
    gc.collect_garbage(&heap, &vec![a]);
    assert_eq!(gc.count_objects(), first);
}

#[test]
fn edge_removal_changes_next_collection_not_past_count() {
    let (mut heap, mut gc, a, b, _c, d) = demo_graph();
    gc.collect_garbage(&heap, &vec![a]);
    let past = gc.count_objects();
    assert_eq!(past, 4);

    heap.remove_child(b, d);
    // The count already taken is untouched by the edge removal.
    assert_eq!(gc.count_objects(), past);

    gc.collect_garbage(&heap, &vec![a]);
    assert_eq!(gc.count_objects(), 3);
}

#[test]
fn empty_roots_empty_every_shape() {
    let (heap, mut gc, _a, _b, _c, _d) = demo_graph();
    gc.collect_garbage(&heap, &Vec::new());
    assert_eq!(gc.count_objects(), 0);
}

#[test]
fn dropped_node_entry_is_swept_and_reference_goes_stale() {
    let mut heap = Heap::new();
    let mut gc = Gc::new();
    let a = new_node(&mut gc, &mut heap, "A");
    let b = new_node(&mut gc, &mut heap, "B");
    heap.add_child(a, b);

    heap.drop_node(b);
    assert!(!heap.is_live(b));

    // B's registry entry is gone (its owner dropped it) and the stale
    // A -> B edge is silently skipped by the traversal.
    gc.collect_garbage(&heap, &vec![a]);
    assert_eq!(gc.count_objects(), 1);
}

#[test]
fn dead_root_marks_nothing() {
    let mut heap = Heap::new();
    let mut gc = Gc::new();
    let x = new_node(&mut gc, &mut heap, "X");
    heap.drop_node(x);
    gc.collect_garbage(&heap, &vec![x]);
    assert_eq!(gc.count_objects(), 0);
}

#[test]
fn duplicate_edges_are_harmless() {
    let mut heap = Heap::new();
    let mut gc = Gc::new();
    let a = new_node(&mut gc, &mut heap, "A");
    let b = new_node(&mut gc, &mut heap, "B");
    heap.add_child(a, b);
    heap.add_child(a, b);
    gc.collect_garbage(&heap, &vec![a]);
    assert_eq!(gc.count_objects(), 2);
}

#[test]
fn double_registration_keeps_both_entries() {
    let mut heap = Heap::new();
    let mut gc = Gc::new();
    let a = new_node(&mut gc, &mut heap, "A");
    gc.register(a);
    assert_eq!(gc.count_objects(), 2);
    gc.collect_garbage(&heap, &vec![a]);
    assert_eq!(gc.count_objects(), 2);
    gc.collect_garbage(&heap, &Vec::new());
    assert_eq!(gc.count_objects(), 0);
}

#[test]
fn remove_child_drops_every_matching_edge() {
    let mut heap = Heap::new();
    let mut gc = Gc::new();
    let a = new_node(&mut gc, &mut heap, "A");
    let b = new_node(&mut gc, &mut heap, "B");
    heap.add_child(a, b);
    heap.add_child(a, b);
    heap.remove_child(a, b);
    gc.collect_garbage(&heap, &vec![a]);
    assert_eq!(gc.count_objects(), 1);
}

#[test]
fn remove_child_leaves_stale_entries_alone() {
    let mut heap = Heap::new();
    let mut gc = Gc::new();
    let a = new_node(&mut gc, &mut heap, "A");
    let b = new_node(&mut gc, &mut heap, "B");
    let c = new_node(&mut gc, &mut heap, "C");
    heap.add_child(a, b);
    heap.add_child(a, c);
    heap.drop_node(b);
    // Removing the A -> C edge must not disturb the stale A -> B entry.
    heap.remove_child(a, c);
    gc.collect_garbage(&heap, &vec![a]);
    assert_eq!(gc.count_objects(), 1);
}

#[test]
fn fresh_node_has_label_and_no_children() {
    let n = Node::new("N");
    assert_eq!(n.name, "N".to_string());
    assert_eq!(n.children.len(), 0);
}

#[test]
fn create_makes_nodes_live_in_order() {
    let mut heap = Heap::new();
    let a = heap.create("A");
    let b = heap.create("B");
    assert_eq!(a, 0);
    assert_eq!(b, 1);
    assert!(heap.is_live(a));
    assert!(heap.is_live(b));
    assert!(!heap.is_live(2));
}

#[test]
fn collector_on_empty_heap_is_a_no_op() {
    let heap = Heap::new();
    let mut gc = Gc::new();
    assert_eq!(gc.count_objects(), 0);
    gc.collect_garbage(&heap, &Vec::new());
    assert_eq!(gc.count_objects(), 0);
}

#[test]
fn shared_subgraph_is_counted_once() {
    // A -> C and B -> C, both roots: C is registered once, counted once.
    let mut heap = Heap::new();
    let mut gc = Gc::new();
    let a = new_node(&mut gc, &mut heap, "A");
    let b = new_node(&mut gc, &mut heap, "B");
    let c = new_node(&mut gc, &mut heap, "C");
    heap.add_child(a, c);
    heap.add_child(b, c);
    gc.collect_garbage(&heap, &vec![a, b]);
    assert_eq!(gc.count_objects(), 3);
}

#[test]
fn cycle_reachable_from_root_survives() {
    let mut heap = Heap::new();
    let mut gc = Gc::new();
    let a = new_node(&mut gc, &mut heap, "A");
    let b = new_node(&mut gc, &mut heap, "B");
    heap.add_child(a, b);
    heap.add_child(b, a);
    gc.collect_garbage(&heap, &vec![a]);
    assert_eq!(gc.count_objects(), 2);
}

#[test]
fn stale_mark_state_does_not_leak_between_collections() {
    // First collection marks A and B; after cutting A -> B the second
    // collection must not treat B as still marked.
    let mut heap = Heap::new();
    let mut gc = Gc::new();
    let a = new_node(&mut gc, &mut heap, "A");
    let b = new_node(&mut gc, &mut heap, "B");
    heap.add_child(a, b);
    gc.collect_garbage(&heap, &vec![a]);
    assert_eq!(gc.count_objects(), 2);
    heap.remove_child(a, b);
    gc.collect_garbage(&heap, &vec![a]);
    assert_eq!(gc.count_objects(), 1);
}
