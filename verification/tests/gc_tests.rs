use gc_sim::collector::Gc;
use gc_sim::heap::Heap;
use gc_sim::test_utils::{assert_gc_count, build_sample_graph, disconnect, new_node};

#[test]
fn test_gc_with_shared_util() {
    let mut heap = Heap::new();
    let mut gc = Gc::new();
    let (a, _b, _c) = build_sample_graph(&mut gc, &mut heap);
    gc.collect_garbage(&heap, &vec![a]);
    assert!(assert_gc_count(&gc, 3, "基本構造"));
}

#[test]
fn test_gc_disconnected_node_is_collected() {
    let mut heap = Heap::new();
    let mut gc = Gc::new();
    let (a, b, c) = build_sample_graph(&mut gc, &mut heap);

    disconnect(&mut heap, b, c);
    gc.collect_garbage(&heap, &vec![a]);

    assert!(assert_gc_count(&gc, 2, "Cが切断された後"));
}

#[test]
fn test_gc_removes_isolated_node() {
    let mut heap = Heap::new();
    let mut gc = Gc::new();
    let _orphan = new_node(&mut gc, &mut heap, "孤立ノード");
    gc.collect_garbage(&heap, &Vec::new());
    assert!(assert_gc_count(&gc, 0, "孤立ノード削除"));
}

#[test]
fn test_gc_circular_reference_is_collected() {
    let mut heap = Heap::new();
    let mut gc = Gc::new();
    let a = new_node(&mut gc, &mut heap, "A");
    let b = new_node(&mut gc, &mut heap, "B");

    heap.add_child(a, b);
    heap.add_child(b, a);

    gc.collect_garbage(&heap, &Vec::new());
    assert!(assert_gc_count(&gc, 0, "循環参照でも削除"));
}
