//! The collector's laws: what holds of every graph and every root set,
//! proved once over the model that `collect_garbage`'s contract exposes.

use vstd::prelude::*;

use crate::collector::{collect_keep, collected};
use crate::heap::Node;
use crate::reach::{child_seq, edge, is_path, live_at, reachable, reaches};
use crate::seq_facts::{lemma_filter_all_false, lemma_filter_all_true, lemma_filter_membership,
    lemma_filter_monotone, lemma_filter_no_duplicates};

verus! {

/// The ids that resolve to an owned node and are reachable from the roots.
pub open spec fn live_reachable_ids(slots: Seq<Option<Node>>, roots: Seq<usize>) -> Set<usize> {
    Set::new(|id: usize| live_at(slots, id) && reachable(slots, roots, id))
}

/// Reachability soundness: when every node is registered exactly once,
/// the registry a collection leaves holds exactly the registered ids that
/// are owned and reachable from the roots — none is falsely collected and
/// none leaks — so its length counts those ids.
pub proof fn lemma_reachability_soundness(
    objects: Seq<usize>,
    slots: Seq<Option<Node>>,
    roots: Seq<usize>,
)
    requires
        objects.no_duplicates(),
    ensures
        forall|id: usize|
            collected(objects, slots, roots).contains(id) <==> objects.contains(id) && live_at(
                slots,
                id,
            ) && reachable(slots, roots, id),
        collected(objects, slots, roots).no_duplicates(),
        collected(objects, slots, roots).len() == objects.to_set().intersect(
            live_reachable_ids(slots, roots),
        ).len(),
{
    let pred = collect_keep(slots, roots);
    let col = collected(objects, slots, roots);
    assert forall|id: usize| col.contains(id) <==> objects.contains(id) && live_at(slots, id)
        && reachable(slots, roots, id) by {
        lemma_filter_membership(objects, pred, id);
    }
    lemma_filter_no_duplicates(objects, pred);
    col.unique_seq_to_set();
    assert(col.to_set() =~= objects.to_set().intersect(live_reachable_ids(slots, roots)));
}

/// Idempotence: collecting a second time with the same roots and an
/// unchanged graph keeps the registry exactly as the first collection
/// left it.
pub proof fn lemma_collect_idempotent(
    objects: Seq<usize>,
    slots: Seq<Option<Node>>,
    roots: Seq<usize>,
)
    ensures
        collected(collected(objects, slots, roots), slots, roots) == collected(
            objects,
            slots,
            roots,
        ),
{
    let pred = collect_keep(slots, roots);
    let col = collected(objects, slots, roots);
    assert forall|i: int| 0 <= i < col.len() implies pred(#[trigger] col[i]) by {
        objects.lemma_filter_pred(pred, i);
    }
    lemma_filter_all_true(col, pred);
}

/// Total collection on empty roots: with no root nothing is reachable,
/// so a collection with an empty root set empties the registry whatever
/// the graph looks like.
pub proof fn lemma_empty_roots_total_collection(objects: Seq<usize>, slots: Seq<Option<Node>>)
    ensures
        collected(objects, slots, Seq::<usize>::empty()) == Seq::<usize>::empty(),
{
    let pred = collect_keep(slots, Seq::<usize>::empty());
    assert forall|i: int| 0 <= i < objects.len() implies !pred(#[trigger] objects[i]) by {
        assert(!reachable(slots, Seq::<usize>::empty(), objects[i]));
    }
    lemma_filter_all_false(objects, pred);
}

/// Edge removal affects the future, not the past: after `remove_child`'s
/// change of the graph — stated here exactly as its contract states it —
/// everything reachable is reachable in the old graph too, so the next
/// collection keeps no entry the old graph would have dropped. A count
/// already reported was a pure read of the registry, which the removal
/// never touches.
pub proof fn lemma_edge_removal_only_shrinks(
    before: Seq<Option<Node>>,
    after: Seq<Option<Node>>,
    parent: usize,
    target: usize,
    objects: Seq<usize>,
    roots: Seq<usize>,
)
    requires
        after.len() == before.len(),
        forall|j: int| 0 <= j < before.len() && j != parent ==> after[j] == before[j],
        live_at(before, parent),
        live_at(after, parent),
        child_seq(after, parent) == child_seq(before, parent).filter(|c: usize| c != target),
    ensures
        forall|id: usize| reachable(after, roots, id) ==> reachable(before, roots, id),
        collected(objects, after, roots).len() <= collected(objects, before, roots).len(),
{
    assert forall|x: usize| live_at(after, x) implies live_at(before, x) by {
        if x != parent {
            assert(after[x as int] == before[x as int]);
        }
    }
    assert forall|x: usize, y: usize| #[trigger] edge(after, x, y) implies edge(before, x, y) by {
        if x == parent {
            lemma_filter_membership(child_seq(before, parent), |c: usize| c != target, y);
        } else {
            assert(after[x as int] == before[x as int]);
        }
    }
    assert forall|id: usize| reachable(after, roots, id) implies reachable(
        before,
        roots,
        id,
    ) by {
        let k: int = choose|k: int| 0 <= k < roots.len() && #[trigger] reaches(
            after,
            roots[k],
            id,
        );
        let p = choose|p: Seq<usize>| #[trigger] is_path(after, p) && p.first() == roots[k]
            && p.last() == id;
        assert forall|i: int| 0 <= i < p.len() - 1 implies #[trigger] edge(
            before,
            p[i],
            p[i + 1],
        ) by {
            assert(edge(after, p[i], p[i + 1]));
        }
        assert(is_path(before, p));
        assert(reaches(before, roots[k], id));
    }
    assert forall|i: int| 0 <= i < objects.len() implies (collect_keep(after, roots)(
        #[trigger] objects[i],
    ) ==> collect_keep(before, roots)(objects[i])) by {
        let id = objects[i];
        if live_at(after, id) && reachable(after, roots, id) {
            assert(live_at(before, id));
        }
    }
    lemma_filter_monotone(objects, collect_keep(after, roots), collect_keep(before, roots));
}

} // verus!
