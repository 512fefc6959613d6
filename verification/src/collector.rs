//! The collector: a non-owning registry of every node ever registered,
//! compacted by mark-and-sweep.
//!
//! `collect_garbage` marks everything transitively reachable from the
//! given roots, then keeps exactly the registry entries whose node is
//! still owned and was marked. The whole effect is one `Seq::filter` of
//! the registry, which the laws build on.

use vstd::prelude::*;

use crate::heap::Heap;
use crate::heap::Node;
use crate::reach::{child_seq, edge, lemma_closed_contains_reach, lemma_reaches_live,
    lemma_reaches_self, lemma_reaches_step, live_at, reachable, reaches};
use crate::seq_facts::{lemma_filter_congruence, lemma_filter_unfold};

verus! {

/// The entries a sweep keeps: those whose node is still owned and stands
/// in the mark table.
pub open spec fn sweep_keep(slots: Seq<Option<Node>>, m: Seq<bool>) -> spec_fn(usize) -> bool {
    |id: usize| live_at(slots, id) && m[id as int]
}

/// The entries a whole collection keeps: those whose node is still owned
/// and reachable from the roots.
pub open spec fn collect_keep(slots: Seq<Option<Node>>, roots: Seq<usize>) -> spec_fn(
    usize,
) -> bool {
    |id: usize| live_at(slots, id) && reachable(slots, roots, id)
}

/// The registry after one collection with the given roots.
pub open spec fn collected(
    objects: Seq<usize>,
    slots: Seq<Option<Node>>,
    roots: Seq<usize>,
) -> Seq<usize> {
    objects.filter(collect_keep(slots, roots))
}

/// How many entries of a mark table are still false; the measure that
/// shrinks whenever the mark phase visits a new node.
pub open spec fn count_unmarked(m: Seq<bool>) -> nat
    decreases m.len(),
{
    if m.len() == 0 {
        0
    } else {
        count_unmarked(m.drop_last()) + (if m.last() {
            0nat
        } else {
            1nat
        })
    }
}

/// Marking one unmarked entry strictly shrinks the unmarked count.
proof fn lemma_count_unmarked_update(m: Seq<bool>, i: int)
    requires
        0 <= i < m.len(),
        !m[i],
    ensures
        count_unmarked(m.update(i, true)) < count_unmarked(m),
    decreases m.len(),
{
    let u = m.update(i, true);
    if i == m.len() - 1 {
        assert(u.drop_last() =~= m.drop_last());
    } else {
        assert(u.drop_last() =~= m.drop_last().update(i, true));
        assert(u.last() == m.last());
        lemma_count_unmarked_update(m.drop_last(), i);
    }
}

/// The liveness ledger: one non-owning entry per registered node.
pub struct Gc {
    pub objects: Vec<usize>,
}

impl View for Gc {
    type V = Seq<usize>;

    open spec fn view(&self) -> Seq<usize> {
        self.objects@
    }
}

impl Gc {
    /// A collector with an empty registry.
    pub fn new() -> (gc: Gc)
        ensures
            gc@ == Seq::<usize>::empty(),
    {
        Gc { objects: Vec::new() }
    }

    /// Appends one non-owning entry for `obj`. Registering a node twice
    /// appends twice; nothing prevents it.
    pub fn register(&mut self, obj: usize)
        ensures
            final(self)@ == old(self)@.push(obj),
    {
        self.objects.push(obj);
    }

    /// Current registry size; a pure read.
    pub fn count_objects(&self) -> (n: usize)
        ensures
            n == self@.len(),
    {
        self.objects.len()
    }

    /// The mark phase for one root: an iterative traversal that sets the
    /// table entry of every node reachable from `root`, skipping entries
    /// already set and references that resolve to absent. A root that is
    /// itself absent marks nothing.
    pub fn mark(&self, heap: &Heap, root: usize, marked: &mut Vec<bool>)
        requires
            old(marked)@.len() == heap@.len(),
        ensures
            final(marked)@.len() == old(marked)@.len(),
            forall|x: int| 0 <= x < old(marked)@.len() && old(marked)@[x] ==> final(marked)@[x],
            forall|x: usize|
                x < final(marked)@.len() && final(marked)@[x as int] && !old(marked)@[x as int]
                    ==> reaches(heap@, root, x),
            live_at(heap@, root) ==> final(marked)@[root as int],
            forall|x: usize, y: usize|
                x < final(marked)@.len() && final(marked)@[x as int] && !old(marked)@[x as int]
                    && #[trigger] edge(heap@, x, y) ==> final(marked)@[y as int],
    {
        let ghost m0 = marked@;
        let mut stack: Vec<usize> = Vec::new();
        stack.push(root);
        proof {
            assert(stack@[0] == root);
            assert(stack@.contains(root));
        }
        while stack.len() != 0
            invariant
                marked@.len() == m0.len(),
                m0.len() == heap@.len(),
                forall|x: int| 0 <= x < m0.len() && m0[x] ==> marked@[x],
                forall|x: usize|
                    x < marked@.len() && marked@[x as int] && !m0[x as int]
                        ==> reaches(heap@, root, x),
                forall|i: int|
                    0 <= i < stack@.len()
                        ==> #[trigger] stack@[i] == root || reaches(heap@, root, stack@[i]),
                live_at(heap@, root) ==> marked@[root as int] || stack@.contains(root),
                forall|x: usize, y: usize|
                    x < marked@.len() && marked@[x as int] && !m0[x as int]
                        && #[trigger] edge(heap@, x, y)
                        ==> marked@[y as int] || stack@.contains(y),
            decreases count_unmarked(marked@), stack@.len(),
        {
            let ghost s_pre = stack@;
            let id: usize = stack.pop().unwrap();
            proof {
                assert(stack@ =~= s_pre.drop_last());
                assert(id == s_pre.last());
            }
            if !heap.is_live(id) {
                proof {
                    assert forall|x: usize, y: usize|
                        x < marked@.len() && marked@[x as int] && !m0[x as int]
                            && #[trigger] edge(heap@, x, y)
                        implies marked@[y as int] || stack@.contains(y) by {
                        if !marked@[y as int] {
                            assert(s_pre.contains(y));
                            assert(live_at(heap@, y));
                            let i: int = choose|i: int| 0 <= i < s_pre.len() && s_pre[i] == y;
                            assert(i < s_pre.len() - 1);
                            assert(stack@[i] == y);
                        }
                    }
                    if live_at(heap@, root) && !marked@[root as int] {
                        assert(s_pre.contains(root));
                        let i: int = choose|i: int| 0 <= i < s_pre.len() && s_pre[i] == root;
                        // the popped entry is absent, so it is not the root
                        assert(i < s_pre.len() - 1);
                        assert(stack@[i] == root);
                        assert(stack@.contains(root));
                    }
                }
                continue;
            }
            // `id` resolves to an owned node, so it is in range of the table.
            assert(id < marked@.len());
            if marked[id] {
                proof {
                    assert forall|x: usize, y: usize|
                        x < marked@.len() && marked@[x as int] && !m0[x as int]
                            && #[trigger] edge(heap@, x, y)
                        implies marked@[y as int] || stack@.contains(y) by {
                        if !marked@[y as int] {
                            assert(s_pre.contains(y));
                            let i: int = choose|i: int| 0 <= i < s_pre.len() && s_pre[i] == y;
                            assert(i < s_pre.len() - 1);
                            assert(stack@[i] == y);
                        }
                    }
                    if live_at(heap@, root) && !marked@[root as int] {
                        assert(s_pre.contains(root));
                        let i: int = choose|i: int| 0 <= i < s_pre.len() && s_pre[i] == root;
                        // the popped entry is marked, so it is not this root
                        assert(i < s_pre.len() - 1);
                        assert(stack@[i] == root);
                        assert(stack@.contains(root));
                    }
                }
                continue;
            }
            proof {
                if id == root {
                    lemma_reaches_self(heap@, root);
                }
                assert(reaches(heap@, root, id));
                lemma_count_unmarked_update(marked@, id as int);
            }
            let ghost m_pre = marked@;
            marked.set(id, true);
            proof {
                if live_at(heap@, root) && !marked@[root as int] {
                    assert(s_pre.contains(root));
                    let i: int = choose|i: int| 0 <= i < s_pre.len() && s_pre[i] == root;
                    assert(i < s_pre.len() - 1);
                    assert(stack@[i] == root);
                }
                assert forall|x: usize, y: usize|
                    x != id && x < marked@.len() && marked@[x as int] && !m0[x as int]
                        && #[trigger] edge(heap@, x, y)
                    implies marked@[y as int] || stack@.contains(y) by {
                    if !marked@[y as int] {
                        assert(!m_pre[y as int]);
                        assert(y != id);
                        assert(s_pre.contains(y));
                        let i: int = choose|i: int| 0 <= i < s_pre.len() && s_pre[i] == y;
                        assert(i < s_pre.len() - 1);
                        assert(stack@[i] == y);
                    }
                }
            }
            let n: usize = heap.child_count(id);
            for j in 0..n
                invariant
                    marked@ == m_pre.update(id as int, true),
                    m_pre.len() == heap@.len(),
                    id < m_pre.len(),
                    live_at(heap@, id),
                    reaches(heap@, root, id),
                    n == child_seq(heap@, id).len(),
                    forall|x: int| 0 <= x < m0.len() && m0[x] ==> marked@[x],
                    forall|x: usize|
                        x < marked@.len() && marked@[x as int] && !m0[x as int]
                            ==> reaches(heap@, root, x),
                    forall|i: int|
                        0 <= i < stack@.len()
                            ==> #[trigger] stack@[i] == root || reaches(heap@, root, stack@[i]),
                    live_at(heap@, root) ==> marked@[root as int] || stack@.contains(root),
                    forall|x: usize, y: usize|
                        x != id && x < marked@.len() && marked@[x as int] && !m0[x as int]
                            && #[trigger] edge(heap@, x, y)
                            ==> marked@[y as int] || stack@.contains(y),
                    forall|jj: int|
                        0 <= jj < j && live_at(
                            heap@,
                            #[trigger] child_seq(heap@, id)[jj],
                        ) ==> marked@[child_seq(heap@, id)[jj] as int]
                            || stack@.contains(child_seq(heap@, id)[jj]),
            {
                let c: usize = heap.child_at(id, j);
                if heap.is_live(c) {
                    let ghost s_in = stack@;
                    stack.push(c);
                    proof {
                        assert(edge(heap@, id, c));
                        lemma_reaches_step(heap@, root, id, c);
                        assert forall|y: usize| s_in.contains(y) implies stack@.contains(y) by {
                            let i: int = choose|i: int| 0 <= i < s_in.len() && s_in[i] == y;
                            assert(stack@[i] == y);
                        }
                        assert(stack@[stack@.len() - 1] == c);
                        assert(stack@.contains(c));
                    }
                }
            }
            proof {
                // After the children loop the closure clause holds for `id`
                // too: every live child was pushed or is already marked.
                assert forall|x: usize, y: usize|
                    x < marked@.len() && marked@[x as int] && !m0[x as int]
                        && #[trigger] edge(heap@, x, y)
                    implies marked@[y as int] || stack@.contains(y) by {
                    if x == id && !marked@[y as int] {
                        let cs = child_seq(heap@, id);
                        let jj: int = choose|jj: int| 0 <= jj < cs.len() && cs[jj] == y;
                        assert(live_at(heap@, cs[jj]));
                    }
                }
            }
        }
    }

    /// The sweep phase: keeps exactly the registry entries whose node is
    /// still owned and stands in the mark table; entries whose node is
    /// gone, and unmarked ones, are discarded.
    pub fn sweep(&mut self, heap: &Heap, marked: &Vec<bool>)
        requires
            marked@.len() == heap@.len(),
        ensures
            final(self)@ == old(self)@.filter(sweep_keep(heap@, marked@)),
    {
        let ghost orig = self.objects@;
        let mut kept: Vec<usize> = Vec::new();
        let n: usize = self.objects.len();
        for i in 0..n
            invariant
                n == orig.len(),
                self.objects@ == orig,
                marked@.len() == heap@.len(),
                kept@ == orig.take(i as int).filter(sweep_keep(heap@, marked@)),
        {
            let id: usize = self.objects[i];
            if heap.is_live(id) && marked[id] {
                kept.push(id);
            }
            proof {
                assert(orig.take(i + 1).drop_last() =~= orig.take(i as int));
                assert(orig.take(i + 1).last() == orig[i as int]);
                lemma_filter_unfold(orig.take(i + 1), sweep_keep(heap@, marked@));
            }
        }
        proof {
            assert(orig.take(n as int) =~= orig);
        }
        self.objects = kept;
    }

    /// One whole collection: mark from every root, then sweep. The
    /// registry afterwards holds exactly its old entries whose node is
    /// still owned and reachable from `roots`; order and duplicates are
    /// kept as they were.
    pub fn collect_garbage(&mut self, heap: &Heap, roots: &Vec<usize>)
        ensures
            final(self)@ == collected(old(self)@, heap@, roots@),
    {
        let ghost orig = self.objects@;
        let mut marked: Vec<bool> = Vec::new();
        let hn: usize = heap.slots.len();
        for i in 0..hn
            invariant
                marked@.len() == i,
                forall|x: int| 0 <= x < i ==> !marked@[x],
        {
            marked.push(false);
        }
        let rn: usize = roots.len();
        for k in 0..rn
            invariant
                rn == roots@.len(),
                self.objects@ == orig,
                marked@.len() == heap@.len(),
                forall|x: usize|
                    x < marked@.len()
                        ==> (marked@[x as int] <==> live_at(heap@, x) && reachable(
                        heap@,
                        roots@.take(k as int),
                        x,
                    )),
        {
            let ghost m_pre = marked@;
            let r: usize = roots[k];
            self.mark(heap, r, &mut marked);
            proof {
                let rts = roots@.take(k as int);
                let rts1 = roots@.take(k + 1);
                assert(rts1[k as int] == r);
                assert forall|x: usize| x < marked@.len() implies (marked@[x as int]
                    <==> live_at(heap@, x) && reachable(heap@, rts1, x)) by {
                    if marked@[x as int] {
                        if m_pre[x as int] {
                            let kk: int = choose|kk: int|
                                0 <= kk < rts.len() && #[trigger] reaches(heap@, rts[kk], x);
                            assert(rts1[kk] == rts[kk]);
                            assert(reachable(heap@, rts1, x));
                        } else {
                            assert(reaches(heap@, r, x));
                            lemma_reaches_live(heap@, r, x);
                            assert(reachable(heap@, rts1, x));
                        }
                    }
                    if live_at(heap@, x) && reachable(heap@, rts1, x) {
                        let kk: int = choose|kk: int|
                            0 <= kk < rts1.len() && #[trigger] reaches(heap@, rts1[kk], x);
                        if kk < k {
                            assert(rts[kk] == rts1[kk]);
                            assert(reachable(heap@, rts, x));
                            assert(m_pre[x as int]);
                        } else {
                            assert(reaches(heap@, r, x));
                            lemma_reaches_live(heap@, r, x);
                            assert(marked@[r as int]);
                            assert forall|a: usize, b: usize|
                                a < marked@.len() && marked@[a as int] && #[trigger] edge(
                                    heap@,
                                    a,
                                    b,
                                ) implies marked@[b as int] by {
                                if m_pre[a as int] {
                                    let ka: int = choose|ka: int|
                                        0 <= ka < rts.len() && #[trigger] reaches(
                                            heap@,
                                            rts[ka],
                                            a,
                                        );
                                    lemma_reaches_step(heap@, rts[ka], a, b);
                                    assert(reachable(heap@, rts, b));
                                    assert(m_pre[b as int]);
                                }
                            }
                            lemma_closed_contains_reach(heap@, marked@, r, x);
                        }
                    }
                }
            }
        }
        proof {
            assert(roots@.take(rn as int) =~= roots@);
        }
        self.sweep(heap, &marked);
        proof {
            let p = sweep_keep(heap@, marked@);
            let q = collect_keep(heap@, roots@);
            assert forall|i: int| 0 <= i < orig.len() implies (p(#[trigger] orig[i]) <==> q(
                orig[i],
            )) by {
                let id = orig[i];
                if id < marked@.len() {
                    assert(p(id) <==> q(id));
                } else {
                    assert(!live_at(heap@, id));
                }
            }
            lemma_filter_congruence(orig, p, q);
        }
    }
}

} // verus!
