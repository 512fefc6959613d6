//! The object graph: an arena of named nodes linked by non-owning child
//! references.
//!
//! A slot index is a handle. The arena owns the nodes; a child entry is a
//! bare index and never keeps its target alive. Once the host releases a
//! node its slot turns to `None` and every index that named it resolves to
//! absent from then on; slots are never reused, so such an index stays
//! harmless.

use vstd::prelude::*;

use crate::reach::{child_seq, live_at, node_name};

verus! {

/// A heap object: a diagnostic label and an ordered list of child
/// references. Child entries may repeat and may point at slots whose node
/// has since been released.
pub struct Node {
    pub name: String,
    pub children: Vec<usize>,
}

impl Node {
    /// A fresh node with no children.
    pub fn new(name: &str) -> (n: Node)
        ensures
            n.name@ == name@,
            n.children@ == Seq::<usize>::empty(),
    {
        Node { name: name.to_owned(), children: Vec::new() }
    }
}

/// The arena holding every node ever created. `Some` while the host still
/// owns the node, `None` once it was released.
pub struct Heap {
    pub slots: Vec<Option<Node>>,
}

impl View for Heap {
    type V = Seq<Option<Node>>;

    open spec fn view(&self) -> Seq<Option<Node>> {
        self.slots@
    }
}

impl Heap {
    /// An empty arena.
    pub fn new() -> (h: Heap)
        ensures
            h@ == Seq::<Option<Node>>::empty(),
    {
        Heap { slots: Vec::new() }
    }

    /// Allocates a node with the given label and an empty child list and
    /// returns its handle. No other slot is touched.
    pub fn create(&mut self, name: &str) -> (id: usize)
        ensures
            id == old(self)@.len(),
            final(self)@.len() == old(self)@.len() + 1,
            forall|j: int| 0 <= j < old(self)@.len() ==> final(self)@[j] == old(self)@[j],
            live_at(final(self)@, id),
            node_name(final(self)@, id) == name@,
            child_seq(final(self)@, id) == Seq::<usize>::empty(),
    {
        let id: usize = self.slots.len();
        self.slots.push(Some(Node::new(name)));
        id
    }

    /// Whether `id` currently resolves to an owned node.
    pub fn is_live(&self, id: usize) -> (r: bool)
        ensures
            r == live_at(self@, id),
    {
        id < self.slots.len() && self.slots[id].is_some()
    }

    /// How many child entries the node in slot `id` holds.
    pub fn child_count(&self, id: usize) -> (n: usize)
        requires
            live_at(self@, id),
        ensures
            n == child_seq(self@, id).len(),
    {
        match &self.slots[id] {
            Some(node) => node.children.len(),
            None => 0,
        }
    }

    /// The `j`-th child entry of the node in slot `id`.
    pub fn child_at(&self, id: usize, j: usize) -> (c: usize)
        requires
            live_at(self@, id),
            j < child_seq(self@, id).len(),
        ensures
            c == child_seq(self@, id)[j as int],
    {
        match &self.slots[id] {
            Some(node) => node.children[j],
            None => 0,
        }
    }

    /// Appends a non-owning reference to `child` onto `parent`'s child
    /// list. Duplicate edges and cycles are allowed; nothing else changes.
    pub fn add_child(&mut self, parent: usize, child: usize)
        requires
            live_at(old(self)@, parent),
            live_at(old(self)@, child),
        ensures
            final(self)@.len() == old(self)@.len(),
            forall|j: int| 0 <= j < old(self)@.len() && j != parent ==> final(self)@[j] == old(self)@[j],
            live_at(final(self)@, parent),
            node_name(final(self)@, parent) == node_name(old(self)@, parent),
            child_seq(final(self)@, parent) == child_seq(old(self)@, parent).push(child),
    {
        let slot = &mut self.slots[parent];
        match slot {
            Some(node) => {
                node.children.push(child);
            },
            None => {},
        }
    }

    /// Removes every child entry of `parent` that resolves to `target`;
    /// entries naming other slots, dead ones included, stay as they are.
    /// Only future reachability changes.
    pub fn remove_child(&mut self, parent: usize, target: usize)
        requires
            live_at(old(self)@, parent),
            live_at(old(self)@, target),
        ensures
            final(self)@.len() == old(self)@.len(),
            forall|j: int| 0 <= j < old(self)@.len() && j != parent ==> final(self)@[j] == old(self)@[j],
            live_at(final(self)@, parent),
            node_name(final(self)@, parent) == node_name(old(self)@, parent),
            child_seq(final(self)@, parent)
                == child_seq(old(self)@, parent).filter(|c: usize| c != target),
    {
        let n: usize = self.child_count(parent);
        let mut kept: Vec<usize> = Vec::new();
        let ghost cs = child_seq(self@, parent);
        for j in 0..n
            invariant
                n == cs.len(),
                live_at(self@, parent),
                cs == child_seq(self@, parent),
                kept@ == cs.take(j as int).filter(|c: usize| c != target),
        {
            let c: usize = self.child_at(parent, j);
            if c != target {
                kept.push(c);
            }
            proof {
                assert(cs.take(j + 1).drop_last() =~= cs.take(j as int));
                assert(cs.take(j + 1).last() == cs[j as int]);
                crate::seq_facts::lemma_filter_unfold(cs.take(j + 1), |c: usize| c != target);
            }
        }
        proof {
            assert(cs.take(n as int) =~= cs);
        }
        let slot = &mut self.slots[parent];
        match slot {
            Some(node) => {
                node.children = kept;
            },
            None => {},
        }
    }

    /// Models the host releasing its owning handle: the slot turns to
    /// `None`, and every reference to it resolves to absent from now on.
    pub fn drop_node(&mut self, id: usize)
        requires
            live_at(old(self)@, id),
        ensures
            final(self)@.len() == old(self)@.len(),
            forall|j: int| 0 <= j < old(self)@.len() && j != id ==> final(self)@[j] == old(self)@[j],
            !live_at(final(self)@, id),
    {
        let slot = &mut self.slots[id];
        *slot = None;
    }
}

} // verus!
