//! A doubly linked list whose nodes live in an arena. Every insertion hands
//! out a handle that stays valid until its own node is taken out, however
//! the rest of the list changes, and that finds the node again in constant
//! time.

use std::marker::PhantomData;
use vstd::prelude::*;

verus! {

/// A handle to one node of a list: the arena slot of the node, and the
/// generation the slot had when the node was put there.
pub struct NodeLink<T> {
    slot: usize,
    generation: u64,
    payload: PhantomData<T>,
}

struct Node<T> {
    data: Option<T>,
    next: Option<usize>,
    prev: Option<usize>,
    generation: u64,
}

/// Double linked list.
///
/// The list is viewed as the sequence of its payloads from head to tail;
/// `handles()` gives, position by position, the handle of each node, and
/// `issued()` every handle that the list has ever handed out.
#[verifier::reject_recursive_types(T)]
pub struct DoublyLinkedList<T> {
    nodes: Vec<Node<T>>,
    free: Vec<usize>,
    head: Option<usize>,
    tail: Option<usize>,
    order: Ghost<Seq<usize>>,
    issued: Ghost<Set<NodeLink<T>>>,
}

/// A walk over the payloads of a list, from head to tail.
#[verifier::reject_recursive_types(T)]
pub struct DoublyLinkedListIterator<'a, T> {
    list: &'a DoublyLinkedList<T>,
    item: Option<usize>,
    position: Ghost<int>,
}

impl<T> Clone for NodeLink<T> {
    fn clone(&self) -> (r: Self)
        ensures
            r == *self,
    {
        NodeLink { slot: self.slot, generation: self.generation, payload: PhantomData }
    }
}

impl<T> NodeLink<T> {
    /// Whether `other` holds a handle, and it is this one.
    pub fn ptr_eq_and_present(&self, other: &Option<NodeLink<T>>) -> (r: bool)
        ensures
            r == (*other == Some(*self)),
    {
        match other {
            Some(node) => self.slot == node.slot && self.generation == node.generation,
            None => false,
        }
    }
}

impl<T> View for DoublyLinkedList<T> {
    type V = Seq<T>;

    closed spec fn view(&self) -> Seq<T> {
        Seq::new(self.order@.len(), |p: int| self.nodes@[self.order@[p] as int].data->Some_0)
    }
}

impl<T> DoublyLinkedList<T> {
    /// The handle that a live slot has now.
    spec fn handle_of(&self, slot: usize) -> NodeLink<T> {
        NodeLink { slot, generation: self.nodes@[slot as int].generation, payload: PhantomData }
    }

    /// The handles of the nodes, from head to tail.
    pub closed spec fn handles(&self) -> Seq<NodeLink<T>> {
        Seq::new(self.order@.len(), |p: int| self.handle_of(self.order@[p]))
    }

    spec fn slot_before(&self, p: int) -> Option<usize> {
        if p == 0 {
            None
        } else {
            Some(self.order@[p - 1])
        }
    }

    spec fn slot_at(&self, p: int) -> Option<usize> {
        if p == self.order@.len() {
            None
        } else {
            Some(self.order@[p])
        }
    }

    /// Slot `s` holds a payload.
    spec fn occupied(&self, s: usize) -> bool {
        self.nodes@[s as int].data is Some
    }

    /// Every handle that the list has handed out so far, spent ones too.
    pub closed spec fn issued(&self) -> Set<NodeLink<T>> {
        self.issued@
    }

    /// A handle that was handed out is of a slot of the arena, and of the
    /// generation that the slot has now or of an earlier one.
    spec fn known(&self, node: NodeLink<T>) -> bool {
        &&& node.slot < self.nodes@.len()
        &&& node.generation <= self.nodes@[node.slot as int].generation
    }

    /// Every handle that was handed out for slot `s` is of a generation
    /// that the slot has left behind.
    spec fn outlived(&self, s: usize) -> bool {
        forall|node: NodeLink<T>| #[trigger]
            self.issued@.contains(node) && node.slot == s ==> node.generation
                < self.nodes@[s as int].generation
    }

    /// Entry `k` of the free list is a slot without a payload, in a
    /// generation of which no handle was handed out.
    spec fn spare(&self, k: int) -> bool {
        &&& self.free@[k] < self.nodes@.len()
        &&& self.nodes@[self.free@[k] as int].data is None
        &&& self.outlived(self.free@[k])
    }

    /// The node at position `p` holds a payload and points at its two
    /// neighbours, and its handle was handed out.
    spec fn placed(&self, p: int) -> bool {
        let node = self.nodes@[self.order@[p] as int];
        &&& self.order@[p] < self.nodes@.len()
        &&& node.data is Some
        &&& node.prev == self.slot_before(p)
        &&& node.next == self.slot_at(p + 1)
        &&& self.issued@.contains(self.handle_of(self.order@[p]))
    }

    /// The list is well formed: the links of the nodes spell out the order
    /// from head to tail and back, a slot holds a payload exactly when it is
    /// in the list, and the free slots are empty ones whose next handle
    /// will be a new one.
    #[verifier::opaque]
    pub closed spec fn wf(&self) -> bool {
        let order = self.order@;
        let nodes = self.nodes@;
        let free = self.free@;
        &&& order.no_duplicates()
        &&& order.len() + free.len() <= nodes.len()
        &&& forall|p: int| 0 <= p < order.len() ==> #[trigger] self.placed(p)
        &&& forall|s: usize| s < nodes.len() && #[trigger] self.occupied(s) ==> order.contains(s)
        &&& self.head == self.slot_at(0)
        &&& self.tail == self.slot_before(order.len() as int)
        &&& free.no_duplicates()
        &&& forall|k: int| 0 <= k < free.len() ==> #[trigger] self.spare(k)
        &&& forall|node: NodeLink<T>| #[trigger] self.issued@.contains(node) ==> self.known(node)
    }

    /// In a well-formed list every node has one handle, which the list has
    /// handed out, and no two nodes share one.
    pub proof fn lemma_handles(&self)
        requires
            self.wf(),
        ensures
            self.handles().len() == self@.len(),
            self.handles().no_duplicates(),
            forall|p: int|
                0 <= p < self.handles().len() ==> self.issued().contains(
                    #[trigger] self.handles()[p],
                ),
    {
        reveal(DoublyLinkedList::wf);
        let handles = self.handles();
        assert forall|i: int, j: int|
            0 <= i < handles.len() && 0 <= j < handles.len() && i != j implies handles[i]
            != handles[j] by {
            assert(self.order@[i] != self.order@[j]);
        }
        assert forall|p: int| 0 <= p < handles.len() implies self.issued().contains(
            #[trigger] handles[p],
        ) by {
            assert(self.placed(p));
        }
    }

    /// What a well-formed list knows of the node at position `p`.
    proof fn lemma_position(&self, p: int)
        requires
            self.wf(),
            0 <= p < self.order@.len(),
        ensures
            self.placed(p),
            self.order@[p] < self.nodes@.len(),
            self.head == Some(self.order@[0]),
            self.tail == Some(self.order@[self.order@.len() - 1]),
            self@.len() == self.order@.len(),
            self.handles().len() == self.order@.len(),
            self@[p] == self.nodes@[self.order@[p] as int].data->Some_0,
            self.handles()[p] == self.handle_of(self.order@[p]),
    {
        reveal(DoublyLinkedList::wf);
        assert(self.placed(p));
    }

    /// What a well-formed list knows of its ends.
    proof fn lemma_ends(&self)
        requires
            self.wf(),
        ensures
            self@.len() == self.order@.len(),
            self.handles().len() == self.order@.len(),
            self.order@.len() + self.free@.len() <= self.nodes@.len(),
            self.head == self.slot_at(0),
            self.tail == self.slot_before(self.order@.len() as int),
            self.free@.len() > 0 ==> self.spare(self.free@.len() - 1),
    {
        reveal(DoublyLinkedList::wf);
    }

    /// The position of a handle that the list holds is that of its slot.
    proof fn lemma_handle_position(&self, node: NodeLink<T>) -> (p: int)
        requires
            self.wf(),
            self.handles().contains(node),
        ensures
            p == self.handles().index_of(node),
            0 <= p < self.order@.len(),
            self.order@[p] == node.slot,
            self.handles()[p] == node,
            self.placed(p),
            node.slot < self.nodes@.len(),
            self.nodes@[node.slot as int].generation == node.generation,
            self@.len() == self.order@.len(),
    {
        let p = self.handles().index_of(node);
        self.lemma_position(p);
        p
    }

    /// A slot that holds a payload is in the list, under the handle that it
    /// has now.
    proof fn lemma_occupied(&self, s: usize)
        requires
            self.wf(),
            s < self.nodes@.len(),
            self.occupied(s),
        ensures
            self.handles().contains(self.handle_of(s)),
    {
        reveal(DoublyLinkedList::wf);
        let p = choose|p: int| 0 <= p < self.order@.len() && self.order@[p] == s;
        assert(self.handles()[p] == self.handle_of(s));
    }

    /// The nodes of `after` are those of `self` with one more, in `slot`,
    /// linked in at position `at`.
    spec fn inserted(&self, after: Self, slot: usize, at: int, data: T) -> bool {
        let prev = self.slot_before(at);
        let next = self.slot_at(at);
        &&& after.order@ == self.order@.insert(at, slot)
        &&& after.issued@ == self.issued@.insert(after.handle_of(slot))
        &&& slot < after.nodes@.len()
        &&& if self.free@.len() > 0 {
            &&& slot == self.free@.last()
            &&& after.free@ == self.free@.drop_last()
            &&& after.nodes@.len() == self.nodes@.len()
            &&& after.nodes@[slot as int].generation == self.nodes@[slot as int].generation
        } else {
            &&& slot == self.nodes@.len()
            &&& after.free@ == self.free@
            &&& after.nodes@.len() == self.nodes@.len() + 1
        }
        &&& after.nodes@[slot as int].data == Some(data)
        &&& after.nodes@[slot as int].prev == prev
        &&& after.nodes@[slot as int].next == next
        &&& forall|s: usize|
            s < self.nodes@.len() && s != slot ==> {
                let old_node = self.nodes@[s as int];
                let new_node = #[trigger] after.nodes@[s as int];
                &&& new_node.data == old_node.data
                &&& new_node.generation == old_node.generation
                &&& new_node.next == if prev == Some(s) {
                    Some(slot)
                } else {
                    old_node.next
                }
                &&& new_node.prev == if next == Some(s) {
                    Some(slot)
                } else {
                    old_node.prev
                }
            }
        &&& after.head == if at == 0 {
            Some(slot)
        } else {
            self.head
        }
        &&& after.tail == if at == self.order@.len() {
            Some(slot)
        } else {
            self.tail
        }
    }

    proof fn lemma_inserted(&self, after: Self, slot: usize, at: int, data: T)
        requires
            self.wf(),
            0 <= at <= self.order@.len(),
            self.inserted(after, slot, at, data),
        ensures
            after.wf(),
            after@ == self@.insert(at, data),
            after.handles() == self.handles().insert(at, after.handle_of(slot)),
            !self.issued@.contains(after.handle_of(slot)),
    {
        reveal(DoublyLinkedList::wf);
        let order = after.order@;
        let len = self.order@.len() as int;
        let new = after.handle_of(slot);
        assert(!self.order@.contains(slot)) by {
            if self.order@.contains(slot) {
                let p = choose|p: int| 0 <= p < len && self.order@[p] == slot;
                assert(self.placed(p));
                if self.free@.len() > 0 {
                    assert(self.spare(self.free@.len() - 1));
                }
            }
        }
        assert(!self.issued@.contains(new)) by {
            if self.issued@.contains(new) {
                assert(self.known(new));
                if self.free@.len() > 0 {
                    assert(self.spare(self.free@.len() - 1));
                }
            }
        }
        assert forall|node: NodeLink<T>| #[trigger]
            after.issued@.contains(node) implies after.known(node) by {
            if node != new {
                let s = node.slot as int;
                assert(self.known(node));
                assert(after.nodes@[s].generation == self.nodes@[s].generation);
            }
        }
        assert forall|p: int| 0 <= p < order.len() implies #[trigger] after.placed(p) by {
            if p < at {
                assert(order[p] == self.order@[p]);
                assert(self.placed(p));
                if p + 1 < at {
                    assert(self.placed(p + 1));
                }
            } else if p > at {
                assert(order[p] == self.order@[p - 1]);
                assert(self.placed(p - 1));
                if p - 1 > at {
                    assert(self.placed(p - 2));
                }
            } else {
                if at > 0 {
                    assert(self.placed(at - 1));
                }
                if at < len {
                    assert(self.placed(at));
                }
            }
        }
        assert forall|s: usize|
            s < after.nodes@.len() && #[trigger] after.occupied(s) implies order.contains(s) by {
            if s == slot {
                assert(order[at] == slot);
            } else {
                assert(after.nodes@[s as int].data is Some);
                assert(self.occupied(s));
                let p = choose|p: int| 0 <= p < len && self.order@[p] == s;
                if p < at {
                    assert(order[p] == s);
                } else {
                    assert(order[p + 1] == s);
                }
            }
        }
        assert forall|k: int| 0 <= k < after.free@.len() implies #[trigger] after.spare(k) by {
            assert(self.spare(k));
            assert(after.free@[k] == self.free@[k]);
            assert(self.free@[k] != slot);
            assert(after.nodes@[self.free@[k] as int].data is None);
            assert forall|node: NodeLink<T>| #[trigger]
                after.issued@.contains(node) && node.slot == self.free@[k] implies node.generation
                < after.nodes@[self.free@[k] as int].generation by {
                assert(self.issued@.contains(node));
            }
        }
        assert forall|i: int, j: int|
            0 <= i < order.len() && 0 <= j < order.len() && i != j implies order[i] != order[j] by {
            let a = if i < at {
                i
            } else {
                i - 1
            };
            let b = if j < at {
                j
            } else {
                j - 1
            };
            if i != at && j != at {
                assert(self.order@[a] != self.order@[b]);
            } else if i != at {
                assert(self.order@[a] == order[i]);
            } else {
                assert(self.order@[b] == order[j]);
            }
        }
        assert forall|p: int| 0 <= p < order.len() implies after@[p] == self@.insert(at, data)[p]
            && after.handles()[p] == self.handles().insert(at, after.handle_of(slot))[p] by {
            if p != at {
                let q = if p < at {
                    p
                } else {
                    p - 1
                };
                let s = self.order@[q] as int;
                assert(self.placed(q));
                assert(after.nodes@[s].data == self.nodes@[s].data);
            }
        }
        assert(after@ =~= self@.insert(at, data));
        assert(after.handles() =~= self.handles().insert(at, after.handle_of(slot)));
    }

    /// Puts `data` into a node of its own between the nodes in slots `prev`
    /// and `next`, which are neighbours at position `at`, and gives the slot
    /// of the new node.
    fn insert_at(
        &mut self,
        data: T,
        prev: Option<usize>,
        next: Option<usize>,
        at: Ghost<int>,
    ) -> (slot: usize)
        requires
            old(self).wf(),
            0 <= at@ <= old(self).order@.len(),
            prev == old(self).slot_before(at@),
            next == old(self).slot_at(at@),
        ensures
            final(self).wf(),
            slot < final(self).nodes@.len(),
            final(self).order@ == old(self).order@.insert(at@, slot),
            final(self)@ == old(self)@.insert(at@, data),
            final(self).handles() == old(self).handles().insert(at@, final(self).handle_of(slot)),
            final(self).issued() == old(self).issued().insert(final(self).handle_of(slot)),
            !old(self).issued().contains(final(self).handle_of(slot)),
    {
        let ghost before = *self;
        proof {
            before.lemma_ends();
            if at@ > 0 {
                before.lemma_position(at@ - 1);
            }
            if at@ < before.order@.len() {
                before.lemma_position(at@);
            }
        }
        let slot = match self.free.pop() {
            Some(s) => {
                self.nodes[s].data = Some(data);
                self.nodes[s].prev = prev;
                self.nodes[s].next = next;
                s
            },
            None => {
                self.nodes.push(Node { data: Some(data), prev, next, generation: 0 });
                self.nodes.len() - 1
            },
        };
        match prev {
            Some(p) => {
                self.nodes[p].next = Some(slot);
            },
            None => {
                self.head = Some(slot);
            },
        }
        match next {
            Some(n) => {
                self.nodes[n].prev = Some(slot);
            },
            None => {
                self.tail = Some(slot);
            },
        }
        proof {
            self.order = Ghost(before.order@.insert(at@, slot));
            self.issued = Ghost(before.issued@.insert(self.handle_of(slot)));
            assert(before.inserted(*self, slot, at@, data));
            before.lemma_inserted(*self, slot, at@, data);
        }
        slot
    }

    /// The nodes of `after` are those of `self` without the one at position
    /// `at`, whose neighbours are linked to each other.
    spec fn removed(&self, after: Self, at: int) -> bool {
        let slot = self.order@[at];
        let prev = self.slot_before(at);
        let next = self.slot_at(at + 1);
        &&& after.order@ == self.order@.remove(at)
        &&& after.issued@ == self.issued@
        &&& after.nodes@.len() == self.nodes@.len()
        &&& after.nodes@[slot as int].data is None
        &&& if self.nodes@[slot as int].generation < u64::MAX {
            &&& after.free@ == self.free@.push(slot)
            &&& after.nodes@[slot as int].generation == self.nodes@[slot as int].generation + 1
        } else {
            &&& after.free@ == self.free@
            &&& after.nodes@[slot as int].generation == self.nodes@[slot as int].generation
        }
        &&& forall|s: usize|
            s < self.nodes@.len() && s != slot ==> {
                let old_node = self.nodes@[s as int];
                let new_node = #[trigger] after.nodes@[s as int];
                &&& new_node.data == old_node.data
                &&& new_node.generation == old_node.generation
                &&& new_node.next == if prev == Some(s) {
                    next
                } else {
                    old_node.next
                }
                &&& new_node.prev == if next == Some(s) {
                    prev
                } else {
                    old_node.prev
                }
            }
        &&& after.head == if at == 0 {
            next
        } else {
            self.head
        }
        &&& after.tail == if at == self.order@.len() - 1 {
            prev
        } else {
            self.tail
        }
    }

    proof fn lemma_removed(&self, after: Self, at: int)
        requires
            self.wf(),
            0 <= at < self.order@.len(),
            self.removed(after, at),
        ensures
            after.wf(),
            after@ == self@.remove(at),
            after.handles() == self.handles().remove(at),
    {
        reveal(DoublyLinkedList::wf);
        let order = after.order@;
        let len = self.order@.len() as int;
        let slot = self.order@[at];
        assert(self.placed(at));
        assert forall|p: int| 0 <= p < order.len() implies #[trigger] after.placed(p) by {
            if p < at {
                assert(order[p] == self.order@[p]);
                assert(self.placed(p));
                assert(self.order@[p] != self.order@[at]);
                if p + 1 < len {
                    assert(self.order@[p] != self.order@[p + 1]);
                }
                if at + 1 < len {
                    assert(self.order@[p] != self.order@[at + 1]);
                }
            } else {
                assert(order[p] == self.order@[p + 1]);
                assert(self.placed(p + 1));
                assert(self.order@[p + 1] != self.order@[at]);
                assert(self.order@[p + 1] != self.order@[p]);
                if at > 0 {
                    assert(self.order@[p + 1] != self.order@[at - 1]);
                }
            }
        }
        assert forall|s: usize|
            s < after.nodes@.len() && #[trigger] after.occupied(s) implies order.contains(s) by {
            assert(after.nodes@[s as int].data is Some);
            assert(self.occupied(s));
            let p = choose|p: int| 0 <= p < len && self.order@[p] == s;
            if p < at {
                assert(order[p] == s);
            } else {
                assert(order[p - 1] == s);
            }
        }
        assert forall|node: NodeLink<T>| #[trigger]
            after.issued@.contains(node) implies after.known(node) by {
            assert(self.known(node));
        }
        assert forall|k: int| 0 <= k < after.free@.len() implies #[trigger] after.spare(k) by {
            if k < self.free@.len() {
                assert(self.spare(k));
                assert(after.free@[k] == self.free@[k]);
                assert(after.nodes@[self.free@[k] as int].data is None);
                assert forall|node: NodeLink<T>| #[trigger]
                    after.issued@.contains(node) && node.slot == self.free@[k] implies node.generation
                    < after.nodes@[self.free@[k] as int].generation by {
                    assert(self.issued@.contains(node));
                }
            } else {
                assert forall|node: NodeLink<T>| #[trigger]
                    after.issued@.contains(node) && node.slot == slot implies node.generation
                    < after.nodes@[slot as int].generation by {
                    assert(self.known(node));
                }
            }
        }
        let free = after.free@;
        assert forall|i: int, j: int|
            0 <= i < free.len() && 0 <= j < free.len() && i != j implies free[i] != free[j] by {
            if i < self.free@.len() {
                assert(self.spare(i));
            }
            if j < self.free@.len() {
                assert(self.spare(j));
            }
        }
        assert forall|i: int, j: int|
            0 <= i < order.len() && 0 <= j < order.len() && i != j implies order[i] != order[j] by {
            let a = if i < at {
                i
            } else {
                i + 1
            };
            let b = if j < at {
                j
            } else {
                j + 1
            };
            assert(self.order@[a] != self.order@[b]);
        }
        assert forall|p: int| 0 <= p < order.len() implies after@[p] == self@.remove(at)[p]
            && after.handles()[p] == self.handles().remove(at)[p] by {
            let q = if p < at {
                p
            } else {
                p + 1
            };
            let s = self.order@[q] as int;
            assert(self.placed(q));
            assert(self.order@[q] != self.order@[at]);
            assert(after.nodes@[s].data == self.nodes@[s].data);
        }
        assert(after@ =~= self@.remove(at));
        assert(after.handles() =~= self.handles().remove(at));
    }

    /// Takes the node in `slot`, which stands at position `at`, out of the
    /// list, and gives its payload. The slot goes back to the free list
    /// under a new generation, unless it has used them all up.
    fn unlink(&mut self, slot: usize, at: Ghost<int>) -> (data: T)
        requires
            old(self).wf(),
            0 <= at@ < old(self).order@.len(),
            old(self).order@[at@] == slot,
        ensures
            final(self).wf(),
            final(self).order@ == old(self).order@.remove(at@),
            final(self)@ == old(self)@.remove(at@),
            final(self).handles() == old(self).handles().remove(at@),
            final(self).issued() == old(self).issued(),
            data == old(self)@[at@],
    {
        let ghost before = *self;
        proof {
            before.lemma_position(at@);
            if at@ > 0 {
                before.lemma_position(at@ - 1);
            }
            if at@ + 1 < before.order@.len() {
                before.lemma_position(at@ + 1);
            }
        }
        let prev = self.nodes[slot].prev;
        let next = self.nodes[slot].next;
        match prev {
            Some(p) => {
                self.nodes[p].next = next;
            },
            None => {
                self.head = next;
            },
        }
        match next {
            Some(n) => {
                self.nodes[n].prev = prev;
            },
            None => {
                self.tail = prev;
            },
        }
        let data = self.nodes[slot].data.take().unwrap();
        self.nodes[slot].prev = None;
        self.nodes[slot].next = None;
        let generation = self.nodes[slot].generation;
        if generation < u64::MAX {
            self.nodes[slot].generation = generation + 1;
            self.free.push(slot);
        }
        proof {
            self.order = Ghost(before.order@.remove(at@));
            assert(before.removed(*self, at@));
            before.lemma_removed(*self, at@);
        }
        data
    }

    /// The handle of the node in `slot`.
    fn link(&self, slot: usize) -> (node: NodeLink<T>)
        requires
            slot < self.nodes@.len(),
        ensures
            node == self.handle_of(slot),
    {
        NodeLink { slot, generation: self.nodes[slot].generation, payload: PhantomData }
    }

    /// Creates new list
    pub fn new() -> (list: Self)
        ensures
            list.wf(),
            list@ == Seq::<T>::empty(),
            list.handles() == Seq::<NodeLink<T>>::empty(),
            list.issued() == Set::<NodeLink<T>>::empty(),
    {
        let list = DoublyLinkedList {
            nodes: Vec::new(),
            free: Vec::new(),
            head: None,
            tail: None,
            order: Ghost(Seq::empty()),
            issued: Ghost(Set::empty()),
        };
        proof {
            reveal(DoublyLinkedList::wf);
            assert(list@ =~= Seq::<T>::empty());
            assert(list.handles() =~= Seq::<NodeLink<T>>::empty());
        }
        list
    }

    /// A walk over the payloads, which starts at the head.
    pub fn iter(&self) -> (walk: DoublyLinkedListIterator<'_, T>)
        requires
            self.wf(),
        ensures
            walk.wf(),
            walk.remaining() == self@,
    {
        proof {
            self.lemma_ends();
            assert(self@.skip(0) =~= self@);
        }
        DoublyLinkedListIterator { list: self, item: self.head, position: Ghost(0) }
    }

    /// Returns a head of the list. `None` if list has 0 elements.
    pub fn head(&self) -> (node: Option<NodeLink<T>>)
        requires
            self.wf(),
        ensures
            node == if self@.len() == 0 {
                None
            } else {
                Some(self.handles().first())
            },
    {
        proof {
            self.lemma_ends();
            if self.order@.len() > 0 {
                self.lemma_position(0);
            }
        }
        match self.head {
            Some(slot) => Some(self.link(slot)),
            None => None,
        }
    }

    /// Returns a tail of the list. `None` if list has 0 elements.
    pub fn tail(&self) -> (node: Option<NodeLink<T>>)
        requires
            self.wf(),
        ensures
            node == if self@.len() == 0 {
                None
            } else {
                Some(self.handles().last())
            },
    {
        proof {
            self.lemma_ends();
            if self.order@.len() > 0 {
                self.lemma_position(self.order@.len() - 1);
            }
        }
        match self.tail {
            Some(slot) => Some(self.link(slot)),
            None => None,
        }
    }

    /// Whether the list has no elements.
    pub fn empty(&self) -> (b: bool)
        requires
            self.wf(),
        ensures
            b == (self@.len() == 0),
    {
        proof {
            self.lemma_ends();
        }
        self.head.is_none()
    }

    /// Whether `node` is the handle of a node that is in the list now.
    pub fn contains(&self, node: &NodeLink<T>) -> (b: bool)
        requires
            self.wf(),
        ensures
            b == self.handles().contains(*node),
    {
        proof {
            if self.handles().contains(*node) {
                self.lemma_handle_position(*node);
            }
        }
        if node.slot < self.nodes.len() {
            let found = self.nodes[node.slot].data.is_some() && self.nodes[node.slot].generation
                == node.generation;
            proof {
                if found {
                    self.lemma_occupied(node.slot);
                    assert(self.handle_of(node.slot) == *node);
                }
            }
            found
        } else {
            false
        }
    }

    /// The payload of the node that `node` is the handle of.
    pub fn get(&self, node: &NodeLink<T>) -> (data: &T)
        requires
            self.wf(),
            self.handles().contains(*node),
        ensures
            *data == self@[self.handles().index_of(*node)],
    {
        proof {
            self.lemma_handle_position(*node);
        }
        self.nodes[node.slot].data.as_ref().unwrap()
    }

    /// The handle of the node after that of `node`, if there is one.
    pub fn next_link(&self, node: &NodeLink<T>) -> (next: Option<NodeLink<T>>)
        requires
            self.wf(),
            self.handles().contains(*node),
        ensures
            next == if self.handles().index_of(*node) + 1 < self@.len() {
                Some(self.handles()[self.handles().index_of(*node) + 1])
            } else {
                None
            },
    {
        proof {
            let p = self.lemma_handle_position(*node);
            if p + 1 < self.order@.len() {
                self.lemma_position(p + 1);
            }
        }
        match self.nodes[node.slot].next {
            Some(slot) => Some(self.link(slot)),
            None => None,
        }
    }

    /// The handle of the node before that of `node`, if there is one.
    pub fn upgrade_prev(&self, node: &NodeLink<T>) -> (prev: Option<NodeLink<T>>)
        requires
            self.wf(),
            self.handles().contains(*node),
        ensures
            prev == if self.handles().index_of(*node) > 0 {
                Some(self.handles()[self.handles().index_of(*node) - 1])
            } else {
                None
            },
    {
        proof {
            let p = self.lemma_handle_position(*node);
            if p > 0 {
                self.lemma_position(p - 1);
            }
        }
        match self.nodes[node.slot].prev {
            Some(slot) => Some(self.link(slot)),
            None => None,
        }
    }

    /// Removes the first element and returns it, or `None` if the list is
    /// empty.
    pub fn pop_front(&mut self) -> (value: Option<T>)
        requires
            old(self).wf(),
        ensures
            final(self).wf(),
            old(self)@.len() == 0 ==> value is None && final(self)@ == old(self)@
                && final(self).handles() == old(self).handles(),
            old(self)@.len() > 0 ==> value == Some(old(self)@.first()) && final(self)@ == old(
                self,
            )@.drop_first() && final(self).handles() == old(self).handles().drop_first(),
            final(self).issued() == old(self).issued(),
    {
        proof {
            self.lemma_ends();
        }
        match self.head {
            Some(slot) => {
                assert(old(self)@.drop_first() =~= old(self)@.remove(0));
                assert(old(self).handles().drop_first() =~= old(self).handles().remove(0));
                Some(self.unlink(slot, Ghost(0)))
            },
            None => None,
        }
    }

    /// Removes the last element and returns it, or `None` if the list is
    /// empty.
    pub fn pop_back(&mut self) -> (value: Option<T>)
        requires
            old(self).wf(),
        ensures
            final(self).wf(),
            old(self)@.len() == 0 ==> value is None && final(self)@ == old(self)@
                && final(self).handles() == old(self).handles(),
            old(self)@.len() > 0 ==> value == Some(old(self)@.last()) && final(self)@ == old(
                self,
            )@.drop_last() && final(self).handles() == old(self).handles().drop_last(),
            final(self).issued() == old(self).issued(),
    {
        proof {
            self.lemma_ends();
        }
        match self.tail {
            Some(slot) => {
                let ghost at = old(self).order@.len() - 1;
                assert(old(self)@.drop_last() =~= old(self)@.remove(at));
                assert(old(self).handles().drop_last() =~= old(self).handles().remove(at));
                Some(self.unlink(slot, Ghost(at)))
            },
            None => None,
        }
    }

    /// Takes the node of `target` out of the list. The handle is spent
    /// after that: the list no longer holds it.
    pub fn remove(&mut self, target: &NodeLink<T>)
        requires
            old(self).wf(),
            old(self).handles().contains(*target),
        ensures
            final(self).wf(),
            final(self)@ == old(self)@.remove(old(self).handles().index_of(*target)),
            final(self).handles() == old(self).handles().remove(
                old(self).handles().index_of(*target),
            ),
            final(self).issued() == old(self).issued(),
            !final(self).handles().contains(*target),
    {
        let ghost at = self.lemma_handle_position(*target);
        proof {
            self.lemma_handles();
        }
        let _ = self.unlink(target.slot, Ghost(at));
        proof {
            let before = old(self).handles();
            let after = self.handles();
            if after.contains(*target) {
                let p = choose|p: int| 0 <= p < after.len() && after[p] == *target;
                if p < at {
                    assert(before[p] == *target);
                } else {
                    assert(before[p + 1] == *target);
                }
            }
        }
    }

    /// Returns length of a list
    pub fn len(&self) -> (n: usize)
        requires
            self.wf(),
        ensures
            n == self@.len(),
    {
        let slots: usize = self.nodes.len();
        proof {
            self.lemma_ends();
            assert(self@.len() <= slots);
        }
        let mut walk = self.iter();
        let mut n: usize = 0;
        loop
            invariant
                walk.wf(),
                n + walk.remaining().len() == self@.len(),
                self@.len() <= usize::MAX,
            decreases walk.remaining().len(),
        {
            match walk.next() {
                Some(_) => {
                    n = n + 1;
                },
                None => {
                    return n;
                },
            }
        }
    }
}

/// What appending does to the payloads: `after` is `before` with a clone of
/// `value` behind it.
pub open spec fn pushed_back<T: Clone>(before: Seq<T>, value: T, after: Seq<T>) -> bool {
    &&& after.len() == before.len() + 1
    &&& after.drop_last() == before
    &&& cloned(value, after.last())
}

/// What is left of `handles` when the nodes of `spent` have been removed one
/// after the other.
pub open spec fn after_removing<H>(handles: Seq<H>, spent: Seq<H>) -> Seq<H>
    decreases spent.len(),
{
    if spent.len() == 0 {
        handles
    } else {
        let rest = after_removing(handles, spent.drop_last());
        rest.remove(rest.index_of(spent.last()))
    }
}

proof fn lemma_appended_prefix<T: Clone>(values: Seq<T>, states: Seq<Seq<T>>, k: int)
    requires
        states.len() == values.len() + 1,
        states[0].len() == 0,
        forall|i: int|
            0 <= i < values.len() ==> pushed_back(states[i], values[i], #[trigger] states[i + 1]),
        0 <= k <= values.len(),
    ensures
        states[k].len() == k,
        forall|i: int| 0 <= i < k ==> cloned(values[i], #[trigger] states[k][i]),
    decreases k,
{
    if k > 0 {
        lemma_appended_prefix(values, states, k - 1);
        assert(pushed_back(states[k - 1], values[k - 1], states[k - 1 + 1]));
        assert forall|i: int| 0 <= i < k implies cloned(values[i], #[trigger] states[k][i]) by {
            if i < k - 1 {
                assert(states[k].drop_last()[i] == states[k][i]);
            }
        }
    }
}

/// Appending to an empty list: when `values` are appended one by one, the
/// list goes through `states`, and it ends up holding a clone of each value,
/// in the order in which they came. A walk over the list gives just that
/// sequence.
pub proof fn lemma_append_round_trip<T: Clone>(values: Seq<T>, states: Seq<Seq<T>>)
    requires
        states.len() == values.len() + 1,
        states[0].len() == 0,
        forall|i: int|
            0 <= i < values.len() ==> pushed_back(states[i], values[i], #[trigger] states[i + 1]),
    ensures
        states.last().len() == values.len(),
        forall|i: int| 0 <= i < values.len() ==> cloned(values[i], #[trigger] states.last()[i]),
{
    lemma_appended_prefix(values, states, values.len() as int);
}

proof fn lemma_removing_some<H>(handles: Seq<H>, spent: Seq<H>)
    requires
        handles.no_duplicates(),
        spent.no_duplicates(),
        forall|i: int| 0 <= i < spent.len() ==> handles.contains(#[trigger] spent[i]),
    ensures
        after_removing(handles, spent).no_duplicates(),
        after_removing(handles, spent).len() == handles.len() - spent.len(),
        forall|h: H|
            after_removing(handles, spent).contains(h) <==> handles.contains(h) && !spent.contains(
                h,
            ),
    decreases spent.len(),
{
    if spent.len() > 0 {
        let earlier = spent.drop_last();
        let last = spent.last();
        lemma_removing_some(handles, earlier);
        let rest = after_removing(handles, earlier);
        assert(handles.contains(spent[spent.len() - 1]));
        assert(!earlier.contains(last)) by {
            if earlier.contains(last) {
                let i = choose|i: int| 0 <= i < earlier.len() && earlier[i] == last;
                assert(spent[i] == spent[spent.len() - 1]);
            }
        }
        assert(rest.contains(last));
        let at = rest.index_of(last);
        let left = rest.remove(at);
        assert forall|h: H| left.contains(h) <==> handles.contains(h) && !spent.contains(h) by {
            if left.contains(h) {
                let i = choose|i: int| 0 <= i < left.len() && left[i] == h;
                let j = if i < at {
                    i
                } else {
                    i + 1
                };
                assert(rest[j] == h);
                assert(rest.contains(h));
                assert(h != last);
                if spent.contains(h) {
                    let k = choose|k: int| 0 <= k < spent.len() && spent[k] == h;
                    assert(earlier[k] == h);
                }
            }
            if handles.contains(h) && !spent.contains(h) {
                if earlier.contains(h) {
                    let k = choose|k: int| 0 <= k < earlier.len() && earlier[k] == h;
                    assert(spent[k] == h);
                }
                assert(rest.contains(h));
                let j = choose|j: int| 0 <= j < rest.len() && rest[j] == h;
                assert(h != spent[spent.len() - 1]);
                if j < at {
                    assert(left[j] == h);
                } else {
                    assert(left[j - 1] == h);
                }
            }
        }
        assert forall|i: int, j: int|
            0 <= i < left.len() && 0 <= j < left.len() && i != j implies left[i] != left[j] by {
            let a = if i < at {
                i
            } else {
                i + 1
            };
            let b = if j < at {
                j
            } else {
                j + 1
            };
            assert(rest[a] != rest[b]);
        }
    }
}

/// Removing every node: when each handle of a list is removed once, in any
/// order, every removal finds its handle still there, and nothing is left
/// at the end.
pub proof fn lemma_remove_all<H>(handles: Seq<H>, spent: Seq<H>)
    requires
        handles.no_duplicates(),
        spent.no_duplicates(),
        spent.len() == handles.len(),
        forall|i: int| 0 <= i < spent.len() ==> handles.contains(#[trigger] spent[i]),
    ensures
        forall|k: int|
            0 <= k < spent.len() ==> (#[trigger] after_removing(handles, spent.take(k))).contains(
                spent[k],
            ),
        after_removing(handles, spent).len() == 0,
{
    lemma_removing_some(handles, spent);
    assert forall|k: int| 0 <= k < spent.len() implies (#[trigger] after_removing(
        handles,
        spent.take(k),
    )).contains(spent[k]) by {
        let earlier = spent.take(k);
        assert forall|i: int| 0 <= i < earlier.len() implies handles.contains(
            #[trigger] earlier[i],
        ) by {
            assert(earlier[i] == spent[i]);
        }
        lemma_removing_some(handles, earlier);
        if earlier.contains(spent[k]) {
            let i = choose|i: int| 0 <= i < earlier.len() && earlier[i] == spent[k];
            assert(spent[i] == spent[k]);
        }
    }
}

impl<T> DoublyLinkedList<T> {
    /// The payloads from head to tail, as a walk gives them.
    pub fn to_vec(&self) -> (values: Vec<&T>)
        requires
            self.wf(),
        ensures
            values@.len() == self@.len(),
            forall|i: int| 0 <= i < values@.len() ==> *values@[i] == self@[i],
    {
        let mut walk = self.iter();
        let mut values: Vec<&T> = Vec::new();
        loop
            invariant
                walk.wf(),
                values@.len() + walk.remaining().len() == self@.len(),
                walk.remaining() == self@.skip(values@.len() as int),
                forall|i: int| 0 <= i < values@.len() ==> *values@[i] == self@[i],
            decreases walk.remaining().len(),
        {
            match walk.next() {
                Some(value) => {
                    values.push(value);
                },
                None => {
                    return values;
                },
            }
        }
    }
}

impl<T: Clone> DoublyLinkedList<T> {
    /// Adds element to an end of the list
    pub fn push_back(&mut self, value: &T) -> (node: NodeLink<T>)
        requires
            old(self).wf(),
        ensures
            final(self).wf(),
            pushed_back(old(self)@, *value, final(self)@),
            final(self).handles() == old(self).handles().push(node),
            final(self).issued() == old(self).issued().insert(node),
            !old(self).issued().contains(node),
    {
        proof {
            self.lemma_ends();
        }
        let ghost at = self.order@.len() as int;
        let tail = self.tail;
        let data = value.clone();
        let slot = self.insert_at(data, tail, None, Ghost(at));
        proof {
            assert(self@.drop_last() =~= old(self)@);
            assert(self.handles() =~= old(self).handles().push(self.handle_of(slot)));
        }
        self.link(slot)
    }

    /// Adds element to the start of the list
    pub fn push_front(&mut self, value: &T) -> (node: NodeLink<T>)
        requires
            old(self).wf(),
        ensures
            final(self).wf(),
            final(self)@.len() == old(self)@.len() + 1,
            final(self)@.drop_first() == old(self)@,
            cloned(*value, final(self)@.first()),
            final(self).handles() == old(self).handles().insert(0, node),
            final(self).issued() == old(self).issued().insert(node),
            !old(self).issued().contains(node),
    {
        proof {
            self.lemma_ends();
        }
        let head = self.head;
        let data = value.clone();
        let slot = self.insert_at(data, None, head, Ghost(0));
        proof {
            assert(self@.drop_first() =~= old(self)@);
        }
        self.link(slot)
    }

    /// Adds element right after the node of `node`
    pub fn push_after(&mut self, node: &NodeLink<T>, value: &T) -> (new: NodeLink<T>)
        requires
            old(self).wf(),
            old(self).handles().contains(*node),
        ensures
            final(self).wf(),
            final(self)@.len() == old(self)@.len() + 1,
            final(self)@.remove(old(self).handles().index_of(*node) + 1) == old(self)@,
            cloned(*value, final(self)@[old(self).handles().index_of(*node) + 1]),
            final(self).handles() == old(self).handles().insert(
                old(self).handles().index_of(*node) + 1,
                new,
            ),
            final(self).issued() == old(self).issued().insert(new),
            !old(self).issued().contains(new),
    {
        let ghost at = self.lemma_handle_position(*node);
        proof {
            self.lemma_position(at);
        }
        let next = self.nodes[node.slot].next;
        let data = value.clone();
        let slot = self.insert_at(data, Some(node.slot), next, Ghost(at + 1));
        proof {
            assert(self@.remove(at + 1) =~= old(self)@);
        }
        self.link(slot)
    }

    /// Adds element right before the node of `node`
    pub fn push_before(&mut self, node: &NodeLink<T>, value: &T) -> (new: NodeLink<T>)
        requires
            old(self).wf(),
            old(self).handles().contains(*node),
        ensures
            final(self).wf(),
            final(self)@.len() == old(self)@.len() + 1,
            final(self)@.remove(old(self).handles().index_of(*node)) == old(self)@,
            cloned(*value, final(self)@[old(self).handles().index_of(*node)]),
            final(self).handles() == old(self).handles().insert(
                old(self).handles().index_of(*node),
                new,
            ),
            final(self).issued() == old(self).issued().insert(new),
            !old(self).issued().contains(new),
    {
        let ghost at = self.lemma_handle_position(*node);
        proof {
            self.lemma_position(at);
        }
        let prev = self.nodes[node.slot].prev;
        let data = value.clone();
        let slot = self.insert_at(data, prev, Some(node.slot), Ghost(at));
        proof {
            assert(self@.remove(at) =~= old(self)@);
        }
        self.link(slot)
    }
}

impl<'a, T> DoublyLinkedListIterator<'a, T> {
    /// The walk stands at a node of a well-formed list, or past its end.
    pub closed spec fn wf(&self) -> bool {
        &&& self.list.wf()
        &&& 0 <= self.position@ <= self.list.order@.len()
        &&& self.item == self.list.slot_at(self.position@)
    }

    /// The payloads that the walk has yet to give, in order.
    pub closed spec fn remaining(&self) -> Seq<T> {
        self.list@.skip(self.position@)
    }

    /// Gives the next payload and moves on, or `None` at the end.
    pub fn next(&mut self) -> (value: Option<&'a T>)
        requires
            old(self).wf(),
        ensures
            final(self).wf(),
            old(self).remaining().len() == 0 ==> value is None && final(self).remaining() == old(
                self,
            ).remaining(),
            old(self).remaining().len() > 0 ==> value == Some(&old(self).remaining().first())
                && final(self).remaining() == old(self).remaining().drop_first(),
    {
        proof {
            self.list.lemma_ends();
        }
        match self.item {
            Some(slot) => {
                proof {
                    self.list.lemma_position(self.position@);
                    assert(self.list@.skip(self.position@ + 1) =~= self.list@.skip(
                        self.position@,
                    ).drop_first());
                }
                let list = self.list;
                let node = &list.nodes[slot];
                self.item = node.next;
                self.position = Ghost(self.position@ + 1);
                node.data.as_ref()
            },
            None => None,
        }
    }
}

} // verus!
