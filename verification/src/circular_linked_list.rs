//! A capacity-bounded circular list: insertion always happens at the head,
//! and once the list is full the oldest element (the tail) is evicted to
//! make room. The chain is linear while the list is filling; the moment it
//! reaches capacity the last node's `next` and the first node's `prev` are
//! linked to each other, closing the ring.
//!
//! Nodes live in an arena and are linked by stable indices, as in the
//! doubly linked list. Eviction reads the tail through the `tail` link and
//! reuses its slot for the new head in O(1), rather than re-walking the
//! chain from the head; the walk would find the same node at O(k) cost.

use vstd::prelude::*;

verus! {

/// A single storage cell: a value plus non-owning forward and backward links.
pub struct Node<T> {
    pub value: T,
    pub next: Option<usize>,
    pub prev: Option<usize>,
}

impl<T> Node<T> {
    /// A fresh, unlinked node.
    pub fn new(t: T) -> (n: Node<T>)
        ensures
            n.value == t,
            n.next is None,
            n.prev is None,
    {
        Node { value: t, next: None, prev: None }
    }
}

/// What one head insertion leaves in a ring of capacity `max`: the new value
/// in front, and the oldest value dropped once the ring is full.
pub open spec fn ring_insert<T>(s: Seq<T>, v: T, max: nat) -> Seq<T> {
    if s.len() < max {
        seq![v] + s
    } else {
        (seq![v] + s).take(max as int)
    }
}

/// The bounded circular list: the arena, the two end links, the fill level
/// and the capacity, and the ghost head-to-tail order of arena indices.
pub struct CircularLinkedList<T> {
    pub head: Option<usize>,
    pub tail: Option<usize>,
    pub current_length: u32,
    pub max_length: u32,
    pub nodes: Vec<Option<Node<T>>>,
    pub order: Ghost<Seq<usize>>,
}

impl<T> CircularLinkedList<T> {
    /// The node standing at position `k` of the head-to-tail order.
    pub open spec fn node_at(&self, k: int) -> Node<T> {
        self.nodes@[self.order@[k] as int]->Some_0
    }

    /// Position `k` of the head-to-tail order names a live arena slot.
    pub open spec fn live_at(&self, k: int) -> bool {
        &&& (self.order@[k] as int) < self.nodes@.len()
        &&& self.nodes@[self.order@[k] as int] is Some
    }

    /// While the list is still filling, the chain is open: the ends carry
    /// absent links and every inner link names the neighbouring node.
    pub open spec fn open_chain_links(&self) -> bool {
        let ord = self.order@;
        &&& (forall|k: int| 0 <= k < ord.len() ==>
            (#[trigger] self.node_at(k)).prev == (if k == 0 { None::<usize> } else {
                Some(ord[k - 1])
            }))
        &&& (forall|k: int| 0 <= k < ord.len() ==>
            (#[trigger] self.node_at(k)).next == (if k == ord.len() - 1 {
                None::<usize>
            } else {
                Some(ord[k + 1])
            }))
    }

    /// At capacity the chain is closed into a ring: the last node's `next`
    /// wraps to the head and the first node's `prev` wraps to the tail.
    pub open spec fn ring_links(&self) -> bool {
        let ord = self.order@;
        &&& (forall|k: int| 0 <= k < ord.len() ==>
            (#[trigger] self.node_at(k)).prev == Some(
                ord[if k == 0 { ord.len() - 1 } else { k - 1 }],
            ))
        &&& (forall|k: int| 0 <= k < ord.len() ==>
            (#[trigger] self.node_at(k)).next == Some(
                ord[if k == ord.len() - 1 { 0 } else { k + 1 }],
            ))
    }

    /// The ownership and link discipline of the ring: a positive capacity,
    /// a fill level within it, distinct live slots in the recorded order,
    /// `head` and `tail` at its two ends, and the links open while filling
    /// and wrapped once full.
    pub open spec fn well_formed(&self) -> bool {
        let ord = self.order@;
        &&& 1 <= self.max_length
        &&& self.current_length <= self.max_length
        &&& ord.len() == self.current_length as int
        &&& (forall|k: int| 0 <= k < ord.len() ==> #[trigger] self.live_at(k))
        &&& (forall|k1: int, k2: int|
            0 <= k1 < k2 < ord.len() ==> ord[k1] != ord[k2])
        &&& self.head == (if ord.len() == 0 { None::<usize> } else { Some(ord[0]) })
        &&& self.tail == (if ord.len() == 0 { None::<usize> } else {
            Some(ord[ord.len() - 1])
        })
        &&& if self.current_length < self.max_length {
            self.open_chain_links()
        } else {
            self.ring_links()
        }
    }
}

impl<T> View for CircularLinkedList<T> {
    type V = Seq<T>;

    /// The values held by the ring, from the newest (head) to the oldest
    /// (tail).
    open spec fn view(&self) -> Seq<T> {
        Seq::new(self.order@.len(), |k: int| self.node_at(k).value)
    }
}

impl<T> CircularLinkedList<T> {
    /// An empty ring of capacity `max_length`; a capacity of zero is not a
    /// supported configuration and is rejected here, at construction.
    pub fn new(max_length: u32) -> (list: Self)
        requires
            max_length >= 1,
        ensures
            list.well_formed(),
            list@ == Seq::<T>::empty(),
            list.current_length == 0,
            list.max_length == max_length,
    {
        let list = CircularLinkedList {
            head: None,
            tail: None,
            current_length: 0,
            max_length,
            nodes: Vec::new(),
            order: Ghost(Seq::empty()),
        };
        proof {
            assert(list@ =~= Seq::<T>::empty());
        }
        list
    }

    /// Insert a value at the head. While the list is filling this is a plain
    /// head insertion; the insertion that reaches capacity also closes the
    /// ring; once full, the oldest element (the tail) is evicted and its
    /// slot is reused for the new head, the next-oldest taking over as tail.
    pub fn insert_at_head(&mut self, object: T)
        requires
            old(self).well_formed(),
        ensures
            final(self).well_formed(),
            final(self)@ == ring_insert(old(self)@, object, old(self).max_length as nat),
            final(self).max_length == old(self).max_length,
            final(self).current_length == (if old(self).current_length < old(
                self,
            ).max_length {
                old(self).current_length + 1
            } else {
                old(self).max_length as int
            }),
    {
        if self.current_length < self.max_length - 1 {
            // still filling and staying under capacity: ordinary open-chain
            // head insertion
            let idx = self.nodes.len();
            self.nodes.push(Some(Node { value: object, next: self.head, prev: None }));
            match self.head {
                None => {
                    self.tail = Some(idx);
                },
                Some(h) => {
                    let mut slot: Option<Node<T>> = None;
                    proof {
                        assert(old(self).live_at(0));
                    }
                    core::mem::swap(&mut self.nodes[h], &mut slot);
                    let mut old_head = slot.unwrap();
                    old_head.prev = Some(idx);
                    self.nodes[h] = Some(old_head);
                },
            }
            self.head = Some(idx);
            self.current_length = self.current_length + 1;
            proof {
                self.order@ = seq![idx] + self.order@;
            }
            proof {
                let pre = *old(self);
                let ord = self.order@;
                let n = ord.len();
                if pre.order@.len() == 0 {
                    assert(self.live_at(0));
                } else {
                    let h = pre.order@[0];
                    assert(pre.live_at(0));
                    assert forall|k: int| 1 <= k < n implies #[trigger] self.live_at(k) by {
                        assert(pre.live_at(k - 1));
                    }
                    assert forall|k: int| 1 <= k < n implies (#[trigger] self.node_at(
                        k,
                    )).value == pre.node_at(k - 1).value && (k >= 2 ==> self.node_at(k)
                        == pre.node_at(k - 1)) by {
                        assert(pre.live_at(k - 1));
                        if k >= 2 {
                            assert(pre.order@[k - 1] != h);
                        }
                    }
                    assert(self.live_at(0));
                    assert(self.node_at(1).prev == Some(idx));
                    assert(self.node_at(1).next == pre.node_at(0).next);
                    assert forall|k1: int, k2: int| 0 <= k1 < k2 < n implies ord[k1]
                        != ord[k2] by {
                        if k1 == 0 {
                            assert(pre.live_at(k2 - 1));
                        }
                    }
                }
                assert(self@ =~= ring_insert(pre@, object, pre.max_length as nat));
            }
        } else if self.current_length < self.max_length {
            // the insertion that reaches capacity: link the new node as head
            // and close the ring between the last node and the new head
            let idx = self.nodes.len();
            if self.current_length == 0 {
                // a ring of capacity one: the single node wraps to itself
                self.nodes.push(Some(Node { value: object, next: Some(idx), prev: Some(idx) }));
                self.head = Some(idx);
                self.tail = Some(idx);
                self.current_length = 1;
                proof {
                    self.order@ = seq![idx];
                    assert(self.live_at(0));
                    assert(self@ =~= ring_insert(old(self)@, object, old(self).max_length as nat));
                }
            } else {
                let h = self.head.unwrap();
                let t = self.tail.unwrap();
                self.nodes.push(Some(Node { value: object, next: Some(h), prev: Some(t) }));
                let mut slot: Option<Node<T>> = None;
                proof {
                    assert(old(self).live_at(0));
                    assert(old(self).live_at(old(self).order@.len() - 1));
                }
                core::mem::swap(&mut self.nodes[h], &mut slot);
                let mut old_head = slot.unwrap();
                old_head.prev = Some(idx);
                self.nodes[h] = Some(old_head);
                let mut slot2: Option<Node<T>> = None;
                core::mem::swap(&mut self.nodes[t], &mut slot2);
                let mut old_tail = slot2.unwrap();
                old_tail.next = Some(idx);
                self.nodes[t] = Some(old_tail);
                self.head = Some(idx);
                self.current_length = self.current_length + 1;
                proof {
                    self.order@ = seq![idx] + self.order@;
                }
                proof {
                    let pre = *old(self);
                    let ord = self.order@;
                    let n = ord.len();
                    let m = pre.order@.len();
                    let h_g = pre.order@[0];
                    let t_g = pre.order@[m - 1];
                    assert forall|k: int| 1 <= k < n implies #[trigger] self.live_at(k) by {
                        assert(pre.live_at(k - 1));
                    }
                    assert forall|k: int| 1 <= k < n implies (#[trigger] self.node_at(
                        k,
                    )).value == pre.node_at(k - 1).value && (2 <= k < n - 1 ==> self.node_at(
                        k,
                    ) == pre.node_at(k - 1)) by {
                        assert(pre.live_at(k - 1));
                        if 2 <= k < n - 1 {
                            assert(pre.order@[k - 1] != h_g);
                            assert(pre.order@[k - 1] != t_g);
                        }
                    }
                    assert(self.live_at(0));
                    assert(self.node_at(0).next == Some(h_g) && self.node_at(0).prev == Some(
                        t_g,
                    ));
                    if m == 1 {
                        assert(self.node_at(1).prev == Some(idx) && self.node_at(1).next
                            == Some(idx));
                    } else {
                        assert(h_g != t_g);
                        assert(self.node_at(1).prev == Some(idx));
                        assert(self.node_at(1).next == pre.node_at(0).next);
                        assert(self.node_at(n - 1).next == Some(idx));
                        assert(self.node_at(n - 1).prev == pre.node_at(m - 1).prev);
                    }
                    assert forall|k1: int, k2: int| 0 <= k1 < k2 < n implies ord[k1]
                        != ord[k2] by {
                        if k1 == 0 {
                            assert(pre.live_at(k2 - 1));
                        }
                    }
                    assert(self.ring_links());
                    assert(self@ =~= ring_insert(pre@, object, pre.max_length as nat));
                }
            }
        } else {
            // full: evict the oldest element (the tail), reuse its slot for
            // the new head, and let the next-oldest node take over as tail;
            // its links already wrap to the reused slot, so only that slot
            // and the two end links change
            let t = self.tail.unwrap();
            let mut slot: Option<Node<T>> = None;
            proof {
                assert(old(self).live_at(old(self).order@.len() - 1));
            }
            core::mem::swap(&mut self.nodes[t], &mut slot);
            let evicted = slot.unwrap();
            let p = evicted.prev.unwrap();
            self.nodes[t] = Some(Node { value: object, next: self.head, prev: Some(p) });
            self.head = Some(t);
            self.tail = Some(p);
            proof {
                let m = old(self).order@.len();
                self.order@ = seq![old(self).order@[m - 1]] + old(self).order@.take(m - 1);
            }
            proof {
                let pre = *old(self);
                let ord = self.order@;
                let n = ord.len();
                let m = pre.order@.len();
                let t_g = pre.order@[m - 1];
                assert(pre.live_at(m - 1));
                assert(evicted == pre.node_at(m - 1));
                assert(p == pre.order@[if m == 1 { m - 1 } else { m - 2 }]);
                assert forall|k: int| 1 <= k < n implies #[trigger] self.live_at(k) by {
                    assert(pre.live_at(k - 1));
                    assert(pre.order@[k - 1] != t_g);
                }
                assert forall|k: int| 1 <= k < n implies #[trigger] self.node_at(k)
                    == pre.node_at(k - 1) by {
                    assert(pre.live_at(k - 1));
                    assert(pre.order@[k - 1] != t_g);
                }
                assert(self.live_at(0));
                assert(self.node_at(0).value == object);
                assert(self.node_at(0).next == pre.head);
                assert(self.node_at(0).prev == Some(p));
                assert forall|k1: int, k2: int| 0 <= k1 < k2 < n implies ord[k1]
                    != ord[k2] by {
                    if k1 == 0 {
                        assert(pre.live_at(k2 - 1));
                    }
                }
                assert(self.ring_links());
                assert(self@ =~= ring_insert(pre@, object, pre.max_length as nat));
            }
        }
    }
}

/// The contents left behind by a whole run of head insertions, oldest value
/// first in `vals`.
pub open spec fn ring_fold<T>(vals: Seq<T>, max: nat) -> Seq<T>
    decreases vals.len(),
{
    if vals.len() == 0 {
        Seq::<T>::empty()
    } else {
        ring_insert(ring_fold(vals.drop_last(), max), vals.last(), max)
    }
}

/// Law: inserting any run of values one at a time into a ring of capacity
/// `max` leaves exactly the most recent `max` of them (all of them while
/// fewer), ordered from the newest down.
pub proof fn lemma_ring_fill<T>(vals: Seq<T>, max: nat)
    requires
        max >= 1,
    ensures
        ring_fold(vals, max).len() == (if vals.len() < max {
            vals.len()
        } else {
            max
        }),
        forall|j: int|
            0 <= j < ring_fold(vals, max).len() ==> ring_fold(vals, max)[j] == vals[vals.len()
                - 1 - j],
    decreases vals.len(),
{
    if vals.len() > 0 {
        lemma_ring_fill(vals.drop_last(), max);
        let prefix = ring_fold(vals.drop_last(), max);
        let whole = ring_fold(vals, max);
        assert(whole == ring_insert(prefix, vals.last(), max));
        assert forall|j: int| 0 <= j < whole.len() implies whole[j] == vals[vals.len() - 1
            - j] by {
            if j > 0 {
                assert(prefix[j - 1] == vals.drop_last()[vals.len() - 1 - j]);
            }
        }
    }
}

} // verus!
