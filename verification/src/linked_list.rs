//! A doubly linked list over an arena of nodes addressed by stable indices.
//!
//! Every node holds a value and two optional links. The list owns the arena;
//! the links `next` and `prev` are plain indices into it, so both directions
//! of every link can be stated and checked. A ghost sequence records the
//! arena index of each node in forward (head to tail) order; well-formedness
//! ties the `head`, `tail` and every link field to that sequence.

use vstd::prelude::*;

verus! {

/// A single storage cell: a value plus non-owning forward and backward links.
pub struct Node<T> {
    pub value: T,
    pub next: Option<usize>,
    pub prev: Option<usize>,
}

impl<T> Node<T> {
    /// A fresh, unlinked node.
    pub fn new(t: T) -> (n: Node<T>)
        ensures
            n.value == t,
            n.next is None,
            n.prev is None,
    {
        Node { value: t, next: None, prev: None }
    }
}

/// A doubly linked list: the arena of nodes, the two end links, and the
/// ghost forward order of arena indices.
pub struct LinkedList<T> {
    pub length: u32,
    pub head: Option<usize>,
    pub tail: Option<usize>,
    pub nodes: Vec<Option<Node<T>>>,
    pub order: Ghost<Seq<usize>>,
}

impl<T> LinkedList<T> {
    /// The node standing at position `k` of the forward order.
    pub open spec fn node_at(&self, k: int) -> Node<T> {
        self.nodes@[self.order@[k] as int]->Some_0
    }

    /// Position `k` of the forward order names a live arena slot.
    pub open spec fn live_at(&self, k: int) -> bool {
        &&& (self.order@[k] as int) < self.nodes@.len()
        &&& self.nodes@[self.order@[k] as int] is Some
    }

    /// The ownership and link discipline of the list:
    /// the recorded order names distinct live slots, `head` and `tail` are
    /// its two ends, the first node's `prev` and the last node's `next` are
    /// absent, and every other link names the neighbouring node.
    pub open spec fn well_formed(&self) -> bool {
        let ord = self.order@;
        &&& ord.len() == self.length as int
        &&& (forall|k: int| 0 <= k < ord.len() ==> #[trigger] self.live_at(k))
        &&& (forall|k1: int, k2: int|
            0 <= k1 < k2 < ord.len() ==> ord[k1] != ord[k2])
        &&& self.head == (if ord.len() == 0 { None::<usize> } else { Some(ord[0]) })
        &&& self.tail == (if ord.len() == 0 { None::<usize> } else {
            Some(ord[ord.len() - 1])
        })
        &&& (forall|k: int| 0 <= k < ord.len() ==>
            (#[trigger] self.node_at(k)).prev == (if k == 0 { None::<usize> } else {
                Some(ord[k - 1])
            }))
        &&& (forall|k: int| 0 <= k < ord.len() ==>
            (#[trigger] self.node_at(k)).next == (if k == ord.len() - 1 {
                None::<usize>
            } else {
                Some(ord[k + 1])
            }))
    }
}

/// One forward step from `link`: the `next` link of the node it names, or
/// absence where the link is absent, out of range, or names a freed slot.
pub open spec fn link_next<T>(nodes: Seq<Option<Node<T>>>, link: Option<usize>) -> Option<
    usize,
> {
    match link {
        None => None,
        Some(i) => if (i as int) < nodes.len() && nodes[i as int] is Some {
            nodes[i as int]->Some_0.next
        } else {
            None
        },
    }
}

/// The link reached after `steps` forward steps from `link`.
pub open spec fn walk<T>(
    nodes: Seq<Option<Node<T>>>,
    link: Option<usize>,
    steps: nat,
) -> Option<usize>
    decreases steps,
{
    if steps == 0 {
        link
    } else {
        link_next(nodes, walk(nodes, link, (steps - 1) as nat))
    }
}

/// Stepping first and walking the rest is the same as walking and then
/// stepping: the two readings of a forward traversal agree.
pub proof fn lemma_walk_shift<T>(nodes: Seq<Option<Node<T>>>, link: Option<usize>, steps: nat)
    requires
        steps >= 1,
    ensures
        walk(nodes, link, steps) == walk(nodes, link_next(nodes, link), (steps - 1) as nat),
    decreases steps,
{
    let s1 = (steps - 1) as nat;
    if steps == 1 {
        assert(walk(nodes, link, 1) == link_next(nodes, walk(nodes, link, 0)));
    } else {
        lemma_walk_shift(nodes, link, s1);
        assert(walk(nodes, link_next(nodes, link), s1) == link_next(
            nodes,
            walk(nodes, link_next(nodes, link), (s1 - 1) as nat),
        ));
    }
}

/// A walk that starts nowhere stays nowhere.
pub proof fn lemma_walk_absent<T>(nodes: Seq<Option<Node<T>>>, steps: nat)
    ensures
        walk(nodes, None::<usize>, steps) is None,
    decreases steps,
{
    if steps > 0 {
        lemma_walk_absent(nodes, (steps - 1) as nat);
    }
}

/// The value stored at the node that `link` names, where it names one.
pub open spec fn node_value_at<T>(nodes: Seq<Option<Node<T>>>, link: Option<usize>) -> Option<
    T,
> {
    match link {
        None => None,
        Some(i) => if (i as int) < nodes.len() && nodes[i as int] is Some {
            Some(nodes[i as int]->Some_0.value)
        } else {
            None
        },
    }
}

/// One backward step from `link`: the `prev` link of the node it names.
pub open spec fn link_prev<T>(nodes: Seq<Option<Node<T>>>, link: Option<usize>) -> Option<
    usize,
> {
    match link {
        None => None,
        Some(i) => if (i as int) < nodes.len() && nodes[i as int] is Some {
            nodes[i as int]->Some_0.prev
        } else {
            None
        },
    }
}

/// The link reached after `steps` backward steps from `link`.
pub open spec fn walk_back<T>(
    nodes: Seq<Option<Node<T>>>,
    link: Option<usize>,
    steps: nat,
) -> Option<usize>
    decreases steps,
{
    if steps == 0 {
        link
    } else {
        link_prev(nodes, walk_back(nodes, link, (steps - 1) as nat))
    }
}

/// In a well-formed list the backward walk visits the recorded order in
/// reverse: step `k` from the tail stands on the `k`-th node from the end,
/// and the walk ends right after the head.
pub proof fn lemma_walk_back_well_formed<T>(list: LinkedList<T>, steps: nat)
    requires
        list.well_formed(),
    ensures
        walk_back(list.nodes@, list.tail, steps) == (if steps < list.order@.len() {
            Some(list.order@[list.order@.len() - 1 - steps])
        } else {
            None::<usize>
        }),
    decreases steps,
{
    if steps > 0 {
        lemma_walk_back_well_formed(list, (steps - 1) as nat);
        if steps - 1 < list.order@.len() {
            let j = list.order@.len() - steps;
            assert(list.live_at(j));
            assert(list.node_at(j).prev == (if j == 0 {
                None::<usize>
            } else {
                Some(list.order@[j - 1])
            }));
        }
    }
}

/// Law: in a well-formed list, walking `next` from the head and walking
/// `prev` from the tail visit the same nodes in mirrored order and read the
/// same values; both walks run off the end after exactly `length` steps, so
/// `length` counts precisely the reachable nodes.
pub proof fn lemma_forward_backward_mirror<T>(list: LinkedList<T>)
    requires
        list.well_formed(),
    ensures
        list@.len() == list.length,
        forall|k: int|
            0 <= k < list@.len() ==> #[trigger] walk(list.nodes@, list.head, k as nat)
                == walk_back(list.nodes@, list.tail, (list@.len() - 1 - k) as nat),
        forall|k: int|
            0 <= k < list@.len() ==> node_value_at(
                list.nodes@,
                #[trigger] walk(list.nodes@, list.head, k as nat),
            ) == Some(list@[k]),
        walk(list.nodes@, list.head, list.length as nat) is None,
        walk_back(list.nodes@, list.tail, list.length as nat) is None,
{
    assert forall|k: int| 0 <= k < list@.len() implies #[trigger] walk(
        list.nodes@,
        list.head,
        k as nat,
    ) == walk_back(list.nodes@, list.tail, (list@.len() - 1 - k) as nat) && node_value_at(
        list.nodes@,
        walk(list.nodes@, list.head, k as nat),
    ) == Some(list@[k]) by {
        lemma_walk_well_formed(list, k as nat);
        lemma_walk_back_well_formed(list, (list@.len() - 1 - k) as nat);
        assert(list.live_at(k));
    }
    lemma_walk_well_formed(list, list.length as nat);
    lemma_walk_back_well_formed(list, list.length as nat);
}

/// In a well-formed list the forward walk visits exactly the recorded order:
/// step `k` stands on the `k`-th node and the walk ends right after the tail.
pub proof fn lemma_walk_well_formed<T>(list: LinkedList<T>, steps: nat)
    requires
        list.well_formed(),
    ensures
        walk(list.nodes@, list.head, steps) == (if steps < list.order@.len() {
            Some(list.order@[steps as int])
        } else {
            None::<usize>
        }),
    decreases steps,
{
    if steps > 0 {
        lemma_walk_well_formed(list, (steps - 1) as nat);
        if steps - 1 < list.order@.len() {
            assert(list.live_at(steps - 1));
            assert(list.node_at(steps - 1).next == (if steps - 1 == list.order@.len() - 1 {
                None::<usize>
            } else {
                Some(list.order@[steps as int])
            }));
        }
    }
}

/// Law: the indexed insert agrees observationally with the end inserts.
/// `insert_at_ith` leaves the view `s.insert(0, v)` at position zero and
/// `s.insert(s.len(), v)` at position `length`; those are exactly the views
/// that `insert_at_head` and `insert_at_tail` leave, so no sequence of list
/// operations can tell the calls apart.
pub proof fn lemma_indexed_insert_agrees<T>(s: Seq<T>, v: T)
    ensures
        s.insert(0, v) == seq![v] + s,
        s.insert(s.len() as int, v) == s.push(v),
{
    assert(s.insert(0, v) =~= seq![v] + s);
    assert(s.insert(s.len() as int, v) =~= s.push(v));
}

/// Law: values inserted at the tail come back out of the head in the same
/// order. A run of tail inserts leaves the view `w`; each head delete
/// returns the first element of the view it finds and leaves the rest, so
/// after `k` deletes the list holds the suffix of `w` from `k` and the next
/// delete returns `w[k]`.
pub proof fn lemma_fifo_round_trip<T>(w: Seq<T>, k: int)
    requires
        0 <= k < w.len(),
    ensures
        w.subrange(k, w.len() as int)[0] == w[k],
        w.subrange(k, w.len() as int).subrange(
            1,
            w.subrange(k, w.len() as int).len() as int,
        ) == w.subrange(k + 1, w.len() as int),
{
    assert(w.subrange(k, w.len() as int).subrange(
        1,
        w.subrange(k, w.len() as int).len() as int,
    ) =~= w.subrange(k + 1, w.len() as int));
}

impl<T> View for LinkedList<T> {
    type V = Seq<T>;

    /// The values held by the list, in forward (head to tail) order.
    open spec fn view(&self) -> Seq<T> {
        Seq::new(self.order@.len(), |k: int| self.node_at(k).value)
    }
}

impl<T> LinkedList<T> {
    /// An empty list.
    pub fn new() -> (list: Self)
        ensures
            list.well_formed(),
            list@ == Seq::<T>::empty(),
            list.length == 0,
    {
        let list = LinkedList {
            length: 0,
            head: None,
            tail: None,
            nodes: Vec::new(),
            order: Ghost(Seq::empty()),
        };
        proof {
            assert(list@ =~= Seq::<T>::empty());
        }
        list
    }

    /// Make a new node the head; the old head's `prev` starts pointing at it,
    /// or, in an empty list, the node becomes the tail as well.
    pub fn insert_at_head(&mut self, object: T)
        requires
            old(self).well_formed(),
            old(self).length < u32::MAX,
        ensures
            final(self).well_formed(),
            final(self)@ == seq![object] + old(self)@,
            final(self).length == old(self).length + 1,
    {
        let idx = self.nodes.len();
        let node = Node { value: object, next: self.head, prev: None };
        self.nodes.push(Some(node));
        match self.head {
            None => {
                self.tail = Some(idx);
            },
            Some(h) => {
                let mut slot: Option<Node<T>> = None;
                proof {
                    assert(old(self).live_at(0));
                }
                core::mem::swap(&mut self.nodes[h], &mut slot);
                let mut old_head = slot.unwrap();
                old_head.prev = Some(idx);
                self.nodes[h] = Some(old_head);
            },
        }
        self.head = Some(idx);
        self.length = self.length + 1;
        proof {
            self.order@ = seq![idx] + self.order@;
        }
        proof {
            let pre = *old(self);
            let ord = self.order@;
            let n = ord.len();
            if pre.order@.len() == 0 {
                assert(self.live_at(0));
                assert(self@ =~= seq![object] + pre@);
            } else {
                let h = pre.order@[0];
                assert(pre.live_at(0));
                assert forall|k: int| 1 <= k < n implies #[trigger] self.live_at(k) by {
                    assert(pre.live_at(k - 1));
                }
                assert forall|k: int| 1 <= k < n implies (#[trigger] self.node_at(
                    k,
                )).value == pre.node_at(k - 1).value && (k >= 2 ==> self.node_at(k)
                    == pre.node_at(k - 1)) by {
                    assert(pre.live_at(k - 1));
                    if k >= 2 {
                        assert(pre.order@[k - 1] != h);
                    }
                }
                assert(self.live_at(0));
                assert(self.node_at(1).prev == Some(idx));
                assert(self.node_at(1).next == pre.node_at(0).next);
                assert forall|k1: int, k2: int| 0 <= k1 < k2 < n implies ord[k1]
                    != ord[k2] by {
                    if k1 == 0 {
                        assert(pre.live_at(k2 - 1));
                    }
                }
                assert(self@ =~= seq![object] + pre@);
            }
        }
    }
    /// Make a new node the tail; the old tail's `next` starts pointing at it,
    /// or, in an empty list, the node becomes the head as well.
    pub fn insert_at_tail(&mut self, object: T)
        requires
            old(self).well_formed(),
            old(self).length < u32::MAX,
        ensures
            final(self).well_formed(),
            final(self)@ == old(self)@.push(object),
            final(self).length == old(self).length + 1,
    {
        let idx = self.nodes.len();
        let node = Node { value: object, next: None, prev: self.tail };
        self.nodes.push(Some(node));
        match self.tail {
            None => {
                self.head = Some(idx);
            },
            Some(t) => {
                let mut slot: Option<Node<T>> = None;
                proof {
                    assert(old(self).live_at(old(self).order@.len() - 1));
                }
                core::mem::swap(&mut self.nodes[t], &mut slot);
                let mut old_tail = slot.unwrap();
                old_tail.next = Some(idx);
                self.nodes[t] = Some(old_tail);
            },
        }
        self.tail = Some(idx);
        self.length = self.length + 1;
        proof {
            self.order@ = self.order@.push(idx);
        }
        proof {
            let pre = *old(self);
            let ord = self.order@;
            let n = ord.len();
            let m = pre.order@.len();
            if m == 0 {
                assert(self.live_at(0));
                assert(self@ =~= pre@.push(object));
            } else {
                let t = pre.order@[m - 1];
                assert(pre.live_at(m - 1));
                assert forall|k: int| 0 <= k < m implies #[trigger] self.live_at(k) by {
                    assert(pre.live_at(k));
                }
                assert forall|k: int| 0 <= k < m implies (#[trigger] self.node_at(
                    k,
                )).value == pre.node_at(k).value && (k < m - 1 ==> self.node_at(k)
                    == pre.node_at(k)) by {
                    assert(pre.live_at(k));
                    if k < m - 1 {
                        assert(pre.order@[k] != t);
                    }
                }
                assert(self.live_at(n - 1));
                assert(self.node_at(m - 1).next == Some(idx));
                assert(self.node_at(m - 1).prev == pre.node_at(m - 1).prev);
                assert forall|k1: int, k2: int| 0 <= k1 < k2 < n implies ord[k1]
                    != ord[k2] by {
                    if k2 == n - 1 {
                        assert(pre.live_at(k1));
                    }
                }
                assert(self@ =~= pre@.push(object));
            }
        }
    }

    /// Remove the head and hand its value back; an empty list reports
    /// "not present" and is left untouched.
    pub fn delete_head(&mut self) -> (r: Option<T>)
        requires
            old(self).well_formed(),
        ensures
            final(self).well_formed(),
            old(self)@.len() == 0 ==> r is None && *final(self) == *old(self),
            old(self)@.len() > 0 ==> r == Some(old(self)@[0]) && final(self)@
                == old(self)@.subrange(1, old(self)@.len() as int)
                && final(self).length == old(self).length - 1,
    {
        if self.length == 0 {
            return None;
        }
        let h = self.head.unwrap();
        let mut slot: Option<Node<T>> = None;
        proof {
            assert(old(self).live_at(0));
        }
        core::mem::swap(&mut self.nodes[h], &mut slot);
        let old_head = slot.unwrap();
        match old_head.next {
            Some(nh) => {
                let mut slot2: Option<Node<T>> = None;
                proof {
                    assert(old_head == old(self).node_at(0));
                    assert(old(self).order@.len() >= 2 && nh == old(self).order@[1]);
                    assert(old(self).live_at(1));
                    assert(old(self).order@[0] != old(self).order@[1]);
                }
                core::mem::swap(&mut self.nodes[nh], &mut slot2);
                let mut new_head = slot2.unwrap();
                new_head.prev = None;
                self.nodes[nh] = Some(new_head);
                self.head = Some(nh);
            },
            None => {
                self.head = None;
                self.tail = None;
            },
        }
        self.length = self.length - 1;
        proof {
            self.order@ = self.order@.subrange(1, self.order@.len() as int);
        }
        proof {
            let pre = *old(self);
            let ord = self.order@;
            let n = ord.len();
            let h_g = pre.order@[0];
            if n > 0 {
                let nh_g = pre.order@[1];
                assert forall|k: int| 0 <= k < n implies #[trigger] self.live_at(k) by {
                    assert(pre.live_at(k + 1));
                    assert(pre.order@[k + 1] != h_g);
                }
                assert forall|k: int| 0 <= k < n implies (#[trigger] self.node_at(
                    k,
                )).value == pre.node_at(k + 1).value && (k >= 1 ==> self.node_at(k)
                    == pre.node_at(k + 1)) by {
                    assert(pre.live_at(k + 1));
                    assert(pre.order@[k + 1] != h_g);
                    if k >= 1 {
                        assert(pre.order@[k + 1] != nh_g);
                    }
                }
                assert forall|k1: int, k2: int| 0 <= k1 < k2 < n implies ord[k1]
                    != ord[k2] by {
                    assert(ord[k1] == pre.order@[1 + k1]);
                    assert(ord[k2] == pre.order@[1 + k2]);
                }
                assert(self.node_at(0).prev is None);
                assert(self.node_at(0).next == pre.node_at(1).next);
            }
            assert(self@ =~= pre@.subrange(1, pre@.len() as int));
        }
        Some(old_head.value)
    }

    /// Remove the tail and hand its value back; an empty list reports
    /// "not present" and is left untouched.
    pub fn delete_tail(&mut self) -> (r: Option<T>)
        requires
            old(self).well_formed(),
        ensures
            final(self).well_formed(),
            old(self)@.len() == 0 ==> r is None && *final(self) == *old(self),
            old(self)@.len() > 0 ==> r == Some(old(self)@.last()) && final(self)@
                == old(self)@.drop_last() && final(self).length == old(self).length
                - 1,
    {
        if self.length == 0 {
            return None;
        }
        let t = self.tail.unwrap();
        let mut slot: Option<Node<T>> = None;
        proof {
            assert(old(self).live_at(old(self).order@.len() - 1));
        }
        core::mem::swap(&mut self.nodes[t], &mut slot);
        let old_tail = slot.unwrap();
        match old_tail.prev {
            Some(nt) => {
                let mut slot2: Option<Node<T>> = None;
                proof {
                    let m = old(self).order@.len();
                    assert(old_tail == old(self).node_at(m - 1));
                    assert(m >= 2 && nt == old(self).order@[m - 2]);
                    assert(old(self).live_at(m - 2));
                    assert(old(self).order@[m - 2] != old(self).order@[m - 1]);
                }
                core::mem::swap(&mut self.nodes[nt], &mut slot2);
                let mut new_tail = slot2.unwrap();
                new_tail.next = None;
                self.nodes[nt] = Some(new_tail);
                self.tail = Some(nt);
            },
            None => {
                self.head = None;
                self.tail = None;
            },
        }
        self.length = self.length - 1;
        proof {
            self.order@ = self.order@.drop_last();
        }
        proof {
            let pre = *old(self);
            let ord = self.order@;
            let n = ord.len();
            let m = pre.order@.len();
            let t_g = pre.order@[m - 1];
            if n > 0 {
                let nt_g = pre.order@[m - 2];
                assert forall|k: int| 0 <= k < n implies #[trigger] self.live_at(k) by {
                    assert(pre.live_at(k));
                    assert(pre.order@[k] != t_g);
                }
                assert forall|k: int| 0 <= k < n implies (#[trigger] self.node_at(
                    k,
                )).value == pre.node_at(k).value && (k < n - 1 ==> self.node_at(k)
                    == pre.node_at(k)) by {
                    assert(pre.live_at(k));
                    assert(pre.order@[k] != t_g);
                    if k < n - 1 {
                        assert(pre.order@[k] != nt_g);
                    }
                }
                assert(self.node_at(n - 1).next is None);
                assert(self.node_at(n - 1).prev == pre.node_at(m - 2).prev);
            }
            assert(self@ =~= pre@.drop_last());
        }
        Some(old_tail.value)
    }

    /// Splice a new node in so that it stands at `index`: positions `0` and
    /// `length` fall back to the head and tail inserts, anything in between
    /// walks from the head and relinks both neighbours in one step.
    /// An index past the end is a precondition violation, not a runtime case.
    #[verifier::rlimit(50)]
    pub fn insert_at_ith(&mut self, index: u32, object: T)
        requires
            old(self).well_formed(),
            index <= old(self).length,
            old(self).length < u32::MAX,
        ensures
            final(self).well_formed(),
            final(self)@ == old(self)@.insert(index as int, object),
            final(self).length == old(self).length + 1,
    {
        if index == 0 {
            self.insert_at_head(object);
            proof {
                assert(self@ =~= old(self)@.insert(0, object));
            }
            return ;
        }
        if index == self.length {
            self.insert_at_tail(object);
            proof {
                assert(self@ =~= old(self)@.insert(index as int, object));
            }
            return ;
        }
        let mut cur = self.head.unwrap();
        let mut i: u32 = 0;
        while i < index
            invariant
                self.well_formed(),
                *self == *old(self),
                i <= index,
                index < self.length,
                cur == self.order@[i as int],
            decreases index - i,
        {
            proof {
                assert(self.live_at(i as int));
                assert(self.node_at(i as int).next == Some(self.order@[i as int + 1]));
            }
            let next = match &self.nodes[cur] {
                Some(n) => n.next,
                None => None,
            };
            cur = next.unwrap();
            i = i + 1;
        }
        proof {
            assert(self.live_at(index as int));
            assert(self.node_at(index as int).prev == Some(self.order@[index as int - 1]));
        }
        let prev_link = match &self.nodes[cur] {
            Some(n) => n.prev,
            None => None,
        };
        let prev_idx = prev_link.unwrap();
        proof {
            assert(old(self).live_at(index - 1));
        }
        let idx = self.nodes.len();
        self.nodes.push(Some(Node { value: object, next: Some(cur), prev: Some(prev_idx) }));
        let mut slot: Option<Node<T>> = None;
        core::mem::swap(&mut self.nodes[prev_idx], &mut slot);
        let mut left_nb = slot.unwrap();
        left_nb.next = Some(idx);
        self.nodes[prev_idx] = Some(left_nb);
        let mut slot2: Option<Node<T>> = None;
        proof {
            assert(old(self).order@[index - 1] != old(self).order@[index as int]);
        }
        core::mem::swap(&mut self.nodes[cur], &mut slot2);
        let mut right_nb = slot2.unwrap();
        right_nb.prev = Some(idx);
        self.nodes[cur] = Some(right_nb);
        self.length = self.length + 1;
        proof {
            self.order@ = self.order@.insert(index as int, idx);
        }
        proof {
            let pre = *old(self);
            let ord = self.order@;
            let n = ord.len();
            let ii = index as int;
            let p = pre.order@[ii - 1];
            let c = pre.order@[ii];
            assert(pre.live_at(ii - 1));
            assert(pre.live_at(ii));
            assert forall|k: int| 0 <= k < n implies #[trigger] self.live_at(k) by {
                if k < ii {
                    assert(pre.live_at(k));
                    if k < ii - 1 {
                        assert(pre.order@[k] != p && pre.order@[k] != c);
                    }
                } else if k > ii {
                    assert(pre.live_at(k - 1));
                    if k > ii + 1 {
                        assert(pre.order@[k - 1] != p && pre.order@[k - 1] != c);
                    }
                }
            }
            assert forall|k: int| 0 <= k < ii - 1 implies #[trigger] self.node_at(k)
                == pre.node_at(k) by {
                assert(pre.live_at(k));
                assert(pre.order@[k] != p && pre.order@[k] != c);
            }
            assert(self.node_at(ii - 1).value == pre.node_at(ii - 1).value && self.node_at(
                ii - 1,
            ).prev == pre.node_at(ii - 1).prev && self.node_at(ii - 1).next == Some(idx));
            assert(self.node_at(ii).value == object && self.node_at(ii).prev == Some(p)
                && self.node_at(ii).next == Some(c));
            assert(self.node_at(ii + 1).value == pre.node_at(ii).value && self.node_at(
                ii + 1,
            ).prev == Some(idx) && self.node_at(ii + 1).next == pre.node_at(ii).next);
            assert forall|k: int| ii + 1 < k < n implies #[trigger] self.node_at(k)
                == pre.node_at(k - 1) by {
                assert(pre.live_at(k - 1));
                assert(pre.order@[k - 1] != p && pre.order@[k - 1] != c);
            }
            assert forall|k1: int, k2: int| 0 <= k1 < k2 < n implies ord[k1] != ord[k2] by {
                if k1 == ii {
                    assert(pre.live_at(if k2 < ii { k2 } else { k2 - 1 }));
                } else if k2 == ii {
                    assert(pre.live_at(if k1 < ii { k1 } else { k1 - 1 }));
                } else {
                    let a1 = if k1 < ii { k1 } else { k1 - 1 };
                    let a2 = if k2 < ii { k2 } else { k2 - 1 };
                    assert(ord[k1] == pre.order@[a1]);
                    assert(ord[k2] == pre.order@[a2]);
                }
            }
            assert(self@ =~= pre@.insert(ii, object));
        }
    }

    /// Unlink the node at `index`, hand its value back, and splice its two
    /// neighbours together; positions `0` and `length - 1` fall back to the
    /// head and tail deletes. An index past the end is a precondition
    /// violation, not a runtime case.
    pub fn delete_ith(&mut self, index: u32) -> (r: Option<T>)
        requires
            old(self).well_formed(),
            index < old(self).length,
        ensures
            final(self).well_formed(),
            r == Some(old(self)@[index as int]),
            final(self)@ == old(self)@.remove(index as int),
            final(self).length == old(self).length - 1,
    {
        if index == 0 {
            let r = self.delete_head();
            proof {
                assert(self@ =~= old(self)@.remove(0));
            }
            return r;
        }
        if index == self.length - 1 {
            let r = self.delete_tail();
            proof {
                assert(self@ =~= old(self)@.remove(index as int));
            }
            return r;
        }
        let mut cur = self.head.unwrap();
        let mut i: u32 = 0;
        while i < index
            invariant
                self.well_formed(),
                *self == *old(self),
                i <= index,
                index < self.length,
                cur == self.order@[i as int],
            decreases index - i,
        {
            proof {
                assert(self.live_at(i as int));
                assert(self.node_at(i as int).next == Some(self.order@[i as int + 1]));
            }
            let next = match &self.nodes[cur] {
                Some(n) => n.next,
                None => None,
            };
            cur = next.unwrap();
            i = i + 1;
        }
        let mut slot: Option<Node<T>> = None;
        proof {
            assert(self.live_at(index as int));
        }
        core::mem::swap(&mut self.nodes[cur], &mut slot);
        let node = slot.unwrap();
        proof {
            assert(node == old(self).node_at(index as int));
            assert(old(self).live_at(index - 1));
            assert(old(self).live_at(index + 1));
            assert(old(self).order@[index - 1] != old(self).order@[index as int]);
            assert(old(self).order@[index as int] != old(self).order@[index + 1]);
            assert(old(self).order@[index - 1] != old(self).order@[index + 1]);
        }
        let p = node.prev.unwrap();
        let nx = node.next.unwrap();
        let mut slot2: Option<Node<T>> = None;
        core::mem::swap(&mut self.nodes[p], &mut slot2);
        let mut left_nb = slot2.unwrap();
        left_nb.next = Some(nx);
        self.nodes[p] = Some(left_nb);
        let mut slot3: Option<Node<T>> = None;
        core::mem::swap(&mut self.nodes[nx], &mut slot3);
        let mut right_nb = slot3.unwrap();
        right_nb.prev = Some(p);
        self.nodes[nx] = Some(right_nb);
        self.length = self.length - 1;
        proof {
            self.order@ = self.order@.remove(index as int);
        }
        proof {
            let pre = *old(self);
            let ord = self.order@;
            let n = ord.len();
            let ii = index as int;
            let p_g = pre.order@[ii - 1];
            let c_g = pre.order@[ii];
            let nx_g = pre.order@[ii + 1];
            assert forall|k: int| 0 <= k < n implies #[trigger] self.live_at(k) by {
                if k < ii {
                    assert(pre.live_at(k));
                    if k < ii - 1 {
                        assert(pre.order@[k] != p_g && pre.order@[k] != c_g && pre.order@[k]
                            != nx_g);
                    }
                } else {
                    assert(pre.live_at(k + 1));
                    if k > ii {
                        assert(pre.order@[k + 1] != p_g && pre.order@[k + 1] != c_g
                            && pre.order@[k + 1] != nx_g);
                    }
                }
            }
            assert forall|k: int| 0 <= k < ii - 1 implies #[trigger] self.node_at(k)
                == pre.node_at(k) by {
                assert(pre.live_at(k));
                assert(pre.order@[k] != p_g && pre.order@[k] != c_g && pre.order@[k] != nx_g);
            }
            assert(self.node_at(ii - 1).value == pre.node_at(ii - 1).value && self.node_at(
                ii - 1,
            ).prev == pre.node_at(ii - 1).prev && self.node_at(ii - 1).next == Some(nx));
            assert(self.node_at(ii).value == pre.node_at(ii + 1).value && self.node_at(ii).prev
                == Some(p) && self.node_at(ii).next == pre.node_at(ii + 1).next);
            assert forall|k: int| ii < k < n implies #[trigger] self.node_at(k) == pre.node_at(
                k + 1,
            ) by {
                assert(pre.live_at(k + 1));
                assert(pre.order@[k + 1] != p_g && pre.order@[k + 1] != c_g && pre.order@[k + 1]
                    != nx_g);
            }
            assert forall|k1: int, k2: int| 0 <= k1 < k2 < n implies ord[k1] != ord[k2] by {
                let a1 = if k1 < ii { k1 } else { k1 + 1 };
                let a2 = if k2 < ii { k2 } else { k2 + 1 };
                assert(ord[k1] == pre.order@[a1]);
                assert(ord[k2] == pre.order@[a2]);
            }
            assert(self@ =~= pre@.remove(ii));
        }
        Some(node.value)
    }

    /// Follow `next` links through the arena `index` times, starting from
    /// `node`; absent once the chain runs out.
    pub fn get_ith_node(
        nodes: &Vec<Option<Node<T>>>,
        node: Option<usize>,
        index: u32,
    ) -> (r: Option<usize>)
        ensures
            r == walk(nodes@, node, index as nat),
        decreases index,
    {
        match node {
            None => {
                proof {
                    lemma_walk_absent::<T>(nodes@, index as nat);
                }
                None
            },
            Some(next_ptr) => {
                if index == 0 {
                    Some(next_ptr)
                } else {
                    let next = if next_ptr < nodes.len() {
                        match &nodes[next_ptr] {
                            Some(n) => n.next,
                            None => None,
                        }
                    } else {
                        None
                    };
                    proof {
                        lemma_walk_shift(nodes@, node, index as nat);
                    }
                    Self::get_ith_node(nodes, next, index - 1)
                }
            },
        }
    }

    /// Read the value at `index`; out of range is a normal "not present"
    /// outcome, never a failure.
    pub fn get(&self, index: u32) -> (r: Option<&T>)
        requires
            self.well_formed(),
        ensures
            match r {
                Some(v) => (index as int) < self@.len() && *v == self@[index as int],
                None => (index as int) >= self@.len(),
            },
    {
        let node = Self::get_ith_node(&self.nodes, self.head, index);
        proof {
            lemma_walk_well_formed(*self, index as nat);
        }
        match node {
            None => None,
            Some(i) => {
                proof {
                    assert(self.live_at(index as int));
                }
                match &self.nodes[i] {
                    Some(n) => Some(&n.value),
                    None => None,
                }
            },
        }
    }
}

} // verus!
