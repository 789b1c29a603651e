//! Two-pointer (tortoise-and-hare) cycle detection over the forward links of
//! a doubly linked list's arena. The traversal is read-only: it takes the
//! list by shared reference and only follows `next` links, so the structure
//! is left untouched. A chain "has a cycle" when two different step counts
//! from the head stand on the same node; the detector reports exactly that.

use vstd::prelude::*;
use crate::linked_list::{LinkedList, Node, link_next, walk};

verus! {

/// A forward chain has a cycle when some node is reached again after more
/// steps from the head.
pub open spec fn has_cycle_in<T>(nodes: Seq<Option<Node<T>>>, head: Option<usize>) -> bool {
    exists|i: nat, j: nat|
        i < j && (#[trigger] walk(nodes, head, i)) is Some && walk(nodes, head, i)
            == #[trigger] walk(nodes, head, j)
}

/// Once the forward walk has run off the end it stays off the end.
pub proof fn lemma_walk_stays_absent<T>(
    nodes: Seq<Option<Node<T>>>,
    head: Option<usize>,
    m: nat,
    n: nat,
)
    requires
        walk(nodes, head, m) is None,
        m <= n,
    ensures
        walk(nodes, head, n) is None,
    decreases n - m,
{
    if n > m {
        lemma_walk_stays_absent(nodes, head, m, (n - 1) as nat);
    }
}

/// Walks that agree once agree forever after: stepping both onward keeps
/// them on the same node.
pub proof fn lemma_walk_periodic<T>(
    nodes: Seq<Option<Node<T>>>,
    head: Option<usize>,
    i: nat,
    j: nat,
    t: nat,
)
    requires
        walk(nodes, head, i) == walk(nodes, head, j),
    ensures
        walk(nodes, head, i + t) == walk(nodes, head, j + t),
    decreases t,
{
    if t > 0 {
        lemma_walk_periodic(nodes, head, i, j, (t - 1) as nat);
        assert(walk(nodes, head, i + t) == link_next(
            nodes,
            walk(nodes, head, (i + t - 1) as nat),
        ));
        assert(walk(nodes, head, j + t) == link_next(
            nodes,
            walk(nodes, head, (j + t - 1) as nat),
        ));
    }
}

/// Going around the loop of a cycle any number of times returns to the same
/// node.
pub proof fn lemma_cycle_iterate<T>(
    nodes: Seq<Option<Node<T>>>,
    head: Option<usize>,
    i: nat,
    j: nat,
    c: nat,
)
    requires
        i < j,
        walk(nodes, head, i) == walk(nodes, head, j),
    ensures
        walk(nodes, head, (i + c * (j - i)) as nat) == walk(nodes, head, i),
    decreases c,
{
    if c > 0 {
        let prevsteps = (i + (c - 1) * (j - i)) as nat;
        lemma_cycle_iterate(nodes, head, i, j, (c - 1) as nat);
        assert(walk(nodes, head, prevsteps) == walk(nodes, head, i));
        lemma_walk_periodic(nodes, head, i, prevsteps, (j - i) as nat);
        assert(walk(nodes, head, (i + (j - i)) as nat) == walk(
            nodes,
            head,
            (prevsteps + (j - i)) as nat,
        ));
        assert(prevsteps + (j - i) == i + c * (j - i)) by (nonlinear_arith)
            requires
                prevsteps == i + (c - 1) * (j - i),
        ;
    } else {
        assert(c * (j - i) == 0) by (nonlinear_arith)
            requires
                c == 0,
        ;
    }
}

/// On a chain with a cycle the forward walk never runs off the end.
pub proof fn lemma_cycle_walk_total<T>(
    nodes: Seq<Option<Node<T>>>,
    head: Option<usize>,
    i: nat,
    j: nat,
    n: nat,
)
    requires
        i < j,
        walk(nodes, head, i) is Some,
        walk(nodes, head, i) == walk(nodes, head, j),
    ensures
        walk(nodes, head, n) is Some,
{
    if walk(nodes, head, n) is None {
        lemma_cycle_iterate(nodes, head, i, j, n);
        assert(n * (j - i) >= n) by (nonlinear_arith)
            requires
                j - i >= 1,
                n >= 0,
        ;
        lemma_walk_stays_absent(nodes, head, n, (i + n * (j - i)) as nat);
    }
}

/// A chain whose forward walk runs off the end has no cycle.
pub proof fn lemma_walk_ends_no_cycle<T>(
    nodes: Seq<Option<Node<T>>>,
    head: Option<usize>,
    m: nat,
)
    requires
        walk(nodes, head, m) is None,
    ensures
        !has_cycle_in(nodes, head),
{
    if has_cycle_in(nodes, head) {
        let (i, j) = choose|i: nat, j: nat|
            i < j && (#[trigger] walk(nodes, head, i)) is Some && walk(nodes, head, i)
                == #[trigger] walk(nodes, head, j);
        lemma_cycle_walk_total(nodes, head, i, j, m);
    }
}

/// Law: a well-formed doubly linked list — one built and kept consistent by
/// the list operations alone — never contains a cycle, so the detector is
/// owed a "no cycle" answer on it.
pub proof fn lemma_well_formed_acyclic<T>(list: LinkedList<T>)
    requires
        list.well_formed(),
    ensures
        !has_cycle_in(list.nodes@, list.head),
{
    crate::linked_list::lemma_walk_well_formed(list, list.order@.len() as nat);
    lemma_walk_ends_no_cycle(list.nodes@, list.head, list.order@.len() as nat);
}

/// One forward step through the arena, reading only the `next` link.
fn next_of<T>(linked_list: &LinkedList<T>, link: Option<usize>) -> (r: Option<usize>)
    ensures
        r == link_next(linked_list.nodes@, link),
{
    match link {
        None => None,
        Some(i) => if i < linked_list.nodes.len() {
            match &linked_list.nodes[i] {
                Some(n) => n.next,
                None => None,
            }
        } else {
            None
        },
    }
}

/// A walk still on a node after more steps than the arena has slots must
/// have stood on some slot twice: the chain loops back on itself.
pub proof fn lemma_walk_pigeonhole<T>(nodes: Seq<Option<Node<T>>>, head: Option<usize>)
    requires
        walk(nodes, head, (nodes.len() + 1) as nat) is Some,
    ensures
        has_cycle_in(nodes, head),
{
    let n = nodes.len();
    assert forall|m: int| 0 <= m <= n + 1 implies (#[trigger] walk(nodes, head, m as nat))
        is Some by {
        if walk(nodes, head, m as nat) is None {
            lemma_walk_stays_absent(nodes, head, m as nat, (n + 1) as nat);
        }
    }
    let positions = Seq::<int>::new(
        (n + 1) as nat,
        |m: int| walk(nodes, head, m as nat)->Some_0 as int,
    );
    assert forall|m: int| 0 <= m < n + 1 implies 0 <= #[trigger] positions[m] < n by {
        assert(walk(nodes, head, (m + 1) as nat) is Some);
        assert(walk(nodes, head, (m + 1) as nat) == link_next(
            nodes,
            walk(nodes, head, m as nat),
        ));
    }
    if !has_cycle_in(nodes, head) {
        assert forall|i: int, j: int|
            0 <= i < j < positions.len() implies positions[i] != positions[j] by {
            if positions[i] == positions[j] {
                assert(walk(nodes, head, i as nat) is Some);
                assert(walk(nodes, head, j as nat) is Some);
                assert(walk(nodes, head, i as nat) == walk(nodes, head, j as nat));
            }
        }
        assert(positions.no_duplicates());
        positions.unique_seq_to_set();
        assert forall|x: int| positions.to_set().contains(x) implies vstd::set_lib::set_int_range(
            0,
            n as int,
        ).contains(x) by {
            let idx = choose|idx: int| 0 <= idx < positions.len() && positions[idx] == x;
            assert(0 <= positions[idx] < n);
        }
        vstd::set_lib::lemma_int_range(0, n as int);
        vstd::set_lib::lemma_len_subset(
            positions.to_set(),
            vstd::set_lib::set_int_range(0, n as int),
        );
        assert(false);
    }
}

/// Floyd's tortoise-and-hare traversal: the slow cursor advances one link
/// per round and the fast cursor two; the cursors stand on the same node
/// exactly when the chain reached from the head loops back on itself.
/// Read-only and O(1) space; a dangling or freed link is treated as the end
/// of the chain. The traversal is bounded by the size of the arena — one
/// round per slot suffices, for past that the chain must have repeated a
/// node — so it never loops forever.
pub fn has_cycle<T>(linked_list: &LinkedList<T>) -> (r: bool)
    ensures
        r == has_cycle_in(linked_list.nodes@, linked_list.head),
{
    let ghost nodes = linked_list.nodes@;
    let ghost head = linked_list.head;
    let n = linked_list.nodes.len();
    let mut fast = linked_list.head;
    let mut slow = linked_list.head;
    let mut count: usize = 0;
    let ghost mut rounds: nat = 0;
    loop
        invariant
            nodes == linked_list.nodes@,
            head == linked_list.head,
            n == nodes.len(),
            slow == walk(nodes, head, rounds),
            fast == walk(nodes, head, 2 * rounds),
            rounds == count,
            count == 0 || count < n,
        decreases nodes.len() - count,
    {
        if fast.is_none() || slow.is_none() {
            proof {
                if fast is None {
                    lemma_walk_ends_no_cycle(nodes, head, 2 * rounds);
                } else {
                    lemma_walk_ends_no_cycle(nodes, head, rounds);
                }
            }
            return false;
        }
        slow = next_of(linked_list, slow);
        fast = next_of(linked_list, fast);
        if fast.is_none() {
            proof {
                lemma_walk_ends_no_cycle(nodes, head, 2 * rounds + 1);
            }
            return false;
        }
        fast = next_of(linked_list, fast);
        proof {
            rounds = rounds + 1;
        }
        if fast.is_none() {
            proof {
                lemma_walk_ends_no_cycle(nodes, head, 2 * rounds);
            }
            return false;
        }
        proof {
            assert(walk(nodes, head, 1) is Some) by {
                if walk(nodes, head, 1) is None {
                    lemma_walk_stays_absent(nodes, head, 1, 2 * rounds);
                }
            }
            assert(walk(nodes, head, 0) == head);
            assert(walk(nodes, head, 1) == link_next(nodes, walk(nodes, head, 0)));
            assert(nodes.len() >= 1);
        }
        count = count + 1;
        if count >= n {
            proof {
                assert(2 * rounds >= n + 1);
                if walk(nodes, head, (n + 1) as nat) is None {
                    lemma_walk_stays_absent(nodes, head, (n + 1) as nat, 2 * rounds);
                }
                lemma_walk_pigeonhole(nodes, head);
            }
            return true;
        }
        if let (Some(a), Some(b)) = (slow, fast) {
            if a == b {
                proof {
                    assert(rounds < 2 * rounds && walk(nodes, head, rounds) is Some && walk(
                        nodes,
                        head,
                        rounds,
                    ) == walk(nodes, head, 2 * rounds));
                }
                return true;
            }
        }
    }
}

} // verus!
