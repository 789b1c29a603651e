use data_structures::circular_linked_list::CircularLinkedList;

fn head_to_tail(list: &CircularLinkedList<i32>) -> Vec<i32> {
    let mut out = Vec::new();
    let mut link = list.head;
    // the chain wraps once full, so stop after `current_length` nodes
    for _ in 0..list.current_length {
        let i = link.unwrap();
        let node = list.nodes[i].as_ref().unwrap();
        out.push(node.value);
        link = node.next;
    }
    out
}

#[test]
fn example_ring_eviction() {
    let mut list = CircularLinkedList::new(3);
    list.insert_at_head(1);
    list.insert_at_head(2);
    list.insert_at_head(3);
    list.insert_at_head(4);
    assert_eq!(head_to_tail(&list), vec![4, 3, 2]);
    assert_eq!(list.current_length, 3);
}

#[test]
fn eviction_keeps_most_recent() {
    let k = 4;
    let mut list = CircularLinkedList::new(k);
    for v in 1..=9 {
        list.insert_at_head(v);
    }
    assert_eq!(head_to_tail(&list), vec![9, 8, 7, 6]);
    assert_eq!(list.current_length, k);
    assert_eq!(list.max_length, k);
}

#[test]
fn filling_keeps_everything_until_full() {
    let mut list = CircularLinkedList::new(5);
    list.insert_at_head(1);
    list.insert_at_head(2);
    list.insert_at_head(3);
    assert_eq!(head_to_tail(&list), vec![3, 2, 1]);
    assert_eq!(list.current_length, 3);
}

#[test]
fn ring_wraps_once_full() {
    let mut list = CircularLinkedList::new(2);
    list.insert_at_head(1);
    list.insert_at_head(2);
    // at capacity the last node links forward to the head and the head
    // links back to the last node
    let head = list.head.unwrap();
    let tail = list.tail.unwrap();
    assert_eq!(list.nodes[tail].as_ref().unwrap().next, Some(head));
    assert_eq!(list.nodes[head].as_ref().unwrap().prev, Some(tail));
}

#[test]
fn capacity_one_ring() {
    let mut list = CircularLinkedList::new(1);
    list.insert_at_head(7);
    assert_eq!(head_to_tail(&list), vec![7]);
    list.insert_at_head(8);
    assert_eq!(head_to_tail(&list), vec![8]);
    assert_eq!(list.current_length, 1);
}
