use data_structures::linked_list::LinkedList;

fn forward_values(list: &LinkedList<i32>) -> Vec<i32> {
    let mut out = Vec::new();
    let mut link = list.head;
    while let Some(i) = link {
        let node = list.nodes[i].as_ref().unwrap();
        out.push(node.value);
        link = node.next;
    }
    out
}

fn backward_values(list: &LinkedList<i32>) -> Vec<i32> {
    let mut out = Vec::new();
    let mut link = list.tail;
    while let Some(i) = link {
        let node = list.nodes[i].as_ref().unwrap();
        out.push(node.value);
        link = node.prev;
    }
    out
}

#[test]
fn display() {
    let mut linked_list = LinkedList::new();
    linked_list.insert_at_head(3);
    linked_list.insert_at_tail(6);
    linked_list.insert_at_head(86);
    linked_list.insert_at_head(67);
    linked_list.insert_at_head(8);
    linked_list.insert_at_ith(3, 24);
    println!("{:?}", forward_values(&linked_list));
}

#[test]
fn example_indexed_insert() {
    let mut list = LinkedList::new();
    list.insert_at_tail(6);
    list.insert_at_head(86);
    list.insert_at_head(67);
    list.insert_at_head(8);
    assert_eq!(forward_values(&list), vec![8, 67, 86, 6]);
    list.insert_at_ith(3, 24);
    assert_eq!(forward_values(&list), vec![8, 67, 86, 24, 6]);
}

#[test]
fn mirror_invariant_after_mixed_operations() {
    let mut list = LinkedList::new();
    list.insert_at_head(1);
    list.insert_at_tail(2);
    list.insert_at_ith(1, 3);
    list.insert_at_head(4);
    list.insert_at_tail(5);
    let _ = list.delete_ith(2);
    let _ = list.delete_head();
    list.insert_at_ith(2, 6);
    let forward = forward_values(&list);
    let mut backward = backward_values(&list);
    backward.reverse();
    assert_eq!(forward, backward);
    assert_eq!(forward.len(), list.length as usize);
}

#[test]
fn fifo_round_trip() {
    let mut list = LinkedList::new();
    let values = vec![10, 20, 30, 40, 50];
    for v in &values {
        list.insert_at_tail(*v);
    }
    let mut drained = Vec::new();
    while let Some(v) = list.delete_head() {
        drained.push(v);
    }
    assert_eq!(drained, values);
    assert_eq!(list.length, 0);
}

#[test]
fn indexed_insert_agrees_with_end_inserts() {
    let mut by_index = LinkedList::new();
    let mut by_ends = LinkedList::new();
    for v in [1, 2, 3] {
        by_index.insert_at_ith(0, v);
        by_ends.insert_at_head(v);
    }
    for v in [4, 5] {
        let len = by_index.length;
        by_index.insert_at_ith(len, v);
        by_ends.insert_at_tail(v);
    }
    assert_eq!(forward_values(&by_index), forward_values(&by_ends));
}

#[test]
fn delete_cases() {
    let mut list = LinkedList::new();
    assert_eq!(list.delete_head(), None::<i32>);
    assert_eq!(list.delete_tail(), None::<i32>);
    for v in [1, 2, 3, 4] {
        list.insert_at_tail(v);
    }
    assert_eq!(list.delete_ith(1), Some(2));
    assert_eq!(list.delete_tail(), Some(4));
    assert_eq!(list.delete_head(), Some(1));
    assert_eq!(list.delete_head(), Some(3));
    assert_eq!(list.delete_head(), None);
}

#[test]
fn get_in_and_out_of_range() {
    let mut list = LinkedList::new();
    assert_eq!(list.get(0), None::<&i32>);
    for v in [7, 8, 9] {
        list.insert_at_tail(v);
    }
    assert_eq!(list.get(0), Some(&7));
    assert_eq!(list.get(1), Some(&8));
    assert_eq!(list.get(2), Some(&9));
    assert_eq!(list.get(3), None);
    assert_eq!(list.get(100), None);
}
