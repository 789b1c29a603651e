use data_structures::floyds_algorithm::has_cycle;
use data_structures::linked_list::LinkedList;

#[test]
fn floyds_algorithm_test() {
    let mut list = LinkedList::new();
    list.insert_at_head(5);
    list.insert_at_head(64);
    list.insert_at_head(714);
    list.insert_at_head(89);
    list.insert_at_head(94);
    list.insert_at_head(76);
    list.insert_at_head(67);
    list.insert_at_head(35);
    list.insert_at_head(58);
    list.insert_at_head(379);
    let check = has_cycle(&list);
    println!("{}", check);
}

#[test]
fn no_cycle_on_lists_built_by_operations() {
    let empty: LinkedList<i32> = LinkedList::new();
    assert!(!has_cycle(&empty));

    let mut list = LinkedList::new();
    for v in [1, 2, 3, 4, 5] {
        list.insert_at_tail(v);
    }
    list.insert_at_ith(2, 6);
    let _ = list.delete_ith(4);
    assert!(!has_cycle(&list));
}

#[test]
fn cycle_found_when_link_points_back() {
    let mut list = LinkedList::new();
    for v in [1, 2, 3, 4] {
        list.insert_at_tail(v);
    }
    // point the final node's `next` back to the head, by hand
    let tail = list.tail.unwrap();
    let head = list.head.unwrap();
    list.nodes[tail].as_mut().unwrap().next = Some(head);
    assert!(has_cycle(&list));
}

#[test]
fn cycle_found_when_link_points_to_middle() {
    let mut list = LinkedList::new();
    for v in [10, 20, 30, 40, 50] {
        list.insert_at_tail(v);
    }
    let tail = list.tail.unwrap();
    let middle = list.nodes[list.head.unwrap()].as_ref().unwrap().next.unwrap();
    list.nodes[tail].as_mut().unwrap().next = Some(middle);
    assert!(has_cycle(&list));
}

#[test]
fn dangling_link_is_chain_end() {
    let mut list = LinkedList::new();
    for v in [1, 2, 3] {
        list.insert_at_tail(v);
    }
    // a link out of the arena's range cannot be followed
    let tail = list.tail.unwrap();
    list.nodes[tail].as_mut().unwrap().next = Some(1000);
    assert!(!has_cycle(&list));
}
