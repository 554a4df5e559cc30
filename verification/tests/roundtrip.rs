use arena_list::{fifo_order, rebuild, Arena, LinkedList};

#[test]
fn fifo_order_many_values() {
    let values: Vec<u64> = (0..200).collect();
    assert_eq!(fifo_order(values.clone()), values);
}

#[test]
fn push_back_then_pop_front_in_order() {
    let mut arena = Arena::new();
    let mut list = LinkedList::new();

    for i in 0..50 {
        list.push_back(i, &mut arena);
    }
    for i in 0..50 {
        assert_eq!(list.pop_front(&mut arena), Some(i));
    }
    assert_eq!(list.pop_front(&mut arena), None);
}

#[test]
fn push_front_twice_pop_back_twice() {
    let mut arena = Arena::new();
    let mut list = LinkedList::new();

    list.push_front(1, &mut arena);
    list.push_front(2, &mut arena);

    assert_eq!(list.pop_back(&mut arena), Some(1));
    assert_eq!(list.pop_back(&mut arena), Some(2));
}

#[test]
fn rebuild_reproduces_equivalent_list() {
    let mut arena = Arena::new();
    let list = LinkedList::from_iter(vec![3, 1, 4, 1, 5], &mut arena);

    let copy = rebuild(&list, &mut arena);

    assert_eq!(copy.to_vec(&arena), vec![3, 1, 4, 1, 5]);
    assert_eq!(list.to_vec(&arena), vec![3, 1, 4, 1, 5]);
    assert_eq!(copy.len(&arena), list.len(&arena));
}

#[test]
fn clear_then_len_is_zero() {
    let mut arena = Arena::new();
    let mut list = LinkedList::from_iter(vec![1, 2, 3, 4], &mut arena);

    list.clear(&mut arena);
    assert_eq!(list.len(&arena), 0);
    assert!(list.is_empty());

    // clearing an already-empty list is also fine
    list.clear(&mut arena);
    assert_eq!(list.len(&arena), 0);
}

#[test]
fn traversal_counts_agree_after_mixed_operations() {
    let mut arena = Arena::new();
    let mut list = LinkedList::from_iter(vec![1, 2, 3, 4, 5], &mut arena);
    let mut other = LinkedList::from_iter(vec![6, 7], &mut arena);

    list.pop_front(&mut arena);
    list.push_back(8, &mut arena);
    list.append(&mut other, &mut arena);
    let mut rest = list.split_off(3, &mut arena).unwrap();
    list.prepend(&mut rest, &mut arena);

    // count forward
    let mut forward = 0usize;
    let mut cursor = list.cursor_front(&arena);
    while cursor.current().is_some() {
        forward += 1;
        cursor.move_right();
    }

    // count backward
    let mut backward = 0usize;
    let mut cursor = list.cursor_back(&arena);
    while cursor.current().is_some() {
        backward += 1;
        cursor.move_left();
    }

    assert_eq!(forward, backward);
    assert_eq!(forward, list.len(&arena));
}
