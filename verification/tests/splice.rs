use arena_list::{Arena, LinkedList};

#[test]
fn lib_append() {
    let mut arena = Arena::new();

    let mut list = LinkedList::from_iter(vec![1, 2, 3], &mut arena);
    let mut other = LinkedList::from_iter(vec![4, 5, 6], &mut arena);

    list.append(&mut other, &mut arena);

    assert_eq!(list.len(&arena), 6);
    assert!(other.is_empty());

    let mut iter = list.iter(&arena);
    assert_eq!(iter.next().copied(), Some(1));
    assert_eq!(iter.next().copied(), Some(2));
    assert_eq!(iter.next().copied(), Some(3));
    assert_eq!(iter.next().copied(), Some(4));
    assert_eq!(iter.next().copied(), Some(5));
    assert_eq!(iter.next().copied(), Some(6));
    assert_eq!(iter.next().copied(), None);

    list.clear(&mut arena);
    other.clear(&mut arena);
}

#[test]
fn lib_prepend() {
    let mut arena = Arena::new();

    let mut list = LinkedList::from_iter(vec![1, 2, 3], &mut arena);
    let mut other = LinkedList::from_iter(vec![4, 5, 6], &mut arena);

    list.prepend(&mut other, &mut arena);

    assert_eq!(list.len(&arena), 6);
    assert!(other.is_empty());

    let mut iter = list.iter(&arena);
    assert_eq!(iter.next().copied(), Some(4));
    assert_eq!(iter.next().copied(), Some(5));
    assert_eq!(iter.next().copied(), Some(6));
    assert_eq!(iter.next().copied(), Some(1));
    assert_eq!(iter.next().copied(), Some(2));
    assert_eq!(iter.next().copied(), Some(3));
    assert_eq!(iter.next().copied(), None);

    list.clear(&mut arena);
    other.clear(&mut arena);
}

#[test]
fn lib_split_off() {
    let mut arena = Arena::new();

    let mut list =
        LinkedList::from_iter(vec![1, 2, 3, 4, 5, 6, 7, 8, 9, 10, 11, 12], &mut arena);

    let mut other = list.split_off(5, &mut arena).unwrap();

    assert_eq!(list.len(&arena), 5);
    assert_eq!(other.len(&arena), 7);

    let mut iter = list.iter(&arena);
    assert_eq!(iter.next().copied(), Some(1));
    assert_eq!(iter.next().copied(), Some(2));
    assert_eq!(iter.next().copied(), Some(3));
    assert_eq!(iter.next().copied(), Some(4));
    assert_eq!(iter.next().copied(), Some(5));
    assert_eq!(iter.next().copied(), None);

    let mut iter = other.iter(&arena);
    assert_eq!(iter.next().copied(), Some(6));
    assert_eq!(iter.next().copied(), Some(7));
    assert_eq!(iter.next().copied(), Some(8));
    assert_eq!(iter.next().copied(), Some(9));
    assert_eq!(iter.next().copied(), Some(10));
    assert_eq!(iter.next().copied(), Some(11));
    assert_eq!(iter.next().copied(), Some(12));
    assert_eq!(iter.next().copied(), None);

    list.clear(&mut arena);
    other.clear(&mut arena);
}

#[test]
fn arena_append() {
    let mut arena = Arena::new();

    let mut list = LinkedList::from_iter(vec![1, 2, 3], &mut arena);
    let mut other = LinkedList::from_iter(vec![4, 5, 6], &mut arena);

    list.append(&mut other, &mut arena);

    assert_eq!(list.len(&arena), 6);
    assert!(other.is_empty());

    let mut iter = list.iter(&arena);
    assert_eq!(iter.next().copied(), Some(1));
    assert_eq!(iter.next().copied(), Some(2));
    assert_eq!(iter.next().copied(), Some(3));
    assert_eq!(iter.next().copied(), Some(4));
    assert_eq!(iter.next().copied(), Some(5));
    assert_eq!(iter.next().copied(), Some(6));
    assert_eq!(iter.next().copied(), None);
    drop(iter);
}

#[test]
fn arena_prepend() {
    let mut arena = Arena::new();

    let mut list = LinkedList::from_iter(vec![1, 2, 3], &mut arena);
    let mut other = LinkedList::from_iter(vec![4, 5, 6], &mut arena);

    list.prepend(&mut other, &mut arena);

    assert_eq!(list.len(&arena), 6);
    assert!(other.is_empty());

    let mut iter = list.iter(&arena);
    assert_eq!(iter.next().copied(), Some(4));
    assert_eq!(iter.next().copied(), Some(5));
    assert_eq!(iter.next().copied(), Some(6));
    assert_eq!(iter.next().copied(), Some(1));
    assert_eq!(iter.next().copied(), Some(2));
    assert_eq!(iter.next().copied(), Some(3));
    assert_eq!(iter.next().copied(), None);
}

#[test]
fn arena_split_off() {
    let mut arena = Arena::new();

    let mut list =
        LinkedList::from_iter(vec![1, 2, 3, 4, 5, 6, 7, 8, 9, 10, 11, 12], &mut arena);

    let mut other = list.split_off(5, &mut arena).unwrap();

    assert_eq!(list.len(&arena), 5);
    assert_eq!(other.len(&arena), 7);

    let mut iter = list.iter(&arena);
    assert_eq!(iter.next().copied(), Some(1));
    assert_eq!(iter.next().copied(), Some(2));
    assert_eq!(iter.next().copied(), Some(3));
    assert_eq!(iter.next().copied(), Some(4));
    assert_eq!(iter.next().copied(), Some(5));
    assert_eq!(iter.next().copied(), None);

    let mut iter = other.iter(&arena);
    assert_eq!(iter.next().copied(), Some(6));
    assert_eq!(iter.next().copied(), Some(7));
    assert_eq!(iter.next().copied(), Some(8));
    assert_eq!(iter.next().copied(), Some(9));
    assert_eq!(iter.next().copied(), Some(10));
    assert_eq!(iter.next().copied(), Some(11));
    assert_eq!(iter.next().copied(), Some(12));
    assert_eq!(iter.next().copied(), None);

    list.clear(&mut arena);
    other.clear(&mut arena);
}

#[test]
fn freelist() {
    let mut arena = Arena::new();

    let mut list = LinkedList::new();

    list.push_back(42, &mut arena);
    list.pop_back(&mut arena);
    list.push_back(42, &mut arena);
    list.pop_back(&mut arena);
    list.push_back(42, &mut arena);
    list.pop_back(&mut arena);
    list.push_back(42, &mut arena);
    list.pop_back(&mut arena);
    list.push_back(42, &mut arena);
    list.pop_back(&mut arena);
    list.push_back(42, &mut arena);
    list.pop_back(&mut arena);
    list.push_back(42, &mut arena);

    assert_eq!(list.len(&arena), 1);

    list.clear(&mut arena);

    assert_eq!(list.len(&arena), 0);

    list.push_back(1, &mut arena);
    list.push_back(2, &mut arena);
    list.push_back(3, &mut arena);
    list.push_back(4, &mut arena);
    list.push_back(5, &mut arena);

    assert_eq!(list.pop_back(&mut arena), Some(5));
    assert_eq!(list.pop_front(&mut arena), Some(1));

    let mut iter = list.iter(&arena);
    assert_eq!(iter.next().copied(), Some(2));
    assert_eq!(iter.next().copied(), Some(3));
    assert_eq!(iter.next().copied(), Some(4));
    assert_eq!(iter.next().copied(), None);
}

#[test]
fn split_off_out_of_range() {
    let mut arena = Arena::new();
    let mut list = LinkedList::from_iter(vec![1, 2, 3], &mut arena);

    assert!(list.split_off(4, &mut arena).is_none());

    assert_eq!(list.len(&arena), 3);
    assert_eq!(list.to_vec(&arena), vec![1, 2, 3]);

    let mut cursor = list.cursor_back(&arena);
    assert_eq!(cursor.current().copied(), Some(3));
    assert!(cursor.move_left());
    assert_eq!(cursor.current().copied(), Some(2));
    assert!(cursor.move_left());
    assert_eq!(cursor.current().copied(), Some(1));
    assert!(!cursor.move_left());
    assert_eq!(cursor.current(), None);
}

#[test]
fn split_off_at_bounds() {
    let mut arena = Arena::new();
    let mut list = LinkedList::from_iter(vec![1, 2, 3], &mut arena);

    let rest = list.split_off(3, &mut arena).unwrap();
    assert!(rest.is_empty());
    assert_eq!(list.to_vec(&arena), vec![1, 2, 3]);

    let rest = list.split_off(0, &mut arena).unwrap();
    assert!(list.is_empty());
    assert_eq!(rest.to_vec(&arena), vec![1, 2, 3]);
}

#[test]
fn append_empty_sides() {
    let mut arena = Arena::new();
    let mut list = LinkedList::from_iter(vec![1, 2], &mut arena);
    let mut empty = LinkedList::new();

    list.append(&mut empty, &mut arena);
    assert_eq!(list.to_vec(&arena), vec![1, 2]);

    let mut target = LinkedList::new();
    target.append(&mut list, &mut arena);
    assert!(list.is_empty());
    assert_eq!(target.to_vec(&arena), vec![1, 2]);
}
