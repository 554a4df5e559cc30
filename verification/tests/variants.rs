use arena_list::{Arena, LinkedList};

fn check_append(clear_at_end: bool) {
    let mut arena = Arena::new();

    let mut list = LinkedList::from_iter(vec![1, 2, 3], &mut arena);
    let mut other = LinkedList::from_iter(vec![4, 5, 6], &mut arena);

    list.append(&mut other, &mut arena);

    assert_eq!(list.len(&arena), 6);
    assert!(other.is_empty());

    let mut iter = list.iter(&arena);
    assert_eq!(iter.next().copied(), Some(1));
    assert_eq!(iter.next().copied(), Some(2));
    assert_eq!(iter.next().copied(), Some(3));
    assert_eq!(iter.next().copied(), Some(4));
    assert_eq!(iter.next().copied(), Some(5));
    assert_eq!(iter.next().copied(), Some(6));
    assert_eq!(iter.next().copied(), None);

    if clear_at_end {
        list.clear(&mut arena);
        other.clear(&mut arena);
    }
}

fn check_prepend(clear_at_end: bool) {
    let mut arena = Arena::new();

    let mut list = LinkedList::from_iter(vec![1, 2, 3], &mut arena);
    let mut other = LinkedList::from_iter(vec![4, 5, 6], &mut arena);

    list.prepend(&mut other, &mut arena);

    assert_eq!(list.len(&arena), 6);
    assert!(other.is_empty());

    let mut iter = list.iter(&arena);
    assert_eq!(iter.next().copied(), Some(4));
    assert_eq!(iter.next().copied(), Some(5));
    assert_eq!(iter.next().copied(), Some(6));
    assert_eq!(iter.next().copied(), Some(1));
    assert_eq!(iter.next().copied(), Some(2));
    assert_eq!(iter.next().copied(), Some(3));
    assert_eq!(iter.next().copied(), None);

    if clear_at_end {
        list.clear(&mut arena);
        other.clear(&mut arena);
    }
}

fn check_split_off() {
    let mut arena = Arena::new();

    let mut list =
        LinkedList::from_iter(vec![1, 2, 3, 4, 5, 6, 7, 8, 9, 10, 11, 12], &mut arena);

    let mut other = list.split_off(5, &mut arena).unwrap();

    assert_eq!(list.len(&arena), 5);
    assert_eq!(other.len(&arena), 7);

    let mut iter = list.iter(&arena);
    assert_eq!(iter.next().copied(), Some(1));
    assert_eq!(iter.next().copied(), Some(2));
    assert_eq!(iter.next().copied(), Some(3));
    assert_eq!(iter.next().copied(), Some(4));
    assert_eq!(iter.next().copied(), Some(5));
    assert_eq!(iter.next().copied(), None);

    let mut iter = other.iter(&arena);
    assert_eq!(iter.next().copied(), Some(6));
    assert_eq!(iter.next().copied(), Some(7));
    assert_eq!(iter.next().copied(), Some(8));
    assert_eq!(iter.next().copied(), Some(9));
    assert_eq!(iter.next().copied(), Some(10));
    assert_eq!(iter.next().copied(), Some(11));
    assert_eq!(iter.next().copied(), Some(12));
    assert_eq!(iter.next().copied(), None);

    list.clear(&mut arena);
    other.clear(&mut arena);
}

#[test]
fn arena_option_append() {
    check_append(true);
}

#[test]
fn arena_option_prepend() {
    check_prepend(true);
}

#[test]
fn arena_option_split_off() {
    check_split_off();
}

#[test]
fn static_rc_append() {
    check_append(true);
}

#[test]
fn static_rc_prepend() {
    check_prepend(true);
}

#[test]
fn static_rc_split_off() {
    check_split_off();
}
