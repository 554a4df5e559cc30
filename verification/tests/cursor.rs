use arena_list::{Arena, Cursor, CursorMut, LinkedList};

#[test]
fn cursor_walks_forward_and_back() {
    let mut arena = Arena::new();
    let list = LinkedList::from_iter(vec![1, 2, 3], &mut arena);

    let mut cursor = list.cursor_front(&arena);
    assert_eq!(cursor.current().copied(), Some(1));
    assert_eq!(cursor.peek_left(), None);
    assert_eq!(cursor.peek_right().copied(), Some(2));

    assert!(cursor.move_right());
    assert_eq!(cursor.current().copied(), Some(2));
    assert_eq!(cursor.peek_left().copied(), Some(1));
    assert_eq!(cursor.peek_right().copied(), Some(3));

    assert!(cursor.move_right());
    assert_eq!(cursor.current().copied(), Some(3));
    assert_eq!(cursor.peek_right(), None);

    // past the back: off-list, no wraparound
    assert!(!cursor.move_right());
    assert_eq!(cursor.current(), None);
    assert!(!cursor.move_right());
    assert_eq!(cursor.current(), None);
}

#[test]
fn cursor_right_then_left_returns_to_start() {
    let mut arena = Arena::new();
    let list = LinkedList::from_iter(vec![10, 20, 30], &mut arena);

    let mut cursor = list.cursor_front(&arena);
    assert!(cursor.move_right());
    let here = cursor.current().copied();
    assert!(cursor.move_right());
    assert!(cursor.move_left());
    assert_eq!(cursor.current().copied(), here);
    assert!(cursor.move_left());
    assert!(cursor.move_right());
    assert_eq!(cursor.current().copied(), here);
}

#[test]
fn cursor_back_walks_reverse() {
    let mut arena = Arena::new();
    let list = LinkedList::from_iter(vec![1, 2, 3], &mut arena);

    let mut cursor = Cursor::new_back(&list, &arena);
    assert_eq!(cursor.current().copied(), Some(3));
    assert!(cursor.move_left());
    assert_eq!(cursor.current().copied(), Some(2));
    assert!(cursor.move_left());
    assert_eq!(cursor.current().copied(), Some(1));
    assert!(!cursor.move_left());
    assert_eq!(cursor.current(), None);
}

#[test]
fn cursor_on_empty_list() {
    let mut arena: Arena<u8> = Arena::new();
    let list: LinkedList<u8> = LinkedList::from_iter(Vec::new(), &mut arena);

    let mut cursor = list.cursor_front(&arena);
    assert_eq!(cursor.current(), None);
    assert!(!cursor.move_right());
    assert!(!cursor.move_left());
    assert_eq!(cursor.peek_left(), None);
    assert_eq!(cursor.peek_right(), None);
}

#[test]
fn cursor_mut_replaces_in_place() {
    let mut arena = Arena::new();
    let mut list = LinkedList::from_iter(vec![1, 2, 3], &mut arena);

    let mut cursor = list.cursor_front_mut(&arena);
    assert!(cursor.move_right(&arena));
    assert_eq!(cursor.current(&arena).copied(), Some(2));

    let old = cursor.replace(&mut arena, 20);
    assert_eq!(old, 2);
    assert_eq!(cursor.current(&arena).copied(), Some(20));
    assert_eq!(cursor.peek_left(&arena).copied(), Some(1));
    assert_eq!(cursor.peek_right(&arena).copied(), Some(3));

    assert_eq!(list.to_vec(&arena), vec![1, 20, 3]);
}

#[test]
fn cursor_mut_from_back_and_into_cursor() {
    let mut arena = Arena::new();
    let mut list = LinkedList::from_iter(vec![5, 6, 7], &mut arena);

    let mut cursor = list.cursor_back_mut(&arena);
    assert_eq!(cursor.current(&arena).copied(), Some(7));
    assert!(cursor.move_left(&arena));
    let old = cursor.replace(&mut arena, 60);
    assert_eq!(old, 6);

    let read = cursor.into_cursor(&arena);
    assert_eq!(read.current().copied(), Some(60));
    assert_eq!(read.peek_right().copied(), Some(7));
    assert_eq!(read.peek_left().copied(), Some(5));
}

#[test]
fn cursor_mut_via_new_front() {
    let mut arena = Arena::new();
    let list = LinkedList::from_iter(vec![1, 2], &mut arena);

    let cursor = CursorMut::new_front(&list, &arena);
    assert_eq!(cursor.current(&arena).copied(), Some(1));
    assert_eq!(cursor.peek_right(&arena).copied(), Some(2));
    assert_eq!(cursor.peek_left(&arena), None);
}
