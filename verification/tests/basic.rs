use arena_list::{Arena, LinkedList};

#[test]
fn lib_push_pop() {
    let mut arena = Arena::new();
    let mut list = LinkedList::new();

    list.push_front(1, &mut arena);
    list.push_front(2, &mut arena);

    assert_eq!(list.pop_front(&mut arena), Some(2));
    assert_eq!(list.pop_front(&mut arena), Some(1));
    assert_eq!(list.pop_front(&mut arena), None);

    let mut arena = Arena::new();
    let mut list = LinkedList::new();

    list.push_back(1, &mut arena);
    list.push_back(2, &mut arena);

    assert_eq!(list.pop_back(&mut arena), Some(2));
    assert_eq!(list.pop_back(&mut arena), Some(1));
    assert_eq!(list.pop_back(&mut arena), None);

    let mut arena = Arena::new();
    let mut list = LinkedList::new();

    list.push_back(1, &mut arena);
    list.push_back(2, &mut arena);

    assert_eq!(list.pop_front(&mut arena), Some(1));
    assert_eq!(list.pop_front(&mut arena), Some(2));
    assert_eq!(list.pop_front(&mut arena), None);

    let mut arena = Arena::new();
    let mut list = LinkedList::new();

    list.push_front(1, &mut arena);
    list.push_front(2, &mut arena);

    assert_eq!(list.pop_back(&mut arena), Some(1));
    assert_eq!(list.pop_back(&mut arena), Some(2));
    assert_eq!(list.pop_back(&mut arena), None);
}

#[test]
fn lib_iter() {
    let mut arena = Arena::new();
    let mut list = LinkedList::new();

    list.push_back(1, &mut arena);
    list.push_back(2, &mut arena);
    list.push_back(3, &mut arena);
    list.push_back(4, &mut arena);

    assert_eq!(list.iter(&arena).collect_values(), vec![1, 2, 3, 4])
}

#[derive(Default)]
struct Big([usize; 32]);

#[test]
fn lib_push_back_first_big() {
    let mut arena = Arena::new();
    let mut list = LinkedList::new();

    for _ in 0..500 {
        list.push_back(Big::default(), &mut arena);
    }
}

#[test]
fn handles_split_join_identity() {
    let mut arena = Arena::new();
    let full = arena.allocate(7u32);
    let (one, two) = full.split();
    assert!(one.identity(&two));
    let full = one.join(two);
    assert_eq!(arena.retire(full), 7);

    let a = arena.allocate(1u32).split();
    let b = arena.allocate(2u32).split();
    assert!(!a.0.identity(&b.0));
    assert!(a.0.identity(&a.1));
}

#[test]
fn empty_list_behaviour() {
    let mut arena: Arena<i32> = Arena::with_capacity(8);
    let mut list = LinkedList::new();

    assert!(list.is_empty());
    assert_eq!(list.len(&arena), 0);
    assert_eq!(list.pop_front(&mut arena), None);
    assert_eq!(list.pop_back(&mut arena), None);
    assert_eq!(list.iter(&arena).next(), None);

    let mut other = LinkedList::new();
    list.append(&mut other, &mut arena);
    assert!(list.is_empty());
    assert!(other.is_empty());
}

#[test]
fn len_is_tracked() {
    let mut arena = Arena::new();
    let mut list = LinkedList::from_iter(vec![10, 20, 30], &mut arena);
    assert_eq!(list.len(&arena), 3);
    list.push_front(5, &mut arena);
    assert_eq!(list.len(&arena), 4);
    list.pop_back(&mut arena);
    assert_eq!(list.len(&arena), 3);
    assert!(!list.is_empty());
}

#[test]
fn two_lists_share_one_arena() {
    let mut arena = Arena::new();
    let mut a = LinkedList::from_iter(vec![1, 2], &mut arena);
    let mut b = LinkedList::from_iter(vec![3, 4], &mut arena);

    assert_eq!(a.pop_front(&mut arena), Some(1));
    assert_eq!(b.pop_back(&mut arena), Some(4));
    b.push_front(9, &mut arena);
    assert_eq!(a.to_vec(&arena), vec![2]);
    assert_eq!(b.to_vec(&arena), vec![9, 3]);
}

#[test]
fn default_is_empty() {
    let arena: Arena<u8> = Arena::new();
    let list: LinkedList<u8> = LinkedList::default();
    assert!(list.is_empty());
    assert_eq!(list.len(&arena), 0);
}
