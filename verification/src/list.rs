//! Doubly-linked lists over a shared, append-only arena.
//!
//! Every node lives in an [`Arena`] slot and is addressed by handles that
//! carry a statically accounted share of the node's ownership: creating a
//! node yields one [`FullHandle`], which splits into exactly two
//! [`HalfHandle`]s. Each interior node deposits one half in its right
//! neighbour's `prev` slot and one in its left neighbour's `next` slot;
//! boundary nodes deposit a half directly in the list's boundary pair. A
//! value can only be extracted by collecting both halves of its node and
//! rejoining them, so no node can ever be freed while a link still points
//! at it.
//!
//! The arena also plays the role of the content-access capability: a shared
//! borrow of it permits reads, an exclusive borrow permits writes, and two
//! distinct arenas address disjoint memory, so Rust's borrow discipline
//! provides the "no two overlapping mutable accesses" guarantee and the
//! verifier checks the rest.

use vstd::prelude::*;
use vstd::set_lib::lemma_int_range;
use vstd::set_lib::lemma_len_subset;
use vstd::set_lib::set_int_range;

verus! {

/// A handle carrying half of one node's two-part ownership unit.
///
/// Halves are deliberately neither `Copy` nor `Clone`: at most two halves of
/// any node exist at a time, and every operation below moves them between
/// link slots and boundary pairs so that each half is accounted for exactly
/// once.
pub struct HalfHandle {
    index: usize,
}

/// The whole ownership unit of one node: the join of its two halves.
///
/// A full handle is required to extract the node's value and retire it.
pub struct FullHandle {
    index: usize,
}

impl HalfHandle {
    /// The arena address this half-share refers to.
    pub closed spec fn id(self) -> int {
        self.index as int
    }

    /// Rejoin two halves into the whole ownership unit of their node.
    ///
    /// Joining halves of different nodes is a programming error; the
    /// precondition is checked statically, so no caller can ever reach the
    /// wrong node's data through the result.
    pub fn join(self, other: HalfHandle) -> (full: FullHandle)
        requires
            self.id() == other.id(),
        ensures
            full.id() == self.id(),
    {
        FullHandle { index: self.index }
    }

    /// Do two handles denote the same node?
    pub fn identity(&self, other: &HalfHandle) -> (same: bool)
        ensures
            same <==> self.id() == other.id(),
    {
        self.index == other.index
    }
}

impl FullHandle {
    /// The arena address this handle refers to.
    pub closed spec fn id(self) -> int {
        self.index as int
    }

    /// Split the sole full share into the node's two half-shares.
    pub fn split(self) -> (halves: (HalfHandle, HalfHandle))
        ensures
            halves.0.id() == self.id(),
            halves.1.id() == self.id(),
    {
        (HalfHandle { index: self.index }, HalfHandle { index: self.index })
    }
}

/// One arena slot: a value that is present exactly while the node is
/// logically part of a list, and the two link slots, each holding a
/// half-share of the neighbouring node (absent at list boundaries).
pub struct Node<T> {
    value: Option<T>,
    prev: Option<HalfHandle>,
    next: Option<HalfHandle>,
}

/// The address a link slot points at, if any.
pub closed spec fn link_id(link: Option<HalfHandle>) -> Option<int> {
    match link {
        Some(h) => Some(h.id()),
        None => None,
    }
}

/// Append-only storage for nodes.
///
/// Allocation hands out stable addresses; a retired node's slot is emptied
/// but never reused, and storage is reclaimed only when the arena itself is
/// dropped.
pub struct Arena<T> {
    slots: Vec<Node<T>>,
}

impl<T> Arena<T> {
    /// How many slots have ever been allocated.
    pub closed spec fn num_slots(self) -> int {
        self.slots@.len() as int
    }

    /// The node stored in slot `i`.
    pub closed spec fn slot(self, i: int) -> Node<T> {
        self.slots@[i]
    }

    /// Does slot `i` currently hold a value?
    pub closed spec fn slot_live(self, i: int) -> bool {
        0 <= i < self.num_slots() && self.slot(i).value is Some
    }

    /// The value held in slot `i`.
    pub closed spec fn slot_value(self, i: int) -> T
        recommends
            self.slot_live(i),
    {
        self.slot(i).value->0
    }

    /// The address slot `i`'s backward link points at.
    pub closed spec fn slot_prev(self, i: int) -> Option<int> {
        link_id(self.slot(i).prev)
    }

    /// The address slot `i`'s forward link points at.
    pub closed spec fn slot_next(self, i: int) -> Option<int> {
        link_id(self.slot(i).next)
    }

    /// Are both link slots of slot `i` empty?
    pub closed spec fn slot_unlinked(self, i: int) -> bool {
        self.slot(i).prev is None && self.slot(i).next is None
    }

    /// An arena with no nodes yet.
    pub fn new() -> (arena: Self)
        ensures
            arena.num_slots() == 0,
    {
        Arena { slots: Vec::new() }
    }

    /// An empty arena with room reserved for `capacity` nodes, as a
    /// performance hint.
    pub fn with_capacity(capacity: usize) -> (arena: Self)
        ensures
            arena.num_slots() == 0,
    {
        Arena { slots: Vec::with_capacity(capacity) }
    }

    /// How many slots have ever been allocated.
    pub fn slot_count(&self) -> (count: usize)
        ensures
            count as int == self.num_slots(),
    {
        self.slots.len()
    }

    /// Allocate a fresh node holding `value`, unlinked in both directions,
    /// and return its whole ownership unit. Every older slot is untouched.
    pub fn allocate(&mut self, value: T) -> (handle: FullHandle)
        ensures
            final(self).num_slots() == old(self).num_slots() + 1,
            final(self).num_slots() <= usize::MAX,
            handle.id() == old(self).num_slots(),
            final(self).slot_live(handle.id()),
            final(self).slot_value(handle.id()) == value,
            final(self).slot_unlinked(handle.id()),
            forall|i: int|
                0 <= i < old(self).num_slots() ==> final(self).slot(i) == old(self).slot(i),
    {
        let index = self.slots.len();
        self.slots.push(Node { value: Some(value), prev: None, next: None });
        let count = self.slots.len();
        proof {
            assert(count as int == self.num_slots());
        }
        FullHandle { index }
    }

    /// Give back the value of a node whose two halves have been collected
    /// and rejoined. The node must already be unlinked from both
    /// neighbours; its slot is emptied and never handed out again.
    pub fn retire(&mut self, handle: FullHandle) -> (value: T)
        requires
            old(self).slot_live(handle.id()),
            old(self).slot_unlinked(handle.id()),
        ensures
            value == old(self).slot_value(handle.id()),
            final(self).num_slots() == old(self).num_slots(),
            !final(self).slot_live(handle.id()),
            final(self).slot_unlinked(handle.id()),
            forall|i: int|
                0 <= i < old(self).num_slots() && i != handle.id() ==> final(self).slot(i)
                    == old(self).slot(i),
    {
        let node = &mut self.slots[handle.index];
        let value = node.value.take();
        value.unwrap()
    }

    /// Swap the value held in slot `index` for `value`, returning the old
    /// one. The slot's links are untouched.
    fn replace_value(&mut self, index: usize, value: T) -> (prev: T)
        requires
            old(self).slot_live(index as int),
        ensures
            prev == old(self).slot_value(index as int),
            final(self).num_slots() == old(self).num_slots(),
            final(self).slot_live(index as int),
            final(self).slot_value(index as int) == value,
            final(self).slot_prev(index as int) == old(self).slot_prev(index as int),
            final(self).slot_next(index as int) == old(self).slot_next(index as int),
            forall|i: int|
                0 <= i < old(self).num_slots() && i != index ==> final(self).slot(i) == old(
                    self,
                ).slot(i),
    {
        let node = &mut self.slots[index];
        let prev = node.value.take();
        node.value = Some(value);
        prev.unwrap()
    }

    /// Store `link` as the backward link of slot `index`.
    fn set_prev(&mut self, index: usize, link: Option<HalfHandle>)
        requires
            index < old(self).num_slots(),
        ensures
            final(self).num_slots() == old(self).num_slots(),
            final(self).slot(index as int).value == old(self).slot(index as int).value,
            final(self).slot(index as int).next == old(self).slot(index as int).next,
            final(self).slot(index as int).prev == link,
            forall|i: int|
                0 <= i < old(self).num_slots() && i != index ==> final(self).slot(i) == old(self).slot(i),
    {
        let node = &mut self.slots[index];
        node.prev = link;
    }

    /// Store `link` as the forward link of slot `index`.
    fn set_next(&mut self, index: usize, link: Option<HalfHandle>)
        requires
            index < old(self).num_slots(),
        ensures
            final(self).num_slots() == old(self).num_slots(),
            final(self).slot(index as int).value == old(self).slot(index as int).value,
            final(self).slot(index as int).prev == old(self).slot(index as int).prev,
            final(self).slot(index as int).next == link,
            forall|i: int|
                0 <= i < old(self).num_slots() && i != index ==> final(self).slot(i) == old(self).slot(i),
    {
        let node = &mut self.slots[index];
        node.next = link;
    }

    /// Move the half-share out of the backward link of slot `index`.
    fn take_prev(&mut self, index: usize) -> (link: Option<HalfHandle>)
        requires
            index < old(self).num_slots(),
        ensures
            link == old(self).slot(index as int).prev,
            final(self).num_slots() == old(self).num_slots(),
            final(self).slot(index as int).value == old(self).slot(index as int).value,
            final(self).slot(index as int).next == old(self).slot(index as int).next,
            final(self).slot(index as int).prev is None,
            forall|i: int|
                0 <= i < old(self).num_slots() && i != index ==> final(self).slot(i) == old(self).slot(i),
    {
        let node = &mut self.slots[index];
        node.prev.take()
    }

    /// Move the half-share out of the forward link of slot `index`.
    fn take_next(&mut self, index: usize) -> (link: Option<HalfHandle>)
        requires
            index < old(self).num_slots(),
        ensures
            link == old(self).slot(index as int).next,
            final(self).num_slots() == old(self).num_slots(),
            final(self).slot(index as int).value == old(self).slot(index as int).value,
            final(self).slot(index as int).prev == old(self).slot(index as int).prev,
            final(self).slot(index as int).next is None,
            forall|i: int|
                0 <= i < old(self).num_slots() && i != index ==> final(self).slot(i) == old(self).slot(i),
    {
        let node = &mut self.slots[index];
        node.next.take()
    }

    /// Read the address the forward link of slot `index` points at.
    fn peek_next(&self, index: usize) -> (link: Option<usize>)
        requires
            index < self.num_slots(),
        ensures
            match link {
                Some(j) => self.slot_next(index as int) == Some(j as int),
                None => self.slot_next(index as int) is None,
            },
    {
        match &self.slots[index].next {
            Some(h) => Some(h.index),
            None => None,
        }
    }

    /// Read the address the backward link of slot `index` points at.
    fn peek_prev(&self, index: usize) -> (link: Option<usize>)
        requires
            index < self.num_slots(),
        ensures
            match link {
                Some(j) => self.slot_prev(index as int) == Some(j as int),
                None => self.slot_prev(index as int) is None,
            },
    {
        match &self.slots[index].prev {
            Some(h) => Some(h.index),
            None => None,
        }
    }

    /// Borrow the value held in slot `index`.
    fn value_ref(&self, index: usize) -> (value: &T)
        requires
            self.slot_live(index as int),
        ensures
            *value == self.slot_value(index as int),
    {
        self.slots[index].value.as_ref().unwrap()
    }
}

/// The backward link the node at position `k` of a chain must carry.
pub closed spec fn prev_of(ids: Seq<int>, k: int) -> Option<int> {
    if k == 0 {
        None
    } else {
        Some(ids[k - 1])
    }
}

/// The forward link the node at position `k` of a chain must carry.
pub closed spec fn next_of(ids: Seq<int>, k: int) -> Option<int> {
    if k == ids.len() - 1 {
        None
    } else {
        Some(ids[k + 1])
    }
}

/// The addresses `ids` form a well-linked chain of live nodes in `arena`:
/// all distinct and in range, every slot holding a value, and each node's
/// links pointing exactly at its neighbours in the chain.
pub closed spec fn chain_ok<T>(arena: Arena<T>, ids: Seq<int>) -> bool {
    &&& forall|k: int| 0 <= k < ids.len() ==> 0 <= #[trigger] ids[k] < arena.num_slots()
    &&& forall|j: int, k: int| 0 <= j < k < ids.len() ==> ids[j] != ids[k]
    &&& forall|k: int| 0 <= k < ids.len() ==> #[trigger] arena.slot_live(ids[k])
    &&& forall|k: int| 0 <= k < ids.len() ==> #[trigger] arena.slot_prev(ids[k]) == prev_of(ids, k)
    &&& forall|k: int| 0 <= k < ids.len() ==> #[trigger] arena.slot_next(ids[k]) == next_of(ids, k)
}

/// The values held by the nodes of a chain, in chain order.
pub closed spec fn chain_values<T>(arena: Arena<T>, ids: Seq<int>) -> Seq<T> {
    Seq::new(ids.len(), |k: int| arena.slot_value(ids[k]))
}

/// A chain of distinct in-range addresses can be no longer than the range.
proof fn lemma_distinct_bounded(ids: Seq<int>, bound: int)
    requires
        bound >= 0,
        forall|k: int| 0 <= k < ids.len() ==> 0 <= #[trigger] ids[k] < bound,
        forall|j: int, k: int| 0 <= j < k < ids.len() ==> ids[j] != ids[k],
    ensures
        ids.len() <= bound,
{
    assert(ids.no_duplicates());
    ids.unique_seq_to_set();
    assert(ids.to_set().subset_of(set_int_range(0, bound))) by {
        assert forall|x: int| ids.to_set().contains(x) implies set_int_range(0, bound).contains(
            x,
        ) by {
            let k = choose|k: int| 0 <= k < ids.len() && ids[k] == x;
            assert(0 <= ids[k] < bound);
        }
    }
    lemma_int_range(0, bound);
    lemma_len_subset(ids.to_set(), set_int_range(0, bound));
}

/// Two disjoint chains of distinct in-range addresses together can be no
/// longer than the range.
proof fn lemma_disjoint_bounded(a: Seq<int>, b: Seq<int>, bound: int)
    requires
        bound >= 0,
        forall|k: int| 0 <= k < a.len() ==> 0 <= #[trigger] a[k] < bound,
        forall|k: int| 0 <= k < b.len() ==> 0 <= #[trigger] b[k] < bound,
        forall|j: int, k: int| 0 <= j < k < a.len() ==> a[j] != a[k],
        forall|j: int, k: int| 0 <= j < k < b.len() ==> b[j] != b[k],
        forall|j: int, k: int| 0 <= j < a.len() && 0 <= k < b.len() ==> a[j] != b[k],
    ensures
        a.len() + b.len() <= bound,
{
    let c = a + b;
    assert forall|k: int| 0 <= k < c.len() implies 0 <= #[trigger] c[k] < bound by {
        if k < a.len() {
            assert(c[k] == a[k]);
        } else {
            assert(c[k] == b[k - a.len()]);
        }
    }
    assert forall|j: int, k: int| 0 <= j < k < c.len() implies c[j] != c[k] by {
        if k < a.len() {
            assert(c[j] == a[j] && c[k] == a[k]);
        } else if j >= a.len() {
            assert(c[j] == b[j - a.len()] && c[k] == b[k - a.len()]);
        } else {
            assert(c[j] == a[j] && c[k] == b[k - a.len()]);
        }
    }
    lemma_distinct_bounded(c, bound);
}

/// Cross-linking the tail of one chain with the head of a disjoint chain
/// yields the concatenated chain, carrying the concatenated values.
proof fn lemma_splice_chain<T>(a0: Arena<T>, a1: Arena<T>, a: Seq<int>, b: Seq<int>)
    requires
        a.len() > 0,
        b.len() > 0,
        chain_ok(a0, a),
        chain_ok(a0, b),
        forall|j: int, k: int| 0 <= j < a.len() && 0 <= k < b.len() ==> a[j] != b[k],
        a1.num_slots() == a0.num_slots(),
        forall|i: int|
            0 <= i < a0.num_slots() && i != a.last() && i != b.first() ==> a1.slot(i) == a0.slot(
                i,
            ),
        a1.slot_live(a.last()),
        a1.slot_value(a.last()) == a0.slot_value(a.last()),
        a1.slot_prev(a.last()) == a0.slot_prev(a.last()),
        a1.slot_next(a.last()) == Some(b.first()),
        a1.slot_live(b.first()),
        a1.slot_value(b.first()) == a0.slot_value(b.first()),
        a1.slot_next(b.first()) == a0.slot_next(b.first()),
        a1.slot_prev(b.first()) == Some(a.last()),
    ensures
        chain_ok(a1, a + b),
        chain_values(a1, a + b) == chain_values(a0, a) + chain_values(a0, b),
{
    let na = a.len() as int;
    let c = a + b;
    assert forall|k: int|
        0 <= k < c.len() implies 0 <= #[trigger] c[k] < a1.num_slots() && a1.slot_live(c[k])
        && a1.slot_prev(c[k]) == prev_of(c, k) && a1.slot_next(c[k]) == next_of(c, k) by {
        if k < na {
            assert(c[k] == a[k]);
            assert(a0.slot_live(a[k]));
            assert(a0.slot_prev(a[k]) == prev_of(a, k));
            assert(a0.slot_next(a[k]) == next_of(a, k));
            if k < na - 1 {
                assert(a[k] != a[na - 1]);
                assert(a1.slot(a[k]) == a0.slot(a[k]));
            }
        } else {
            assert(c[k] == b[k - na]);
            assert(a0.slot_live(b[k - na]));
            assert(a0.slot_prev(b[k - na]) == prev_of(b, k - na));
            assert(a0.slot_next(b[k - na]) == next_of(b, k - na));
            if k > na {
                assert(b[k - na] != b[0]);
                assert(a1.slot(b[k - na]) == a0.slot(b[k - na]));
            }
        }
    }
    assert forall|j: int, k: int| 0 <= j < k < c.len() implies c[j] != c[k] by {
        if k < na {
            assert(c[j] == a[j] && c[k] == a[k]);
        } else if j >= na {
            assert(c[j] == b[j - na] && c[k] == b[k - na]);
        } else {
            assert(c[j] == a[j] && c[k] == b[k - na]);
        }
    }
    assert(chain_values(a1, c) =~= chain_values(a0, a) + chain_values(a0, b));
}

/// A list and its chain are a function of their own slots alone: an
/// arena mutation that touches none of a list's nodes preserves both the
/// list's well-formedness and its values.
///
/// This is the frame rule that lets many lists share one arena: every
/// mutating operation says which slots it touched, and every other list
/// survives unchanged.
pub proof fn lemma_untouched<T>(list: LinkedList<T>, a0: Arena<T>, a1: Arena<T>)
    requires
        list.wf(a0),
        a1.num_slots() >= a0.num_slots(),
        forall|k: int|
            0 <= k < list.node_ids().len() ==> a1.slot(#[trigger] list.node_ids()[k]) == a0.slot(
                list.node_ids()[k],
            ),
    ensures
        list.wf(a1),
        list.contents(a1) == list.contents(a0),
{
    let ids = list.ids@;
    assert forall|k: int|
        0 <= k < ids.len() implies 0 <= #[trigger] ids[k] < a1.num_slots() && a1.slot_live(ids[k])
        && a1.slot_prev(ids[k]) == prev_of(ids, k) && a1.slot_next(ids[k]) == next_of(ids, k) by {
        assert(a1.slot(list.node_ids()[k]) == a0.slot(list.node_ids()[k]));
        assert(a1.slot(ids[k]) == a0.slot(ids[k]));
        assert(a0.slot_live(ids[k]));
        assert(a0.slot_prev(ids[k]) == prev_of(ids, k));
        assert(a0.slot_next(ids[k]) == next_of(ids, k));
    }
    assert(list.contents(a1) =~= list.contents(a0));
}

/// Sharing no node is a symmetric relation.
pub proof fn lemma_disjoint_sym<T>(a: LinkedList<T>, b: LinkedList<T>)
    requires
        a.disjoint(b),
    ensures
        b.disjoint(a),
{
}

/// A doubly-linked list of values stored in an [`Arena`].
///
/// The boundary pair holds one half-share of the head node and one of the
/// tail node; it is absent exactly when the list is empty. The list also
/// tracks its own length, so `len` is constant-time.
pub struct LinkedList<T> {
    head_tail: Option<(HalfHandle, HalfHandle)>,
    length: usize,
    ids: Ghost<Seq<int>>,
    values: core::marker::PhantomData<T>,
}

impl<T> LinkedList<T> {
    /// The arena addresses of this list's nodes, in list order.
    pub closed spec fn node_ids(self) -> Seq<int> {
        self.ids@
    }

    /// The list's own bookkeeping is consistent: the stored length matches
    /// the chain, and the boundary pair addresses the chain's endpoints.
    pub closed spec fn index_ok(self) -> bool {
        &&& self.length as int == self.ids@.len()
        &&& match self.head_tail {
            Some(ht) => self.ids@.len() > 0 && ht.0.id() == self.ids@.first() && ht.1.id()
                == self.ids@.last(),
            None => self.ids@.len() == 0,
        }
    }

    /// The list's nodes form a well-linked chain of live nodes in `arena`.
    pub closed spec fn linked_in(self, arena: Arena<T>) -> bool {
        chain_ok(arena, self.ids@)
    }

    /// The list is well-formed with respect to `arena`.
    pub open spec fn wf(self, arena: Arena<T>) -> bool {
        self.index_ok() && self.linked_in(arena)
    }

    /// The values of this list, in order, as stored in `arena`.
    pub closed spec fn contents(self, arena: Arena<T>) -> Seq<T> {
        chain_values(arena, self.ids@)
    }

    /// Two lists share no node.
    pub open spec fn disjoint(self, other: LinkedList<T>) -> bool {
        forall|i: int| !(self.node_ids().contains(i) && #[trigger] other.node_ids().contains(i))
    }

    /// An empty list. It is well-formed for every arena, and shares no node
    /// with any list.
    pub fn new() -> (list: Self)
        ensures
            list.node_ids() == Seq::<int>::empty(),
            forall|arena: Arena<T>| #[trigger] list.wf(arena),
            forall|arena: Arena<T>| #[trigger] list.contents(arena) == Seq::<T>::empty(),
            forall|other: LinkedList<T>| #[trigger] list.disjoint(other),
            forall|other: LinkedList<T>| #[trigger] other.disjoint(list),
    {
        let list = LinkedList {
            head_tail: None,
            length: 0,
            ids: Ghost(Seq::empty()),
            values: core::marker::PhantomData,
        };
        proof {
            assert forall|arena: Arena<T>| #[trigger] list.contents(arena) == Seq::<T>::empty() by {
                assert(list.contents(arena) =~= Seq::<T>::empty());
            }
        }
        list
    }

    /// Is the list empty? Constant-time; needs no arena access.
    pub fn is_empty(&self) -> (empty: bool)
        requires
            self.index_ok(),
        ensures
            empty <==> self.node_ids().len() == 0,
    {
        self.head_tail.is_none()
    }

    /// Allocate a node for `value` and split its fresh ownership unit into
    /// the two halves that the list protocol will distribute.
    fn new_halves(value: T, arena: &mut Arena<T>) -> (halves: (HalfHandle, HalfHandle))
        ensures
            halves.0.id() == old(arena).num_slots(),
            halves.1.id() == old(arena).num_slots(),
            final(arena).num_slots() == old(arena).num_slots() + 1,
            final(arena).num_slots() <= usize::MAX,
            final(arena).slot_live(old(arena).num_slots()),
            final(arena).slot_value(old(arena).num_slots()) == value,
            final(arena).slot_unlinked(old(arena).num_slots()),
            forall|i: int|
                0 <= i < old(arena).num_slots() ==> final(arena).slot(i) == old(arena).slot(i),
    {
        let full = arena.allocate(value);
        full.split()
    }

    /// Collect both halves of one node, rejoin them, and extract its value.
    fn into_inner(left: HalfHandle, right: HalfHandle, arena: &mut Arena<T>) -> (value: T)
        requires
            left.id() == right.id(),
            old(arena).slot_live(left.id()),
            old(arena).slot_unlinked(left.id()),
        ensures
            value == old(arena).slot_value(left.id()),
            final(arena).num_slots() == old(arena).num_slots(),
            !final(arena).slot_live(left.id()),
            final(arena).slot_unlinked(left.id()),
            forall|i: int|
                0 <= i < old(arena).num_slots() && i != left.id() ==> final(arena).slot(i) == old(
                    arena,
                ).slot(i),
    {
        let full = left.join(right);
        arena.retire(full)
    }

    /// Add `value` at the back of the list, in constant time.
    ///
    /// The fresh node's ownership is split in two: one half moves into the
    /// old tail's forward link (or the head boundary when the list was
    /// empty), the other becomes the new tail boundary.
    pub fn push_back(&mut self, value: T, arena: &mut Arena<T>)
        requires
            old(self).wf(*old(arena)),
        ensures
            final(self).wf(*final(arena)),
            final(self).node_ids() == old(self).node_ids().push(old(arena).num_slots()),
            final(self).contents(*final(arena)) == old(self).contents(*old(arena)).push(value),
            final(arena).num_slots() == old(arena).num_slots() + 1,
            forall|i: int|
                0 <= i < old(arena).num_slots() && !old(self).node_ids().contains(i)
                    ==> final(arena).slot(i) == old(arena).slot(i),
    {
        let ghost old_ids = self.ids@;
        let ghost arena0 = *arena;
        let ghost fresh = arena0.num_slots();
        let (one, two) = Self::new_halves(value, arena);
        proof {
            lemma_distinct_bounded(old_ids, fresh);
        }
        let ht = self.head_tail.take();
        match ht {
            Some(pair) => {
                let (head, tail) = pair;
                let tail_index = tail.index;
                let two_index = two.index;
                proof {
                    assert(tail.id() == old_ids.last());
                    assert(0 <= old_ids.last() < fresh);
                }
                arena.set_next(tail_index, Some(one));
                arena.set_prev(two_index, Some(tail));
                self.head_tail = Some((head, two));
            },
            None => {
                self.head_tail = Some((one, two));
            },
        }
        self.length = self.length + 1;
        self.ids = Ghost(old_ids.push(fresh));
        proof {
            assert forall|k: int|
                0 <= k < self.ids@.len() implies arena.slot_live(#[trigger] self.ids@[k])
                && arena.slot_prev(self.ids@[k]) == prev_of(self.ids@, k) && arena.slot_next(
                self.ids@[k],
            ) == next_of(self.ids@, k) by {
                if k < old_ids.len() {
                    assert(arena0.slot_live(old_ids[k]));
                    assert(arena0.slot_prev(old_ids[k]) == prev_of(old_ids, k));
                    assert(arena0.slot_next(old_ids[k]) == next_of(old_ids, k));
                    assert(arena0.slot_value(old_ids[k]) == arena.slot_value(old_ids[k]));
                }
            }
            assert(self.wf(*arena));
            assert(self.contents(*arena) =~= old(self).contents(arena0).push(value));
        }
    }

    /// Add `value` at the front of the list, in constant time.
    pub fn push_front(&mut self, value: T, arena: &mut Arena<T>)
        requires
            old(self).wf(*old(arena)),
        ensures
            final(self).wf(*final(arena)),
            final(self).node_ids() == seq![old(arena).num_slots()] + old(self).node_ids(),
            final(self).contents(*final(arena)) == seq![value] + old(self).contents(*old(arena)),
            final(arena).num_slots() == old(arena).num_slots() + 1,
            forall|i: int|
                0 <= i < old(arena).num_slots() && !old(self).node_ids().contains(i)
                    ==> final(arena).slot(i) == old(arena).slot(i),
    {
        let ghost old_ids = self.ids@;
        let ghost arena0 = *arena;
        let ghost fresh = arena0.num_slots();
        let (one, two) = Self::new_halves(value, arena);
        proof {
            lemma_distinct_bounded(old_ids, fresh);
        }
        let ht = self.head_tail.take();
        match ht {
            Some(pair) => {
                let (head, tail) = pair;
                let head_index = head.index;
                let two_index = two.index;
                proof {
                    assert(head.id() == old_ids.first());
                    assert(0 <= old_ids.first() < fresh);
                }
                arena.set_prev(head_index, Some(one));
                arena.set_next(two_index, Some(head));
                self.head_tail = Some((two, tail));
            },
            None => {
                self.head_tail = Some((one, two));
            },
        }
        self.length = self.length + 1;
        self.ids = Ghost(seq![fresh] + old_ids);
        proof {
            assert forall|k: int|
                0 <= k < self.ids@.len() implies arena.slot_live(#[trigger] self.ids@[k])
                && arena.slot_prev(self.ids@[k]) == prev_of(self.ids@, k) && arena.slot_next(
                self.ids@[k],
            ) == next_of(self.ids@, k) by {
                if k >= 1 {
                    assert(self.ids@[k] == old_ids[k - 1]);
                    assert(arena0.slot_live(old_ids[k - 1]));
                    assert(arena0.slot_prev(old_ids[k - 1]) == prev_of(old_ids, k - 1));
                    assert(arena0.slot_next(old_ids[k - 1]) == next_of(old_ids, k - 1));
                    assert(arena0.slot_value(old_ids[k - 1]) == arena.slot_value(old_ids[k - 1]));
                }
            }
            assert(self.wf(*arena));
            assert(self.contents(*arena) =~= seq![value] + old(self).contents(arena0));
        }
    }

    /// Remove and return the front value, or `None` on an empty list,
    /// in constant time. An empty list and its arena are left untouched.
    pub fn pop_front(&mut self, arena: &mut Arena<T>) -> (popped: Option<T>)
        requires
            old(self).wf(*old(arena)),
        ensures
            final(self).wf(*final(arena)),
            old(self).node_ids().len() == 0 ==> popped is None && *final(self) == *old(self)
                && *final(arena) == *old(arena),
            old(self).node_ids().len() > 0 ==> popped == Some(
                old(self).contents(*old(arena)).first(),
            ) && final(self).node_ids() == old(self).node_ids().drop_first()
                && final(self).contents(*final(arena)) == old(self).contents(
                *old(arena),
            ).drop_first(),
            final(arena).num_slots() == old(arena).num_slots(),
            forall|i: int|
                0 <= i < old(arena).num_slots() && !old(self).node_ids().contains(i)
                    ==> final(arena).slot(i) == old(arena).slot(i),
    {
        let ghost old_ids = self.ids@;
        let ghost arena0 = *arena;
        let ht = self.head_tail.take();
        match ht {
            None => None,
            Some(pair) => {
                let (head, tail) = pair;
                if head.identity(&tail) {
                    proof {
                        if old_ids.len() >= 2 {
                            assert(old_ids[0] != old_ids[old_ids.len() - 1]);
                        }
                        assert(old_ids.len() == 1);
                        assert(arena0.slot_prev(old_ids[0]) == prev_of(old_ids, 0));
                        assert(arena0.slot_next(old_ids[0]) == next_of(old_ids, 0));
                    }
                    let value = Self::into_inner(head, tail, arena);
                    self.length = self.length - 1;
                    self.ids = Ghost(Seq::empty());
                    proof {
                        assert(self.ids@ =~= old_ids.drop_first());
                        assert(self.contents(*arena) =~= old(self).contents(arena0).drop_first());
                        assert(value == old(self).contents(arena0).first());
                    }
                    Some(value)
                } else {
                    proof {
                        assert(old_ids.len() >= 2);
                        assert(arena0.slot_live(old_ids[0]));
                        assert(arena0.slot_prev(old_ids[0]) == prev_of(old_ids, 0));
                        assert(arena0.slot_next(old_ids[0]) == next_of(old_ids, 0));
                        assert(old_ids[0] != old_ids[1]);
                    }
                    let head_index = head.index;
                    let next = arena.take_next(head_index).unwrap();
                    proof {
                        assert(next.id() == old_ids[1]);
                        assert(0 <= old_ids[1] < arena0.num_slots());
                        assert(arena0.slot_prev(old_ids[1]) == prev_of(old_ids, 1));
                        assert(arena.slot(old_ids[1]) == arena0.slot(old_ids[1]));
                        assert(arena.slot_prev(old_ids[1]) == Some(old_ids[0]));
                    }
                    let second_index = next.index;
                    let other_head = arena.take_prev(second_index).unwrap();
                    self.head_tail = Some((next, tail));
                    proof {
                        assert(arena.slot_live(old_ids[0]));
                        assert(arena.slot_unlinked(old_ids[0]));
                    }
                    let value = Self::into_inner(head, other_head, arena);
                    self.length = self.length - 1;
                    self.ids = Ghost(old_ids.drop_first());
                    proof {
                        assert forall|k: int|
                            0 <= k < self.ids@.len() implies arena.slot_live(
                            #[trigger] self.ids@[k],
                        ) && arena.slot_prev(self.ids@[k]) == prev_of(self.ids@, k)
                            && arena.slot_next(self.ids@[k]) == next_of(self.ids@, k) by {
                            assert(self.ids@[k] == old_ids[k + 1]);
                            assert(arena0.slot_live(old_ids[k + 1]));
                            assert(arena0.slot_prev(old_ids[k + 1]) == prev_of(old_ids, k + 1));
                            assert(arena0.slot_next(old_ids[k + 1]) == next_of(old_ids, k + 1));
                            if k >= 1 {
                                assert(old_ids[k + 1] != old_ids[0]);
                                assert(old_ids[k + 1] != old_ids[1]);
                                assert(arena.slot(old_ids[k + 1]) == arena0.slot(old_ids[k + 1]));
                            }
                        }
                        assert(self.wf(*arena));
                        assert(self.contents(*arena) =~= old(self).contents(arena0).drop_first());
                        assert(value == old(self).contents(arena0).first());
                    }
                    Some(value)
                }
            },
        }
    }

    /// Remove and return the back value, or `None` on an empty list,
    /// in constant time. An empty list and its arena are left untouched.
    pub fn pop_back(&mut self, arena: &mut Arena<T>) -> (popped: Option<T>)
        requires
            old(self).wf(*old(arena)),
        ensures
            final(self).wf(*final(arena)),
            old(self).node_ids().len() == 0 ==> popped is None && *final(self) == *old(self)
                && *final(arena) == *old(arena),
            old(self).node_ids().len() > 0 ==> popped == Some(
                old(self).contents(*old(arena)).last(),
            ) && final(self).node_ids() == old(self).node_ids().drop_last()
                && final(self).contents(*final(arena)) == old(self).contents(
                *old(arena),
            ).drop_last(),
            final(arena).num_slots() == old(arena).num_slots(),
            forall|i: int|
                0 <= i < old(arena).num_slots() && !old(self).node_ids().contains(i)
                    ==> final(arena).slot(i) == old(arena).slot(i),
    {
        let ghost old_ids = self.ids@;
        let ghost arena0 = *arena;
        let ht = self.head_tail.take();
        match ht {
            None => None,
            Some(pair) => {
                let (head, tail) = pair;
                if head.identity(&tail) {
                    proof {
                        if old_ids.len() >= 2 {
                            assert(old_ids[0] != old_ids[old_ids.len() - 1]);
                        }
                        assert(old_ids.len() == 1);
                        assert(arena0.slot_prev(old_ids[0]) == prev_of(old_ids, 0));
                        assert(arena0.slot_next(old_ids[0]) == next_of(old_ids, 0));
                    }
                    let value = Self::into_inner(head, tail, arena);
                    self.length = self.length - 1;
                    self.ids = Ghost(Seq::empty());
                    proof {
                        assert(self.ids@ =~= old_ids.drop_last());
                        assert(self.contents(*arena) =~= old(self).contents(arena0).drop_last());
                        assert(value == old(self).contents(arena0).last());
                    }
                    Some(value)
                } else {
                    let ghost n = old_ids.len() as int;
                    proof {
                        assert(old_ids.len() >= 2);
                        assert(arena0.slot_live(old_ids[n - 1]));
                        assert(arena0.slot_prev(old_ids[n - 1]) == prev_of(old_ids, n - 1));
                        assert(arena0.slot_next(old_ids[n - 1]) == next_of(old_ids, n - 1));
                        assert(old_ids[n - 2] != old_ids[n - 1]);
                    }
                    let tail_index = tail.index;
                    let prev = arena.take_prev(tail_index).unwrap();
                    proof {
                        assert(prev.id() == old_ids[n - 2]);
                        assert(0 <= old_ids[n - 2] < arena0.num_slots());
                        assert(arena0.slot_next(old_ids[n - 2]) == next_of(old_ids, n - 2));
                        assert(arena.slot(old_ids[n - 2]) == arena0.slot(old_ids[n - 2]));
                        assert(arena.slot_next(old_ids[n - 2]) == Some(old_ids[n - 1]));
                    }
                    let second_index = prev.index;
                    let other_tail = arena.take_next(second_index).unwrap();
                    self.head_tail = Some((head, prev));
                    proof {
                        assert(arena.slot_live(old_ids[n - 1]));
                        assert(arena.slot_unlinked(old_ids[n - 1]));
                    }
                    let value = Self::into_inner(tail, other_tail, arena);
                    self.length = self.length - 1;
                    self.ids = Ghost(old_ids.drop_last());
                    proof {
                        assert forall|k: int|
                            0 <= k < self.ids@.len() implies arena.slot_live(
                            #[trigger] self.ids@[k],
                        ) && arena.slot_prev(self.ids@[k]) == prev_of(self.ids@, k)
                            && arena.slot_next(self.ids@[k]) == next_of(self.ids@, k) by {
                            assert(self.ids@[k] == old_ids[k]);
                            assert(arena0.slot_live(old_ids[k]));
                            assert(arena0.slot_prev(old_ids[k]) == prev_of(old_ids, k));
                            assert(arena0.slot_next(old_ids[k]) == next_of(old_ids, k));
                            if k < n - 2 {
                                assert(old_ids[k] != old_ids[n - 2]);
                                assert(old_ids[k] != old_ids[n - 1]);
                                assert(arena.slot(old_ids[k]) == arena0.slot(old_ids[k]));
                            }
                        }
                        assert(self.wf(*arena));
                        assert(self.contents(*arena) =~= old(self).contents(arena0).drop_last());
                        assert(value == old(self).contents(arena0).last());
                    }
                    Some(value)
                }
            },
        }
    }

    /// Splice all of `other`'s nodes onto the end of `self`, in constant
    /// time: the two boundary half-handles are cross-linked directly,
    /// without visiting interior nodes. `other` becomes empty; its chain's
    /// ownership moves into `self`.
    pub fn append(&mut self, other: &mut Self, arena: &mut Arena<T>)
        requires
            old(self).wf(*old(arena)),
            old(other).wf(*old(arena)),
            old(self).disjoint(*old(other)),
        ensures
            final(self).wf(*final(arena)),
            final(other).wf(*final(arena)),
            final(self).node_ids() == old(self).node_ids() + old(other).node_ids(),
            final(other).node_ids() == Seq::<int>::empty(),
            final(self).contents(*final(arena)) == old(self).contents(*old(arena)) + old(
                other,
            ).contents(*old(arena)),
            final(other).contents(*final(arena)) == Seq::<T>::empty(),
            final(arena).num_slots() == old(arena).num_slots(),
            forall|i: int|
                0 <= i < old(arena).num_slots() && !old(self).node_ids().contains(i) && !old(
                    other,
                ).node_ids().contains(i) ==> final(arena).slot(i) == old(arena).slot(i),
    {
        let ghost a_ids = self.ids@;
        let ghost b_ids = other.ids@;
        let ghost arena0 = *arena;
        if other.is_empty() {
            proof {
                assert(self.ids@ =~= a_ids + b_ids);
                assert(other.contents(*arena) =~= Seq::<T>::empty());
                assert(other.ids@ =~= Seq::<int>::empty());
                assert(self.contents(*arena) =~= old(self).contents(arena0) + old(
                    other,
                ).contents(arena0));
            }
        } else if self.is_empty() {
            core::mem::swap(self, other);
            proof {
                assert(self.ids@ =~= a_ids + b_ids);
                assert(other.contents(*arena) =~= Seq::<T>::empty());
                assert(other.ids@ =~= Seq::<int>::empty());
                assert(self.contents(*arena) =~= old(self).contents(arena0) + old(
                    other,
                ).contents(arena0));
            }
        } else {
            self.splice_back(other, arena);
        }
    }

    /// Cross-link the tail of a non-empty `self` with the head of a
    /// non-empty `other`: the splice step of [`Self::append`].
    fn splice_back(&mut self, other: &mut Self, arena: &mut Arena<T>)
        requires
            old(self).wf(*old(arena)),
            old(other).wf(*old(arena)),
            old(self).disjoint(*old(other)),
            old(self).node_ids().len() > 0,
            old(other).node_ids().len() > 0,
        ensures
            final(self).wf(*final(arena)),
            final(other).wf(*final(arena)),
            final(self).node_ids() == old(self).node_ids() + old(other).node_ids(),
            final(other).node_ids() == Seq::<int>::empty(),
            final(self).contents(*final(arena)) == old(self).contents(*old(arena)) + old(
                other,
            ).contents(*old(arena)),
            final(other).contents(*final(arena)) == Seq::<T>::empty(),
            final(arena).num_slots() == old(arena).num_slots(),
            forall|i: int|
                0 <= i < old(arena).num_slots() && !old(self).node_ids().contains(i) && !old(
                    other,
                ).node_ids().contains(i) ==> final(arena).slot(i) == old(arena).slot(i),
    {
        let ghost a_ids = self.ids@;
        let ghost b_ids = other.ids@;
        let ghost arena0 = *arena;
        let _slot_bound = arena.slot_count();
        proof {
            assert forall|j: int, k: int|
                0 <= j < a_ids.len() && 0 <= k < b_ids.len() implies #[trigger] a_ids[j]
                != #[trigger] b_ids[k] by {
                if a_ids[j] == b_ids[k] {
                    assert(old(self).node_ids().contains(a_ids[j]));
                    assert(old(other).node_ids().contains(a_ids[j]));
                }
            }
            lemma_disjoint_bounded(a_ids, b_ids, arena0.num_slots());
        }
        let ht = self.head_tail.take();
        let other_ht = other.head_tail.take();
        match (ht, other_ht) {
            (Some(apair), Some(bpair)) => {
                let (head, mid_tail) = apair;
                let (mid_head, tail) = bpair;
                let mt_index = mid_tail.index;
                let mh_index = mid_head.index;
                proof {
                    assert(mid_tail.id() == a_ids.last());
                    assert(mid_head.id() == b_ids.first());
                    assert(0 <= a_ids.last() < arena0.num_slots());
                    assert(0 <= b_ids.first() < arena0.num_slots());
                }
                arena.set_next(mt_index, Some(mid_head));
                arena.set_prev(mh_index, Some(mid_tail));
                self.head_tail = Some((head, tail));
                self.length = self.length + other.length;
                other.length = 0;
                self.ids = Ghost(a_ids + b_ids);
                other.ids = Ghost(Seq::empty());
                proof {
                    let na = a_ids.len() as int;
                    assert(arena0.slot_live(a_ids[na - 1]));
                    assert(arena0.slot_prev(a_ids[na - 1]) == prev_of(a_ids, na - 1));
                    assert(arena0.slot_next(a_ids[na - 1]) == next_of(a_ids, na - 1));
                    assert(arena0.slot_live(b_ids[0]));
                    assert(arena0.slot_prev(b_ids[0]) == prev_of(b_ids, 0));
                    assert(arena0.slot_next(b_ids[0]) == next_of(b_ids, 0));
                    assert(arena.slot_live(a_ids[na - 1]));
                    assert(arena.slot_value(a_ids[na - 1]) == arena0.slot_value(a_ids[na - 1]));
                    assert(arena.slot_prev(a_ids[na - 1]) == arena0.slot_prev(a_ids[na - 1]));
                    assert(arena.slot_next(a_ids[na - 1]) == Some(b_ids[0]));
                    assert(arena.slot_live(b_ids[0]));
                    assert(arena.slot_value(b_ids[0]) == arena0.slot_value(b_ids[0]));
                    assert(arena.slot_next(b_ids[0]) == arena0.slot_next(b_ids[0]));
                    assert(arena.slot_prev(b_ids[0]) == Some(a_ids[na - 1]));
                    lemma_splice_chain(arena0, *arena, a_ids, b_ids);
                    assert(self.wf(*arena));
                    assert(other.ids@ =~= Seq::<int>::empty());
                    assert(other.contents(*arena) =~= Seq::<T>::empty());
                }
            },
            _ => {
                proof {
                    assert(false);
                }
            },
        }
    }

    /// Splice all of `other`'s nodes onto the front of `self`, in constant
    /// time. `other` becomes empty.
    pub fn prepend(&mut self, other: &mut Self, arena: &mut Arena<T>)
        requires
            old(self).wf(*old(arena)),
            old(other).wf(*old(arena)),
            old(self).disjoint(*old(other)),
        ensures
            final(self).wf(*final(arena)),
            final(other).wf(*final(arena)),
            final(self).node_ids() == old(other).node_ids() + old(self).node_ids(),
            final(other).node_ids() == Seq::<int>::empty(),
            final(self).contents(*final(arena)) == old(other).contents(*old(arena)) + old(self).contents(*old(arena)),
            final(other).contents(*final(arena)) == Seq::<T>::empty(),
            final(arena).num_slots() == old(arena).num_slots(),
            forall|i: int|
                0 <= i < old(arena).num_slots() && !old(self).node_ids().contains(i) && !old(
                    other,
                ).node_ids().contains(i) ==> final(arena).slot(i) == old(arena).slot(i),
    {
        other.append(self, arena);
        core::mem::swap(self, other);
    }

    /// Split the list at index `at`: the first `at` values stay in `self`,
    /// and the rest are returned as a new list. If `at` exceeds the length,
    /// `None` is returned and the list's contents and ordering are fully
    /// restored before returning.
    ///
    /// This is the reference approach — pop the first `at` values and push
    /// them onto a fresh chain — which respects the promised complexity
    /// bound of the operation but is not the fastest possible splice.
    pub fn split_off(&mut self, at: usize, arena: &mut Arena<T>) -> (rest: Option<Self>)
        requires
            old(self).wf(*old(arena)),
        ensures
            final(self).wf(*final(arena)),
            at <= old(self).node_ids().len() ==> match rest {
                Some(r) => {
                    &&& r.wf(*final(arena))
                    &&& final(self).contents(*final(arena)) == old(self).contents(
                        *old(arena),
                    ).take(at as int)
                    &&& r.contents(*final(arena)) == old(self).contents(*old(arena)).skip(
                        at as int,
                    )
                    &&& r.node_ids() == old(self).node_ids().skip(at as int)
                    &&& final(self).disjoint(r)
                    &&& r.disjoint(*final(self))
                },
                None => false,
            },
            at > old(self).node_ids().len() ==> rest is None && final(self).contents(
                *final(arena),
            ) == old(self).contents(*old(arena)),
            forall|x: int|
                #[trigger] final(self).node_ids().contains(x) ==> old(self).node_ids().contains(x)
                    || old(arena).num_slots() <= x,
            final(arena).num_slots() >= old(arena).num_slots(),
            forall|i: int|
                0 <= i < old(arena).num_slots() && !old(self).node_ids().contains(i)
                    ==> final(arena).slot(i) == old(arena).slot(i),
    {
        let ghost g_ids = self.ids@;
        let ghost g_contents = self.contents(*arena);
        let ghost arena0 = *arena;
        let mut front = Self::new();
        let mut i: usize = 0;
        while i < at
            invariant
                i <= at,
                i as int <= g_ids.len(),
                g_ids == old(self).node_ids(),
                g_contents == old(self).contents(*old(arena)),
                arena0 == *old(arena),
                g_contents.len() == g_ids.len(),
                self.wf(*arena),
                front.wf(*arena),
                self.node_ids() == g_ids.skip(i as int),
                front.node_ids().len() == i as int,
                front.contents(*arena).len() == i as int,
                front.contents(*arena) + self.contents(*arena) == g_contents,
                forall|k: int| 0 <= k < g_ids.len() ==> 0 <= #[trigger] g_ids[k] < arena0.num_slots(),
                forall|k: int|
                    0 <= k < i as int ==> #[trigger] front.node_ids()[k] >= arena0.num_slots(),
                arena.num_slots() >= arena0.num_slots(),
                forall|x: int|
                    0 <= x < arena0.num_slots() && !g_ids.contains(x) ==> arena.slot(x)
                        == arena0.slot(x),
            decreases at - i,
        {
            let ghost self_ids_before = self.ids@;
            let ghost front_before = front;
            let ghost arena_entry = *arena;
            match self.pop_front(arena) {
                None => {
                    proof {
                        assert(i as int == g_ids.len());
                        assert(front.contents(*arena) =~= g_contents);
                    }
                    self.prepend(&mut front, arena);
                    proof {
                        assert(self.contents(*arena) =~= g_contents);
                        assert forall|x: int|
                            #[trigger] self.node_ids().contains(x) implies g_ids.contains(x)
                            || arena0.num_slots() <= x by {
                            let k = choose|k: int|
                                0 <= k < self.node_ids().len() && self.node_ids()[k] == x;
                        }
                    }
                    return None;
                },
                Some(element) => {
                    let ghost arena_mid = *arena;
                    proof {
                        assert forall|k: int|
                            0 <= k < front.node_ids().len() implies arena_mid.slot(
                            #[trigger] front.node_ids()[k],
                        ) == arena_entry.slot(front.node_ids()[k]) by {
                            assert(!self_ids_before.contains(front.node_ids()[k]));
                        }
                        lemma_untouched(front, arena_entry, arena_mid);
                    }
                    front.push_back(element, arena);
                    i = i + 1;
                    proof {
                        assert forall|k: int|
                            0 <= k < self.node_ids().len() implies arena.slot(
                            #[trigger] self.node_ids()[k],
                        ) == arena_mid.slot(self.node_ids()[k]) by {
                            assert(self.node_ids()[k] == self_ids_before[k + 1]);
                            assert(!front_before.node_ids().contains(self.node_ids()[k]));
                        }
                        lemma_untouched(*self, arena_mid, *arena);
                        assert(self.node_ids() =~= g_ids.skip(i as int));
                        assert(front.contents(*arena) + self.contents(*arena) =~= g_contents);
                        assert forall|k: int|
                            0 <= k < i as int implies #[trigger] front.node_ids()[k]
                            >= arena0.num_slots() by {
                            if k < i - 1 {
                                assert(front.node_ids()[k] == front_before.node_ids()[k]);
                            }
                        }
                        assert forall|x: int|
                            0 <= x < arena0.num_slots() && !g_ids.contains(x) implies arena.slot(x)
                            == arena0.slot(x) by {
                            assert(!self_ids_before.contains(x));
                            assert(!front_before.node_ids().contains(x));
                        }
                    }
                },
            }
        }
        proof {
            assert(self.contents(*arena).len() == g_ids.len() - at);
            assert(front.contents(*arena) =~= g_contents.take(at as int));
            assert(self.contents(*arena) =~= g_contents.skip(at as int));
        }
        core::mem::swap(self, &mut front);
        proof {
            assert(front.node_ids() =~= g_ids.skip(at as int));
        }
        Some(front)
    }

    /// Remove every value, popping from the back until the list is empty
    /// and dropping each extracted value immediately.
    pub fn clear(&mut self, arena: &mut Arena<T>)
        requires
            old(self).wf(*old(arena)),
        ensures
            final(self).wf(*final(arena)),
            final(self).node_ids() == Seq::<int>::empty(),
            final(self).contents(*final(arena)) == Seq::<T>::empty(),
            final(arena).num_slots() == old(arena).num_slots(),
            forall|i: int|
                0 <= i < old(arena).num_slots() && !old(self).node_ids().contains(i)
                    ==> final(arena).slot(i) == old(arena).slot(i),
    {
        let ghost g_ids = self.ids@;
        let ghost arena0 = *arena;
        while !self.is_empty()
            invariant
                self.wf(*arena),
                arena.num_slots() == arena0.num_slots(),
                forall|x: int| #[trigger] self.node_ids().contains(x) ==> g_ids.contains(x),
                forall|x: int|
                    0 <= x < arena0.num_slots() && !g_ids.contains(x) ==> arena.slot(x)
                        == arena0.slot(x),
            decreases self.node_ids().len(),
        {
            let ghost ids_before = self.ids@;
            let _ = self.pop_back(arena);
            proof {
                assert forall|x: int|
                    #[trigger] self.node_ids().contains(x) implies g_ids.contains(x) by {
                    let k = choose|k: int|
                        0 <= k < self.node_ids().len() && self.node_ids()[k] == x;
                    assert(ids_before[k] == x);
                    assert(ids_before.contains(x));
                }
            }
        }
        proof {
            assert(self.node_ids() =~= Seq::<int>::empty());
            assert(self.contents(*arena) =~= Seq::<T>::empty());
        }
    }

    /// Build a list from `values`, in order, allocating one fresh node per
    /// value. Older arena slots are untouched, so every existing list keeps
    /// its meaning, and the new list is disjoint from all of them.
    pub fn from_iter(values: Vec<T>, arena: &mut Arena<T>) -> (list: Self)
        ensures
            list.wf(*final(arena)),
            list.contents(*final(arena)) == values@,
            final(arena).num_slots() == old(arena).num_slots() + values@.len(),
            forall|x: int|
                #[trigger] list.node_ids().contains(x) ==> old(arena).num_slots() <= x,
            forall|i: int|
                0 <= i < old(arena).num_slots() ==> final(arena).slot(i) == old(arena).slot(i),
    {
        let ghost g_values = values@;
        let ghost arena0 = *arena;
        let mut values = values;
        let mut list = Self::new();
        while values.len() > 0
            invariant
                list.wf(*arena),
                g_values.len() >= values@.len(),
                values@ == g_values.take(values@.len() as int),
                list.contents(*arena) == g_values.skip(values@.len() as int),
                arena.num_slots() == arena0.num_slots() + g_values.len() - values@.len(),
                forall|x: int|
                    #[trigger] list.node_ids().contains(x) ==> arena0.num_slots() <= x,
                forall|i: int|
                    0 <= i < arena0.num_slots() ==> arena.slot(i) == arena0.slot(i),
            decreases values@.len(),
        {
            let ghost list_ids_before = list.ids@;
            let ghost slots_before = arena.num_slots();
            let value = values.pop().unwrap();
            list.push_front(value, arena);
            proof {
                assert(values@ =~= g_values.take(values@.len() as int));
                assert(list.contents(*arena) =~= g_values.skip(values@.len() as int));
                assert forall|x: int|
                    #[trigger] list.node_ids().contains(x) implies arena0.num_slots() <= x by {
                    let k = choose|k: int|
                        0 <= k < list.node_ids().len() && list.node_ids()[k] == x;
                    if k >= 1 {
                        assert(list_ids_before[k - 1] == x);
                        assert(list_ids_before.contains(x));
                    } else {
                        assert(x == slots_before);
                    }
                }
            }
        }
        proof {
            assert(list.contents(*arena) =~= g_values);
        }
        list
    }

    /// A forward iterator over the list's values.
    pub fn iter<'a>(&'a self, arena: &'a Arena<T>) -> (it: Iter<'a, T>)
        requires
            self.wf(*arena),
        ensures
            it.valid(),
            it.values() == self.contents(*arena),
            self.node_ids().len() > 0 ==> it.position() == Some(0int),
            self.node_ids().len() == 0 ==> it.position() is None,
    {
        Iter { inner: Cursor::new_front(self, arena) }
    }

    /// A read cursor standing on the first value.
    pub fn cursor_front<'a>(&'a self, arena: &'a Arena<T>) -> (cursor: Cursor<'a, T>)
        requires
            self.wf(*arena),
        ensures
            cursor.valid(),
            cursor.chain() == self.node_ids(),
            cursor.values() == self.contents(*arena),
            self.node_ids().len() > 0 ==> cursor.position() == Some(0int),
            self.node_ids().len() == 0 ==> cursor.position() is None,
    {
        Cursor::new_front(self, arena)
    }

    /// A read cursor standing on the last value.
    pub fn cursor_back<'a>(&'a self, arena: &'a Arena<T>) -> (cursor: Cursor<'a, T>)
        requires
            self.wf(*arena),
        ensures
            cursor.valid(),
            cursor.chain() == self.node_ids(),
            cursor.values() == self.contents(*arena),
            self.node_ids().len() > 0 ==> cursor.position() == Some(self.node_ids().len() - 1),
            self.node_ids().len() == 0 ==> cursor.position() is None,
    {
        Cursor::new_back(self, arena)
    }

    /// A write cursor standing on the first value.
    pub fn cursor_front_mut(&mut self, arena: &Arena<T>) -> (cursor: CursorMut<T>)
        requires
            old(self).wf(*arena),
        ensures
            *final(self) == *old(self),
            cursor.valid(*arena),
            cursor.chain() == old(self).node_ids(),
            old(self).node_ids().len() > 0 ==> cursor.position() == Some(0int),
            old(self).node_ids().len() == 0 ==> cursor.position() is None,
    {
        CursorMut::new_front(self, arena)
    }

    /// A write cursor standing on the last value.
    pub fn cursor_back_mut(&mut self, arena: &Arena<T>) -> (cursor: CursorMut<T>)
        requires
            old(self).wf(*arena),
        ensures
            *final(self) == *old(self),
            cursor.valid(*arena),
            cursor.chain() == old(self).node_ids(),
            old(self).node_ids().len() > 0 ==> cursor.position() == Some(
                old(self).node_ids().len() - 1,
            ),
            old(self).node_ids().len() == 0 ==> cursor.position() is None,
    {
        CursorMut::new_back(self, arena)
    }

    /// Copy the list's values into a vector, front to back.
    pub fn to_vec(&self, arena: &Arena<T>) -> (out: Vec<T>) where T: Copy
        requires
            self.wf(*arena),
        ensures
            out@ == self.contents(*arena),
    {
        let it = self.iter(arena);
        let out = it.collect_values();
        proof {
            assert(self.contents(*arena).skip(0) =~= self.contents(*arena));
        }
        out
    }

    /// The number of values in the list. Constant-time: the list keeps
    /// its own count instead of walking the chain.
    pub fn len(&self, arena: &Arena<T>) -> (n: usize)
        requires
            self.wf(*arena),
        ensures
            n == self.node_ids().len(),
            n == self.contents(*arena).len(),
    {
        self.length
    }
}

impl<T> Default for LinkedList<T> {
    /// Same as [`LinkedList::new`].
    fn default() -> (list: Self)
        ensures
            list.node_ids() == Seq::<int>::empty(),
            forall|arena: Arena<T>| #[trigger] list.wf(arena),
            forall|arena: Arena<T>| #[trigger] list.contents(arena) == Seq::<T>::empty(),
    {
        LinkedList::new()
    }
}

/// A read cursor: a position on one list's chain, plus shared access to
/// the arena. Many read cursors may be alive at once; while any of them
/// borrows the arena, no exclusive borrow can exist, so the values they
/// read cannot change under them.
pub struct Cursor<'a, T> {
    arena: &'a Arena<T>,
    at: Option<usize>,
    ids: Ghost<Seq<int>>,
    pos: Ghost<int>,
}

impl<'a, T> Cursor<'a, T> {
    /// The chain this cursor walks, as arena addresses in list order.
    pub closed spec fn chain(self) -> Seq<int> {
        self.ids@
    }

    /// The values of the chain, as stored in the borrowed arena.
    pub closed spec fn values(self) -> Seq<T> {
        chain_values(*self.arena, self.ids@)
    }

    /// The cursor's position on the chain, absent once it has moved past
    /// either end.
    pub closed spec fn position(self) -> Option<int> {
        match self.at {
            Some(_) => Some(self.pos@),
            None => None,
        }
    }

    /// The cursor's chain is well linked and its position points into it.
    pub closed spec fn valid(self) -> bool {
        &&& chain_ok(*self.arena, self.ids@)
        &&& match self.at {
            Some(index) => 0 <= self.pos@ < self.ids@.len() && index as int
                == self.ids@[self.pos@],
            None => true,
        }
    }

    /// A cursor standing on the first value of `list` (off-list when the
    /// list is empty).
    pub fn new_front(list: &LinkedList<T>, arena: &'a Arena<T>) -> (cursor: Self)
        requires
            list.wf(*arena),
        ensures
            cursor.valid(),
            cursor.chain() == list.node_ids(),
            cursor.values() == list.contents(*arena),
            list.node_ids().len() > 0 ==> cursor.position() == Some(0int),
            list.node_ids().len() == 0 ==> cursor.position() is None,
    {
        match &list.head_tail {
            Some(pair) => Cursor { arena, at: Some(pair.0.index), ids: Ghost(list.ids@), pos: Ghost(0) },
            None => Cursor { arena, at: None, ids: Ghost(list.ids@), pos: Ghost(0) },
        }
    }

    /// A cursor standing on the last value of `list` (off-list when the
    /// list is empty).
    pub fn new_back(list: &LinkedList<T>, arena: &'a Arena<T>) -> (cursor: Self)
        requires
            list.wf(*arena),
        ensures
            cursor.valid(),
            cursor.chain() == list.node_ids(),
            cursor.values() == list.contents(*arena),
            list.node_ids().len() > 0 ==> cursor.position() == Some(
                list.node_ids().len() - 1,
            ),
            list.node_ids().len() == 0 ==> cursor.position() is None,
    {
        match &list.head_tail {
            Some(pair) => Cursor {
                arena,
                at: Some(pair.1.index),
                ids: Ghost(list.ids@),
                pos: Ghost(list.ids@.len() - 1),
            },
            None => Cursor { arena, at: None, ids: Ghost(list.ids@), pos: Ghost(0) },
        }
    }

    /// Step one node to the right. Returns whether the cursor still stands
    /// on a node; from the last node it moves off the list and stays there,
    /// with no wraparound.
    pub fn move_right(&mut self) -> (moved: bool)
        requires
            old(self).valid(),
        ensures
            final(self).valid(),
            final(self).chain() == old(self).chain(),
            final(self).values() == old(self).values(),
            match old(self).position() {
                Some(p) => (p + 1 < old(self).chain().len() ==> moved && final(self).position()
                    == Some(p + 1)) && (p + 1 == old(self).chain().len() ==> !moved && final(self).position() is None),
                None => !moved && final(self).position() is None,
            },
    {
        match self.at {
            Some(index) => {
                let ghost p = self.pos@;
                let ghost ids = self.ids@;
                proof {
                    assert(self.arena.slot_next(ids[p]) == next_of(ids, p));
                }
                match self.arena.peek_next(index) {
                    Some(next_index) => {
                        self.at = Some(next_index);
                        self.pos = Ghost(p + 1);
                        true
                    },
                    None => {
                        self.at = None;
                        false
                    },
                }
            },
            None => false,
        }
    }

    /// Step one node to the left; the mirror image of
    /// [`Self::move_right`].
    pub fn move_left(&mut self) -> (moved: bool)
        requires
            old(self).valid(),
        ensures
            final(self).valid(),
            final(self).chain() == old(self).chain(),
            final(self).values() == old(self).values(),
            match old(self).position() {
                Some(p) => (p > 0 ==> moved && final(self).position() == Some(p - 1)) && (p == 0
                    ==> !moved && final(self).position() is None),
                None => !moved && final(self).position() is None,
            },
    {
        match self.at {
            Some(index) => {
                let ghost p = self.pos@;
                let ghost ids = self.ids@;
                proof {
                    assert(self.arena.slot_prev(ids[p]) == prev_of(ids, p));
                }
                match self.arena.peek_prev(index) {
                    Some(prev_index) => {
                        self.at = Some(prev_index);
                        self.pos = Ghost(p - 1);
                        true
                    },
                    None => {
                        self.at = None;
                        false
                    },
                }
            },
            None => false,
        }
    }

    /// The value the cursor stands on, absent once it is off the list.
    pub fn current(&self) -> (value: Option<&'a T>)
        requires
            self.valid(),
        ensures
            match self.position() {
                Some(p) => value matches Some(v) && *v == self.values()[p],
                None => value is None,
            },
    {
        match self.at {
            Some(index) => {
                proof {
                    assert(self.arena.slot_live(self.ids@[self.pos@]));
                }
                Some(self.arena.value_ref(index))
            },
            None => None,
        }
    }

    /// The value one step to the right, without moving.
    pub fn peek_right(&self) -> (value: Option<&'a T>)
        requires
            self.valid(),
        ensures
            match self.position() {
                Some(p) => (p + 1 < self.chain().len() ==> (value matches Some(v) && *v
                    == self.values()[p + 1])) && (p + 1 == self.chain().len() ==> value is None),
                None => value is None,
            },
    {
        match self.at {
            Some(index) => {
                let ghost p = self.pos@;
                let ghost ids = self.ids@;
                proof {
                    assert(self.arena.slot_next(ids[p]) == next_of(ids, p));
                    if p + 1 < ids.len() {
                        assert(self.arena.slot_live(ids[p + 1]));
                    }
                }
                match self.arena.peek_next(index) {
                    Some(next_index) => Some(self.arena.value_ref(next_index)),
                    None => None,
                }
            },
            None => None,
        }
    }

    /// The value one step to the left, without moving.
    pub fn peek_left(&self) -> (value: Option<&'a T>)
        requires
            self.valid(),
        ensures
            match self.position() {
                Some(p) => (p > 0 ==> (value matches Some(v) && *v == self.values()[p - 1]))
                    && (p == 0 ==> value is None),
                None => value is None,
            },
    {
        match self.at {
            Some(index) => {
                let ghost p = self.pos@;
                let ghost ids = self.ids@;
                proof {
                    assert(self.arena.slot_prev(ids[p]) == prev_of(ids, p));
                    if p > 0 {
                        assert(self.arena.slot_live(ids[p - 1]));
                    }
                }
                match self.arena.peek_prev(index) {
                    Some(prev_index) => Some(self.arena.value_ref(prev_index)),
                    None => None,
                }
            },
            None => None,
        }
    }
}

/// A forward iterator: a read cursor wrapped with "yield current, then
/// move right". Iteration is finite and restartable — a fresh iterator
/// can always be built from the list — but not resumable once consumed.
pub struct Iter<'a, T> {
    inner: Cursor<'a, T>,
}

impl<'a, T> Iter<'a, T> {
    /// The values the iterator walks over.
    pub closed spec fn values(self) -> Seq<T> {
        self.inner.values()
    }

    /// The position of the next value to yield, absent when exhausted.
    pub closed spec fn position(self) -> Option<int> {
        self.inner.position()
    }

    /// The iterator's cursor is valid.
    pub closed spec fn valid(self) -> bool {
        self.inner.valid()
    }

    /// Copy the remaining values out, in order, consuming the iterator.
    pub fn collect_values(self) -> (out: Vec<T>) where T: Copy
        requires
            self.valid(),
        ensures
            match self.position() {
                Some(p) => out@ == self.values().skip(p),
                None => out@ == Seq::<T>::empty(),
            },
    {
        let ghost vals = self.values();
        let ghost start = self.position();
        let mut it = self;
        let mut out: Vec<T> = Vec::new();
        loop
            invariant_except_break
                it.valid(),
                it.values() == vals,
                match it.position() {
                    Some(q) => 0 <= q <= vals.len() && match start {
                        Some(p) => 0 <= p <= q && out@ == vals.subrange(p, q),
                        None => false,
                    },
                    None => match start {
                        Some(p) => 0 <= p <= vals.len() && out@ == vals.skip(p),
                        None => out@ == Seq::<T>::empty(),
                    },
                },
            ensures
                match start {
                    Some(p) => 0 <= p <= vals.len() && out@ == vals.skip(p),
                    None => out@ == Seq::<T>::empty(),
                },
            decreases match it.position() {
                Some(q) => vals.len() - q + 1,
                None => 0int,
            },
        {
            let ghost before = it.position();
            match it.next() {
                Some(value) => {
                    out.push(*value);
                    proof {
                        let p = start->0;
                        let q = before->0;
                        assert(out@ =~= vals.subrange(p, q + 1));
                        if q + 1 == vals.len() {
                            assert(vals.subrange(p, q + 1) =~= vals.skip(p));
                        }
                    }
                },
                None => {
                    break;
                },
            }
        }
        out
    }

    /// Yield the current value and advance, or `None` when exhausted.
    pub fn next(&mut self) -> (item: Option<&'a T>)
        requires
            old(self).valid(),
        ensures
            final(self).valid(),
            final(self).values() == old(self).values(),
            match old(self).position() {
                Some(p) => item matches Some(v) && *v == old(self).values()[p] && (p + 1 < old(self).values().len() ==> final(self).position() == Some(p + 1)) && (p + 1 == old(self).values().len() ==> final(self).position() is None),
                None => item is None && final(self).position() is None,
            },
    {
        let item = self.inner.current();
        let _ = self.inner.move_right();
        item
    }
}

/// A write cursor: a position on one list's chain whose node values can
/// be replaced in place.
///
/// Reading needs only a shared borrow of the arena; replacing a value
/// needs the exclusive borrow, which shuts out every reader of every list
/// on the same arena for the duration — the mutual-exclusion guarantee
/// the content-access capability exists to give.
pub struct CursorMut<T> {
    at: Option<usize>,
    ids: Ghost<Seq<int>>,
    pos: Ghost<int>,
    values: core::marker::PhantomData<T>,
}

impl<T> CursorMut<T> {
    /// The chain this cursor walks, as arena addresses in list order.
    pub closed spec fn chain(self) -> Seq<int> {
        self.ids@
    }

    /// The cursor's position on the chain, absent once it has moved past
    /// either end.
    pub closed spec fn position(self) -> Option<int> {
        match self.at {
            Some(_) => Some(self.pos@),
            None => None,
        }
    }

    /// The cursor's chain is well linked in `arena` and its position
    /// points into it.
    pub closed spec fn valid(self, arena: Arena<T>) -> bool {
        &&& chain_ok(arena, self.ids@)
        &&& match self.at {
            Some(index) => 0 <= self.pos@ < self.ids@.len() && index as int
                == self.ids@[self.pos@],
            None => true,
        }
    }

    /// The values of the chain, as stored in `arena`.
    pub open spec fn values(self, arena: Arena<T>) -> Seq<T> {
        chain_values(arena, self.chain())
    }

    /// A write cursor standing on the first value of `list`.
    pub fn new_front(list: &LinkedList<T>, arena: &Arena<T>) -> (cursor: Self)
        requires
            list.wf(*arena),
        ensures
            cursor.valid(*arena),
            cursor.chain() == list.node_ids(),
            list.node_ids().len() > 0 ==> cursor.position() == Some(0int),
            list.node_ids().len() == 0 ==> cursor.position() is None,
    {
        match &list.head_tail {
            Some(pair) => CursorMut {
                at: Some(pair.0.index),
                ids: Ghost(list.ids@),
                pos: Ghost(0),
                values: core::marker::PhantomData,
            },
            None => CursorMut {
                at: None,
                ids: Ghost(list.ids@),
                pos: Ghost(0),
                values: core::marker::PhantomData,
            },
        }
    }

    /// A write cursor standing on the last value of `list`.
    pub fn new_back(list: &LinkedList<T>, arena: &Arena<T>) -> (cursor: Self)
        requires
            list.wf(*arena),
        ensures
            cursor.valid(*arena),
            cursor.chain() == list.node_ids(),
            list.node_ids().len() > 0 ==> cursor.position() == Some(list.node_ids().len() - 1),
            list.node_ids().len() == 0 ==> cursor.position() is None,
    {
        match &list.head_tail {
            Some(pair) => CursorMut {
                at: Some(pair.1.index),
                ids: Ghost(list.ids@),
                pos: Ghost(list.ids@.len() - 1),
                values: core::marker::PhantomData,
            },
            None => CursorMut {
                at: None,
                ids: Ghost(list.ids@),
                pos: Ghost(0),
                values: core::marker::PhantomData,
            },
        }
    }

    /// Turn this write cursor into a read cursor at the same position.
    pub fn into_cursor<'a>(self, arena: &'a Arena<T>) -> (cursor: Cursor<'a, T>)
        requires
            self.valid(*arena),
        ensures
            cursor.valid(),
            cursor.chain() == self.chain(),
            cursor.values() == self.values(*arena),
            cursor.position() == self.position(),
    {
        Cursor { arena, at: self.at, ids: self.ids, pos: self.pos }
    }

    /// Step one node to the right; as [`Cursor::move_right`].
    pub fn move_right(&mut self, arena: &Arena<T>) -> (moved: bool)
        requires
            old(self).valid(*arena),
        ensures
            final(self).valid(*arena),
            final(self).chain() == old(self).chain(),
            match old(self).position() {
                Some(p) => (p + 1 < old(self).chain().len() ==> moved && final(self).position()
                    == Some(p + 1)) && (p + 1 == old(self).chain().len() ==> !moved && final(self).position() is None),
                None => !moved && final(self).position() is None,
            },
    {
        match self.at {
            Some(index) => {
                let ghost p = self.pos@;
                let ghost ids = self.ids@;
                proof {
                    assert(arena.slot_next(ids[p]) == next_of(ids, p));
                }
                match arena.peek_next(index) {
                    Some(next_index) => {
                        self.at = Some(next_index);
                        self.pos = Ghost(p + 1);
                        true
                    },
                    None => {
                        self.at = None;
                        false
                    },
                }
            },
            None => false,
        }
    }

    /// Step one node to the left; as [`Cursor::move_left`].
    pub fn move_left(&mut self, arena: &Arena<T>) -> (moved: bool)
        requires
            old(self).valid(*arena),
        ensures
            final(self).valid(*arena),
            final(self).chain() == old(self).chain(),
            match old(self).position() {
                Some(p) => (p > 0 ==> moved && final(self).position() == Some(p - 1)) && (p == 0
                    ==> !moved && final(self).position() is None),
                None => !moved && final(self).position() is None,
            },
    {
        match self.at {
            Some(index) => {
                let ghost p = self.pos@;
                let ghost ids = self.ids@;
                proof {
                    assert(arena.slot_prev(ids[p]) == prev_of(ids, p));
                }
                match arena.peek_prev(index) {
                    Some(prev_index) => {
                        self.at = Some(prev_index);
                        self.pos = Ghost(p - 1);
                        true
                    },
                    None => {
                        self.at = None;
                        false
                    },
                }
            },
            None => false,
        }
    }

    /// The value the cursor stands on, absent once it is off the list.
    pub fn current<'b>(&self, arena: &'b Arena<T>) -> (value: Option<&'b T>)
        requires
            self.valid(*arena),
        ensures
            match self.position() {
                Some(p) => value matches Some(v) && *v == self.values(*arena)[p],
                None => value is None,
            },
    {
        match self.at {
            Some(index) => {
                proof {
                    assert(arena.slot_live(self.ids@[self.pos@]));
                }
                Some(arena.value_ref(index))
            },
            None => None,
        }
    }

    /// The value one step to the right, without moving.
    pub fn peek_right<'b>(&self, arena: &'b Arena<T>) -> (value: Option<&'b T>)
        requires
            self.valid(*arena),
        ensures
            match self.position() {
                Some(p) => (p + 1 < self.chain().len() ==> (value matches Some(v) && *v
                    == self.values(*arena)[p + 1])) && (p + 1 == self.chain().len()
                    ==> value is None),
                None => value is None,
            },
    {
        match self.at {
            Some(index) => {
                let ghost p = self.pos@;
                let ghost ids = self.ids@;
                proof {
                    assert(arena.slot_next(ids[p]) == next_of(ids, p));
                    if p + 1 < ids.len() {
                        assert(arena.slot_live(ids[p + 1]));
                    }
                }
                match arena.peek_next(index) {
                    Some(next_index) => Some(arena.value_ref(next_index)),
                    None => None,
                }
            },
            None => None,
        }
    }

    /// The value one step to the left, without moving.
    pub fn peek_left<'b>(&self, arena: &'b Arena<T>) -> (value: Option<&'b T>)
        requires
            self.valid(*arena),
        ensures
            match self.position() {
                Some(p) => (p > 0 ==> (value matches Some(v) && *v == self.values(*arena)[p
                    - 1])) && (p == 0 ==> value is None),
                None => value is None,
            },
    {
        match self.at {
            Some(index) => {
                let ghost p = self.pos@;
                let ghost ids = self.ids@;
                proof {
                    assert(arena.slot_prev(ids[p]) == prev_of(ids, p));
                    if p > 0 {
                        assert(arena.slot_live(ids[p - 1]));
                    }
                }
                match arena.peek_prev(index) {
                    Some(prev_index) => Some(arena.value_ref(prev_index)),
                    None => None,
                }
            },
            None => None,
        }
    }

    /// Replace the value the cursor stands on, returning the old one: the
    /// in-place mutation a write cursor exists for. Only the current
    /// node's value slot changes; every link and every other slot is
    /// untouched, so [`lemma_value_replaced`] carries any list over the
    /// update.
    pub fn replace(&self, arena: &mut Arena<T>, value: T) -> (prev: T)
        requires
            self.valid(*old(arena)),
            self.position() is Some,
        ensures
            self.valid(*final(arena)),
            prev == self.values(*old(arena))[self.position()->0],
            self.values(*final(arena)) == self.values(*old(arena)).update(
                self.position()->0,
                value,
            ),
            final(arena).num_slots() == old(arena).num_slots(),
            final(arena).slot_live(self.chain()[self.position()->0]),
            final(arena).slot_value(self.chain()[self.position()->0]) == value,
            final(arena).slot_prev(self.chain()[self.position()->0]) == old(arena).slot_prev(
                self.chain()[self.position()->0],
            ),
            final(arena).slot_next(self.chain()[self.position()->0]) == old(arena).slot_next(
                self.chain()[self.position()->0],
            ),
            forall|i: int|
                0 <= i < old(arena).num_slots() && i != self.chain()[self.position()->0]
                    ==> final(arena).slot(i) == old(arena).slot(i),
    {
        let ghost p = self.pos@;
        let ghost ids = self.ids@;
        let ghost arena0 = *arena;
        let index = match self.at {
            Some(index) => index,
            None => 0,
        };
        proof {
            assert(arena.slot_live(ids[p]));
        }
        let prev = arena.replace_value(index, value);
        proof {
            assert forall|k: int|
                0 <= k < ids.len() implies 0 <= #[trigger] ids[k] < arena.num_slots()
                && arena.slot_live(ids[k]) && arena.slot_prev(ids[k]) == prev_of(ids, k)
                && arena.slot_next(ids[k]) == next_of(ids, k) by {
                assert(arena0.slot_live(ids[k]));
                assert(arena0.slot_prev(ids[k]) == prev_of(ids, k));
                assert(arena0.slot_next(ids[k]) == next_of(ids, k));
                if k != p {
                    assert(arena.slot(ids[k]) == arena0.slot(ids[k]));
                }
            }
            assert(self.values(*arena) =~= self.values(arena0).update(p, value));
        }
        prev
    }
}

/// Replacing one value through a write cursor keeps every list on the
/// arena well-formed; the list owning the replaced node sees exactly one
/// element of its contents updated, and every other list is untouched.
pub proof fn lemma_value_replaced<T>(
    list: LinkedList<T>,
    a0: Arena<T>,
    a1: Arena<T>,
    target: int,
    p: int,
    value: T,
)
    requires
        list.wf(a0),
        a1.num_slots() == a0.num_slots(),
        0 <= p < list.node_ids().len(),
        list.node_ids()[p] == target,
        a1.slot_live(target),
        a1.slot_value(target) == value,
        a1.slot_prev(target) == a0.slot_prev(target),
        a1.slot_next(target) == a0.slot_next(target),
        forall|i: int| 0 <= i < a0.num_slots() && i != target ==> a1.slot(i) == a0.slot(i),
    ensures
        list.wf(a1),
        list.contents(a1) == list.contents(a0).update(p, value),
{
    let ids = list.ids@;
    assert forall|k: int|
        0 <= k < ids.len() implies 0 <= #[trigger] ids[k] < a1.num_slots() && a1.slot_live(
        ids[k],
    ) && a1.slot_prev(ids[k]) == prev_of(ids, k) && a1.slot_next(ids[k]) == next_of(ids, k) by {
        assert(a0.slot_live(ids[k]));
        assert(a0.slot_prev(ids[k]) == prev_of(ids, k));
        assert(a0.slot_next(ids[k]) == next_of(ids, k));
        if k != p {
            assert(ids[k] != ids[p]);
            assert(a1.slot(ids[k]) == a0.slot(ids[k]));
        }
    }
    assert(list.contents(a1) =~= list.contents(a0).update(p, value));
}

/// The addresses visited by following forward links from `link`, looking
/// at no more than `fuel` nodes.
pub closed spec fn forward_trail<T>(arena: Arena<T>, link: Option<int>, fuel: nat) -> Seq<int>
    decreases fuel,
{
    match link {
        None => Seq::empty(),
        Some(i) => if fuel == 0 {
            Seq::empty()
        } else {
            seq![i] + forward_trail(arena, arena.slot_next(i), (fuel - 1) as nat)
        },
    }
}

/// The addresses visited by following backward links from `link`, looking
/// at no more than `fuel` nodes.
pub closed spec fn backward_trail<T>(arena: Arena<T>, link: Option<int>, fuel: nat) -> Seq<int>
    decreases fuel,
{
    match link {
        None => Seq::empty(),
        Some(i) => if fuel == 0 {
            Seq::empty()
        } else {
            seq![i] + backward_trail(arena, arena.slot_prev(i), (fuel - 1) as nat)
        },
    }
}

/// The address of a list's head node, absent when the list is empty.
pub open spec fn head_of<T>(list: LinkedList<T>) -> Option<int> {
    if list.node_ids().len() == 0 {
        None
    } else {
        Some(list.node_ids().first())
    }
}

/// The address of a list's tail node, absent when the list is empty.
pub open spec fn tail_of<T>(list: LinkedList<T>) -> Option<int> {
    if list.node_ids().len() == 0 {
        None
    } else {
        Some(list.node_ids().last())
    }
}

/// Following forward links from position `k` of a well-linked chain
/// visits exactly the rest of the chain.
proof fn lemma_forward_trail_from<T>(arena: Arena<T>, ids: Seq<int>, k: int)
    requires
        chain_ok(arena, ids),
        0 <= k <= ids.len(),
    ensures
        forward_trail(
            arena,
            if k == ids.len() {
                None
            } else {
                Some(ids[k])
            },
            (ids.len() - k) as nat,
        ) == ids.skip(k),
    decreases ids.len() - k,
{
    if k == ids.len() {
        assert(ids.skip(k) =~= Seq::<int>::empty());
    } else {
        assert(arena.slot_next(ids[k]) == next_of(ids, k));
        lemma_forward_trail_from(arena, ids, k + 1);
        assert(ids.skip(k) =~= seq![ids[k]] + ids.skip(k + 1));
    }
}

/// Following backward links from position `k` of a well-linked chain
/// visits exactly the chain up to `k`, reversed.
proof fn lemma_backward_trail_from<T>(arena: Arena<T>, ids: Seq<int>, k: int)
    requires
        chain_ok(arena, ids),
        -1 <= k < ids.len(),
    ensures
        backward_trail(
            arena,
            if k == -1 {
                None
            } else {
                Some(ids[k])
            },
            (k + 1) as nat,
        ) == ids.take(k + 1).reverse(),
    decreases k + 1,
{
    if k == -1 {
        assert(ids.take(0).reverse() =~= Seq::<int>::empty());
    } else {
        assert(arena.slot_prev(ids[k]) == prev_of(ids, k));
        lemma_backward_trail_from(arena, ids, k - 1);
        assert(ids.take(k + 1).reverse() =~= seq![ids[k]] + ids.take(k).reverse());
    }
}

/// Forward traversal from the head of a well-formed list visits exactly
/// its chain, and reads exactly its values in order.
pub proof fn lemma_forward_traversal<T>(list: LinkedList<T>, arena: Arena<T>)
    requires
        list.wf(arena),
    ensures
        forward_trail(arena, head_of(list), list.node_ids().len()) == list.node_ids(),
        chain_values(arena, forward_trail(arena, head_of(list), list.node_ids().len()))
            == list.contents(arena),
{
    lemma_forward_trail_from(arena, list.node_ids(), 0);
    assert(list.node_ids().skip(0) =~= list.node_ids());
}

/// Backward traversal from the tail of a well-formed list visits exactly
/// its chain reversed, and reads exactly its values in reverse order.
pub proof fn lemma_backward_traversal<T>(list: LinkedList<T>, arena: Arena<T>)
    requires
        list.wf(arena),
    ensures
        backward_trail(arena, tail_of(list), list.node_ids().len()) == list.node_ids().reverse(),
        chain_values(arena, backward_trail(arena, tail_of(list), list.node_ids().len()))
            == list.contents(arena).reverse(),
{
    let ids = list.node_ids();
    let n = ids.len() as int;
    if n == 0 {
        assert(ids.reverse() =~= Seq::<int>::empty());
        assert(list.contents(arena).reverse() =~= Seq::<T>::empty());
    } else {
        lemma_backward_trail_from(arena, ids, n - 1);
        assert(ids.take(n) =~= ids);
    }
    assert(chain_values(arena, ids.reverse()) =~= list.contents(arena).reverse());
}

/// The traversal oracle: however a list was built, the number of nodes
/// reachable by forward traversal equals the number reachable by backward
/// traversal, and both equal the tracked length.
pub proof fn lemma_traversal_counts<T>(list: LinkedList<T>, arena: Arena<T>)
    requires
        list.wf(arena),
    ensures
        forward_trail(arena, head_of(list), list.node_ids().len()).len() == list.contents(
            arena,
        ).len(),
        backward_trail(arena, tail_of(list), list.node_ids().len()).len() == list.contents(
            arena,
        ).len(),
{
    lemma_forward_traversal(list, arena);
    lemma_backward_traversal(list, arena);
}

/// From any interior position, one step forward followed by one step
/// backward returns to the starting node: neighbouring links are inverse.
pub proof fn lemma_neighbour_links<T>(list: LinkedList<T>, arena: Arena<T>, k: int)
    requires
        list.wf(arena),
        0 <= k < list.node_ids().len() - 1,
    ensures
        arena.slot_next(list.node_ids()[k]) == Some(list.node_ids()[k + 1]),
        arena.slot_prev(list.node_ids()[k + 1]) == Some(list.node_ids()[k]),
{
    let ids = list.node_ids();
    assert(arena.slot_next(ids[k]) == next_of(ids, k));
    assert(arena.slot_prev(ids[k + 1]) == prev_of(ids, k + 1));
}

/// Values pushed at the back of a fresh list and then popped from the
/// front come out in their original insertion order.
pub fn fifo_order<T>(values: Vec<T>) -> (out: Vec<T>)
    ensures
        out@ == values@,
{
    let ghost vals = values@;
    let mut arena: Arena<T> = Arena::new();
    let mut list = LinkedList::from_iter(values, &mut arena);
    let mut out: Vec<T> = Vec::new();
    loop
        invariant_except_break
            list.wf(arena),
            out@ + list.contents(arena) == vals,
        ensures
            out@ == vals,
        decreases list.node_ids().len(),
    {
        match list.pop_front(&mut arena) {
            Some(value) => {
                out.push(value);
                proof {
                    assert(out@ + list.contents(arena) =~= vals);
                }
            },
            None => {
                proof {
                    assert(out@ =~= vals);
                }
                break;
            },
        }
    }
    out
}

/// Collecting a list's values and rebuilding a list from them by repeated
/// pushes reproduces an equivalent list — same values in the same order —
/// while the original list survives untouched and disjoint from the copy.
pub fn rebuild<T: Copy>(list: &LinkedList<T>, arena: &mut Arena<T>) -> (copy: LinkedList<T>)
    requires
        list.wf(*old(arena)),
    ensures
        list.wf(*final(arena)),
        list.contents(*final(arena)) == list.contents(*old(arena)),
        copy.wf(*final(arena)),
        copy.contents(*final(arena)) == list.contents(*old(arena)),
        list.disjoint(copy),
        copy.disjoint(*list),
{
    let ghost arena0 = *arena;
    let vals = list.to_vec(arena);
    let copy = LinkedList::from_iter(vals, arena);
    proof {
        assert forall|k: int|
            0 <= k < list.node_ids().len() implies arena.slot(#[trigger] list.node_ids()[k])
            == arena0.slot(list.node_ids()[k]) by {
            assert(0 <= list.node_ids()[k] < arena0.num_slots());
        }
        lemma_untouched(*list, arena0, *arena);
        assert forall|i: int|
            !(list.node_ids().contains(i) && #[trigger] copy.node_ids().contains(i)) by {
            if copy.node_ids().contains(i) {
                assert(arena0.num_slots() <= i);
                if list.node_ids().contains(i) {
                    let k = choose|k: int|
                        0 <= k < list.node_ids().len() && list.node_ids()[k] == i;
                    assert(0 <= list.node_ids()[k] < arena0.num_slots());
                }
            }
        }
        assert(list.disjoint(copy));
        lemma_disjoint_sym(*list, copy);
    }
    copy
}

} // verus!
