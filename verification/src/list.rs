//! The scheduler's doubly linked lists.
//!
//! Every list item and every list lives in a `ListArena` and is named by its
//! position there (`ItemLink`, `ListLink`).  A list is the ring
//! `end marker, items[0], ..., items[n - 1], end marker, ...`; its walking
//! index (`cursor`) is a position in `0..=n`, where `n` stands for the end
//! marker.  Each item remembers the list it is in (its container).
use vstd::prelude::*;
use crate::port::{TickType, UBaseType, PORT_MAX_DELAY};
use crate::task_control::TaskHandle;

verus! {

/// Name of a list item in a `ListArena`.
pub type ItemLink = usize;
/// Name of a list in a `ListArena`.
pub type ListLink = usize;

/// The only type of object that a list can contain.
#[derive(Clone, Copy, Debug)]
pub struct ListItem {
    /// The value being listed; sorted lists keep it in ascending order.
    pub item_value: TickType,
    /// The task that contains the item, if any.
    pub owner: Option<TaskHandle>,
    /// The list in which the item is placed, if any.
    pub container: Option<ListLink>,
}

impl Default for ListItem {
    /// A fresh item carries the largest value, which keeps it at the end of a sorted list.
    fn default() -> (item: Self)
        ensures
            item.item_value == PORT_MAX_DELAY,
            item.owner is None,
            item.container is None,
    {
        ListItem { item_value: PORT_MAX_DELAY, owner: None, container: None }
    }
}

impl ListItem {
    /// A fresh item with the given value.
    pub fn new(item_value: TickType) -> (item: Self)
        ensures
            item.item_value == item_value,
            item.owner is None,
            item.container is None,
    {
        ListItem { item_value, owner: None, container: None }
    }

    /// Marks the item as not being in any list.
    pub fn init(&mut self)
        ensures
            final(self).item_value == old(self).item_value,
            final(self).owner == old(self).owner,
            final(self).container is None,
    {
        self.container = None;
    }

    /// The same item with another value.
    pub fn item_value(self, item_value: TickType) -> (item: Self)
        ensures
            item == (ListItem { item_value, ..self }),
    {
        ListItem { item_value, ..self }
    }

    /// The same item with another owner.
    pub fn owner(self, owner: TaskHandle) -> (item: Self)
        ensures
            item == (ListItem { owner: Some(owner), ..self }),
    {
        ListItem { owner: Some(owner), ..self }
    }

    /// Records the list that the item is placed in.
    pub fn set_container(&mut self, container: ListLink)
        ensures
            *final(self) == (ListItem { container: Some(container), ..*old(self) }),
    {
        self.container = Some(container);
    }
}

/// The cursor of a list of `n` items after one step along the ring,
/// stepping over the end marker.
pub open spec fn next_cursor(c: nat, n: nat) -> nat {
    if c + 1 >= n { 0 } else { (c + 1) as nat }
}

/// The cursor after an item has been placed at position `p`.
pub open spec fn cursor_after_insert(c: nat, p: nat) -> nat {
    if p <= c { c + 1 } else { c }
}

/// The cursor after the item at position `r` has been taken out, leaving
/// `new_len` items; a cursor on the removed item moves back to its predecessor.
pub open spec fn cursor_after_remove(c: nat, r: nat, new_len: nat) -> nat {
    if c == r {
        if r == 0 { new_len } else { (r - 1) as nat }
    } else if r < c {
        (c - 1) as nat
    } else {
        c
    }
}

/// The ring of items of one list, with its walking index.
pub struct List {
    items: Vec<ItemLink>,
    index: usize,
    list_end: ListItem,
}

impl List {
    /// The items of the list, in ring order starting after the end marker.
    pub closed spec fn view(&self) -> Seq<ItemLink> {
        self.items@
    }

    /// The walking index: a position in `0..=len`, where `len` is the end marker.
    pub closed spec fn cursor(&self) -> nat {
        self.index as nat
    }

    /// The end marker; a fresh list's marker carries the largest possible value.
    pub closed spec fn end_marker(&self) -> ListItem {
        self.list_end
    }

    pub closed spec fn wf(&self) -> bool {
        self.index <= self.items.len()
    }

    /// The end marker of the list.
    pub fn list_end(&self) -> (item: ListItem)
        ensures
            item == self.end_marker(),
    {
        self.list_end
    }

    /// Mutable access to the end marker of the list.
    pub fn list_end_mut(&mut self) -> (item: &mut ListItem)
        ensures
            *item == old(self).end_marker(),
            final(self)@ == old(self)@,
            final(self).cursor() == old(self).cursor(),
            final(self).end_marker() == *final(item),
            final(self).wf() == old(self).wf(),
    {
        &mut self.list_end
    }

    /// An empty list whose index is its end marker.
    pub fn new() -> (list: Self)
        ensures
            list.wf(),
            list@ == Seq::<ItemLink>::empty(),
            list.cursor() == 0,
            list.end_marker().item_value == PORT_MAX_DELAY,
            list.end_marker().owner is None,
            list.end_marker().container is None,
    {
        List { items: Vec::new(), index: 0, list_end: ListItem::default() }
    }

    /// True when the list holds no item.
    pub fn is_empty(&self) -> (b: bool)
        ensures
            b == (self@.len() == 0),
    {
        self.items.len() == 0
    }

    /// The number of items in the list.
    pub fn get_length(&self) -> (n: UBaseType)
        ensures
            n == self@.len(),
    {
        self.items.len() as UBaseType
    }

    /// The position of `item` in the list, if it is there.
    pub fn position_of(&self, item: ItemLink) -> (pos: Option<usize>)
        ensures
            match pos {
                Some(p) => p < self@.len() && self@[p as int] == item
                    && forall|k: int| 0 <= k < p ==> self@[k] != item,
                None => !self@.contains(item),
            },
    {
        let mut k: usize = 0;
        while k < self.items.len()
            invariant
                k <= self.items.len(),
                forall|j: int| 0 <= j < k ==> self.items@[j] != item,
            decreases self.items.len() - k,
        {
            if self.items[k] == item {
                return Some(k);
            }
            k = k + 1;
        }
        None
    }

    /// Places `item` at position `pos`; the index keeps pointing at the same entry.
    pub fn insert_at(&mut self, pos: usize, item: ItemLink)
        requires
            old(self).wf(),
            pos <= old(self)@.len(),
            old(self)@.len() < usize::MAX,
        ensures
            final(self).wf(),
            final(self)@ == old(self)@.insert(pos as int, item),
            final(self).cursor() == cursor_after_insert(old(self).cursor(), pos as nat),
            final(self).end_marker() == old(self).end_marker(),
    {
        self.items.insert(pos, item);
        if pos <= self.index {
            self.index = self.index + 1;
        }
    }

    /// Places `item` just before the index, so that every other item is
    /// walked over before the index reaches it again.
    pub fn insert_end(&mut self, item: ItemLink)
        requires
            old(self).wf(),
            old(self)@.len() < usize::MAX,
        ensures
            final(self).wf(),
            final(self)@ == old(self)@.insert(old(self).cursor() as int, item),
            final(self).cursor() == old(self).cursor() + 1,
            final(self).end_marker() == old(self).end_marker(),
    {
        let pos = self.index;
        self.insert_at(pos, item);
    }

    /// Places `item` at the head of the list.
    pub fn push_front(&mut self, item: ItemLink)
        requires
            old(self).wf(),
            old(self)@.len() < usize::MAX,
        ensures
            final(self).wf(),
            final(self)@ == old(self)@.insert(0, item),
            final(self).cursor() == cursor_after_insert(old(self).cursor(), 0),
            final(self).end_marker() == old(self).end_marker(),
    {
        self.insert_at(0, item);
    }

    /// Takes out the item at position `pos`; returns the number of items left.
    pub fn remove_item(&mut self, pos: usize) -> (left: UBaseType)
        requires
            old(self).wf(),
            pos < old(self)@.len(),
        ensures
            final(self).wf(),
            final(self)@ == old(self)@.remove(pos as int),
            final(self).cursor() == cursor_after_remove(old(self).cursor(), pos as nat, final(self)@.len()),
            left == final(self)@.len(),
            final(self).end_marker() == old(self).end_marker(),
    {
        if self.index == pos {
            if pos == 0 {
                self.index = self.items.len() - 1;
            } else {
                self.index = pos - 1;
            }
        } else if pos < self.index {
            self.index = self.index - 1;
        }
        self.items.remove(pos);
        self.items.len() as UBaseType
    }

    /// Moves the index one step along the ring, stepping over the end marker.
    pub fn increment_index(&mut self)
        requires
            old(self).wf(),
        ensures
            final(self).wf(),
            final(self)@ == old(self)@,
            final(self).cursor() == next_cursor(old(self).cursor(), old(self)@.len()),
            final(self).end_marker() == old(self).end_marker(),
    {
        let n = self.items.len();
        if n == 0 || self.index >= n - 1 {
            self.index = 0;
        } else {
            self.index = self.index + 1;
        }
    }

    /// The item that the index points at (the index must not be on the end marker).
    pub fn item_at_index(&self) -> (item: ItemLink)
        requires
            self.wf(),
            self.cursor() < self@.len(),
        ensures
            item == self@[self.cursor() as int],
    {
        self.items[self.index]
    }

    /// The first item of the list.
    pub fn head(&self) -> (item: ItemLink)
        requires
            self@.len() > 0,
        ensures
            item == self@[0],
    {
        self.items[0]
    }

    /// The item at position `pos`.
    pub fn item_at(&self, pos: usize) -> (item: ItemLink)
        requires
            pos < self@.len(),
        ensures
            item == self@[pos as int],
    {
        self.items[pos]
    }
}

impl Default for List {
    /// An empty list, as `List::new` makes it.
    fn default() -> (list: Self)
        ensures
            list.wf(),
            list@ == Seq::<ItemLink>::empty(),
            list.cursor() == 0,
            list.end_marker().item_value == PORT_MAX_DELAY,
    {
        List::new()
    }
}

/// All list items and lists of one kernel.
pub struct ListArena {
    items: Vec<ListItem>,
    lists: Vec<List>,
}

impl ListArena {
    /// The list items, by `ItemLink`.
    pub closed spec fn items_view(&self) -> Seq<ListItem> {
        self.items@
    }

    /// The contents of the lists, by `ListLink`.
    pub closed spec fn lists_view(&self) -> Seq<Seq<ItemLink>> {
        Seq::new(self.lists@.len(), |l: int| self.lists@[l]@)
    }

    /// The walking indices of the lists, by `ListLink`.
    pub closed spec fn cursors(&self) -> Seq<nat> {
        Seq::new(self.lists@.len(), |l: int| self.lists@[l].cursor())
    }

    pub open spec fn item(&self, i: int) -> ListItem {
        self.items_view()[i]
    }

    pub open spec fn list(&self, l: int) -> Seq<ItemLink> {
        self.lists_view()[l]
    }

    pub open spec fn cursor(&self, l: int) -> nat {
        self.cursors()[l]
    }

    pub open spec fn num_items(&self) -> nat {
        self.items_view().len()
    }

    pub open spec fn num_lists(&self) -> nat {
        self.lists_view().len()
    }

    /// Item `i` is in list `l`.
    pub open spec fn contains(&self, l: int, i: int) -> bool {
        self.list(l).contains(i as ItemLink)
    }

    /// The arena's lists and the items' containers agree: an item is in a
    /// list exactly when it names that list as its container, and at most once.
    pub open spec fn wf(&self) -> bool {
        &&& self.num_items() <= usize::MAX
        &&& self.num_lists() <= usize::MAX
        &&& self.cursors().len() == self.lists_view().len()
        &&& forall|l: int| 0 <= l < self.num_lists() ==> #[trigger] self.cursor(l) <= self.list(l).len()
        &&& forall|l: int, k: int|
            0 <= l < self.num_lists() && 0 <= k < self.list(l).len() ==> {
                &&& (#[trigger] self.list(l)[k]) < self.num_items()
                &&& self.item(self.list(l)[k] as int).container == Some(l as ListLink)
            }
        &&& forall|l: int| 0 <= l < self.num_lists() ==> (#[trigger] self.list(l)).no_duplicates()
        &&& forall|i: int|
            0 <= i < self.num_items() && (#[trigger] self.item(i)).container is Some ==> {
                &&& (self.item(i).container->0 as int) < self.num_lists()
                &&& self.contains(self.item(i).container->0 as int, i)
            }
    }

    proof fn lemma_views(&self)
        ensures
            self.items_view().len() <= usize::MAX,
            self.lists_view().len() <= usize::MAX,
            self.lists_view().len() == self.lists@.len(),
            self.cursors().len() == self.lists@.len(),
            forall|l: int| 0 <= l < self.lists@.len() ==> #[trigger] self.lists_view()[l] == self.lists@[l]@,
            forall|l: int| 0 <= l < self.lists@.len() ==> #[trigger] self.cursors()[l] == self.lists@[l].cursor(),
    {
        assert(self.items@.len() == self.items.len());
        assert(self.lists@.len() == self.lists.len());
    }

    /// Every list is well formed on its own.
    proof fn lemma_lists_wf(&self)
        requires
            self.wf(),
        ensures
            forall|l: int| 0 <= l < self.lists@.len() ==> #[trigger] self.lists@[l].wf(),
    {
        assert forall|l: int| 0 <= l < self.lists@.len() implies #[trigger] self.lists@[l].wf() by {
            assert(self.cursor(l) <= self.list(l).len());
        }
    }

    /// The arena stays well formed when the lists are unchanged, every old
    /// item keeps its container and every new item is in no list.
    proof fn lemma_wf_frame(old_arena: &Self, new_arena: &Self)
        requires
            old_arena.wf(),
            new_arena.lists_view() == old_arena.lists_view(),
            new_arena.cursors() == old_arena.cursors(),
            new_arena.num_items() >= old_arena.num_items(),
            new_arena.num_items() <= usize::MAX,
            forall|i: int| 0 <= i < old_arena.num_items() ==>
                (#[trigger] new_arena.item(i)).container == old_arena.item(i).container,
            forall|i: int| old_arena.num_items() <= i < new_arena.num_items() ==>
                (#[trigger] new_arena.item(i)).container is None,
        ensures
            new_arena.wf(),
    {
        assert forall|l: int| 0 <= l < new_arena.num_lists() implies #[trigger] new_arena.cursor(l) <= new_arena.list(l).len() by {
            assert(old_arena.cursor(l) <= old_arena.list(l).len());
        }
        assert forall|l: int, k: int|
            0 <= l < new_arena.num_lists() && 0 <= k < new_arena.list(l).len() implies {
                &&& (#[trigger] new_arena.list(l)[k]) < new_arena.num_items()
                &&& new_arena.item(new_arena.list(l)[k] as int).container == Some(l as ListLink)
            } by {
            assert(old_arena.list(l)[k] < old_arena.num_items());
            assert(old_arena.item(old_arena.list(l)[k] as int).container == Some(l as ListLink));
        }
        assert forall|l: int| 0 <= l < new_arena.num_lists() implies (#[trigger] new_arena.list(l)).no_duplicates() by {
            assert(old_arena.list(l).no_duplicates());
        }
        assert forall|i: int|
            0 <= i < new_arena.num_items() && (#[trigger] new_arena.item(i)).container is Some implies {
                &&& (new_arena.item(i).container->0 as int) < new_arena.num_lists()
                &&& new_arena.contains(new_arena.item(i).container->0 as int, i)
            } by {
            assert(old_arena.item(i).container is Some);
            let c = old_arena.item(i).container->0 as int;
            assert(c < old_arena.num_lists());
            assert(old_arena.contains(c, i));
        }
    }

    /// The arena stays well formed when only walking indices move, each within its list.
    proof fn lemma_wf_cursor_change(old_arena: &Self, new_arena: &Self)
        requires
            old_arena.wf(),
            new_arena.lists_view() == old_arena.lists_view(),
            new_arena.items_view() == old_arena.items_view(),
            new_arena.cursors().len() == old_arena.cursors().len(),
            forall|l: int| 0 <= l < new_arena.num_lists() ==> #[trigger] new_arena.cursor(l) <= new_arena.list(l).len(),
        ensures
            new_arena.wf(),
    {
        assert forall|l: int, k: int|
            0 <= l < new_arena.num_lists() && 0 <= k < new_arena.list(l).len() implies {
                &&& (#[trigger] new_arena.list(l)[k]) < new_arena.num_items()
                &&& new_arena.item(new_arena.list(l)[k] as int).container == Some(l as ListLink)
            } by {
            assert(old_arena.list(l)[k] < old_arena.num_items());
        }
        assert forall|l: int| 0 <= l < new_arena.num_lists() implies (#[trigger] new_arena.list(l)).no_duplicates() by {
            assert(old_arena.list(l).no_duplicates());
        }
        assert forall|i: int|
            0 <= i < new_arena.num_items() && (#[trigger] new_arena.item(i)).container is Some implies {
                &&& (new_arena.item(i).container->0 as int) < new_arena.num_lists()
                &&& new_arena.contains(new_arena.item(i).container->0 as int, i)
            } by {
            assert(old_arena.item(i) == new_arena.item(i));
        }
    }

    /// A list holds fewer items than the arena, so its length and index stay below `usize::MAX`.
    pub proof fn lemma_list_len_bound(&self, l: int)
        requires
            self.wf(),
            0 <= l < self.num_lists(),
        ensures
            self.list(l).len() <= self.num_items(),
    {
        let s = self.list(l);
        assert(s.no_duplicates());
        s.unique_seq_to_set();
        let r = vstd::set_lib::set_int_range(0, self.num_items() as int);
        let ss = s.to_set().map(|x: ItemLink| x as int);
        assert forall|x: int| ss.contains(x) implies r.contains(x) by {
            let y = choose|y: ItemLink| s.to_set().contains(y) && y as int == x;
            let k = choose|k: int| 0 <= k < s.len() && s[k] == y;
            assert(s[k] < self.num_items());
        }
        vstd::set_lib::lemma_int_range(0, self.num_items() as int);
        assert(ss.subset_of(r));
        vstd::set_lib::lemma_len_subset(ss, r);
        let f = |x: ItemLink| x as int;
        assert(vstd::relations::injective_on(f, s.to_set()));
        vstd::set_lib::lemma_map_size(s.to_set(), ss, f);
    }

    /// The values of the items of list `l`, in list order.
    pub open spec fn list_values(&self, l: int) -> Seq<TickType> {
        self.list(l).map_values(|x: ItemLink| self.item(x as int).item_value)
    }

    /// A list that does not hold item `i < num_items` has fewer items than the arena.
    pub proof fn lemma_list_len_lt(&self, l: int, i: int)
        requires
            self.wf(),
            0 <= l < self.num_lists(),
            0 <= i < self.num_items(),
            !self.contains(l, i),
        ensures
            self.list(l).len() < self.num_items(),
    {
        let s = self.list(l);
        assert(s.no_duplicates());
        s.unique_seq_to_set();
        let r = vstd::set_lib::set_int_range(0, self.num_items() as int).remove(i);
        let ss = s.to_set().map(|x: ItemLink| x as int);
        assert forall|x: int| ss.contains(x) implies r.contains(x) by {
            let y = choose|y: ItemLink| s.to_set().contains(y) && y as int == x;
            let k = choose|k: int| 0 <= k < s.len() && s[k] == y;
            assert(s[k] < self.num_items());
            if x == i {
                assert(s.contains(i as ItemLink));
            }
        }
        vstd::set_lib::lemma_int_range(0, self.num_items() as int);
        assert(ss.subset_of(r));
        vstd::set_lib::lemma_len_subset(ss, r);
        let f = |x: ItemLink| x as int;
        assert(vstd::relations::injective_on(f, s.to_set()));
        vstd::set_lib::lemma_map_size(s.to_set(), ss, f);
    }

    /// An item in no list is in none of the arena's lists.
    pub proof fn lemma_free_item_in_no_list(&self, i: int)
        requires
            self.wf(),
            0 <= i < self.num_items(),
            self.item(i).container is None,
        ensures
            forall|l: int| 0 <= l < self.num_lists() ==> !#[trigger] self.contains(l, i),
    {
        assert forall|l: int| 0 <= l < self.num_lists() implies !#[trigger] self.contains(l, i) by {
            if self.contains(l, i) {
                let k = choose|k: int| 0 <= k < self.list(l).len() && self.list(l)[k] == i as ItemLink;
                assert(self.item(self.list(l)[k] as int).container == Some(l as ListLink));
            }
        }
    }

    /// An item whose container is `l` sits in list `l` at exactly one position.
    pub proof fn lemma_contained_item(&self, i: int)
        requires
            self.wf(),
            0 <= i < self.num_items(),
            self.item(i).container is Some,
        ensures
            ({
                let l = self.item(i).container->0 as int;
                &&& 0 <= l < self.num_lists()
                &&& self.contains(l, i)
                &&& forall|l2: int| 0 <= l2 < self.num_lists() && l2 != l ==> !#[trigger] self.contains(l2, i)
            }),
    {
        let l = self.item(i).container->0 as int;
        assert forall|l2: int| 0 <= l2 < self.num_lists() && l2 != l implies !#[trigger] self.contains(l2, i) by {
            if self.contains(l2, i) {
                let k = choose|k: int| 0 <= k < self.list(l2).len() && self.list(l2)[k] == i as ItemLink;
                assert(self.item(self.list(l2)[k] as int).container == Some(l2 as ListLink));
            }
        }
    }

    proof fn lemma_wf_after_insert(old_a: &Self, new_a: &Self, l: int, p: int, i: int, new_cursor: nat)
        requires
            old_a.wf(),
            0 <= l < old_a.num_lists(),
            0 <= i < old_a.num_items(),
            old_a.item(i).container is None,
            0 <= p <= old_a.list(l).len(),
            new_a.items_view() == old_a.items_view().update(i, ListItem { container: Some(l as ListLink), ..old_a.item(i) }),
            new_a.lists_view() == old_a.lists_view().update(l, old_a.list(l).insert(p, i as ItemLink)),
            new_a.cursors() == old_a.cursors().update(l, new_cursor),
            new_cursor <= old_a.list(l).len() + 1,
        ensures
            new_a.wf(),
    {
        old_a.lemma_free_item_in_no_list(i);
        lemma_seq_insert(old_a.list(l), p, i as ItemLink);
        assert(!old_a.contains(l, i));
        lemma_insert_no_duplicates(old_a.list(l), p, i as ItemLink);
        assert forall|l2: int| 0 <= l2 < new_a.num_lists() implies #[trigger] new_a.cursor(l2) <= new_a.list(l2).len() by {
            if l2 != l { assert(old_a.cursor(l2) <= old_a.list(l2).len()); }
        }
        assert forall|l2: int, k: int|
            0 <= l2 < new_a.num_lists() && 0 <= k < new_a.list(l2).len() implies {
                &&& (#[trigger] new_a.list(l2)[k]) < new_a.num_items()
                &&& new_a.item(new_a.list(l2)[k] as int).container == Some(l2 as ListLink)
            } by {
            if l2 != l {
                assert(old_a.list(l2)[k] < old_a.num_items());
                assert(old_a.item(old_a.list(l2)[k] as int).container == Some(l2 as ListLink));
                assert(old_a.list(l2)[k] != i as ItemLink);
            } else if k == p {
            } else {
                let ok = if k < p { k } else { k - 1 };
                assert(new_a.list(l)[k] == old_a.list(l)[ok]);
                assert(old_a.list(l)[ok] < old_a.num_items());
                assert(old_a.item(old_a.list(l)[ok] as int).container == Some(l as ListLink));
                assert(old_a.list(l)[ok] != i as ItemLink);
            }
        }
        assert forall|l2: int| 0 <= l2 < new_a.num_lists() implies (#[trigger] new_a.list(l2)).no_duplicates() by {
            if l2 != l { assert(old_a.list(l2).no_duplicates()); }
        }
        assert forall|j: int|
            0 <= j < new_a.num_items() && (#[trigger] new_a.item(j)).container is Some implies {
                &&& (new_a.item(j).container->0 as int) < new_a.num_lists()
                &&& new_a.contains(new_a.item(j).container->0 as int, j)
            } by {
            if j != i {
                assert(old_a.item(j) == new_a.item(j));
                let c = old_a.item(j).container->0 as int;
                assert(old_a.contains(c, j));
                if c == l {
                    assert(old_a.list(l).contains(j as ItemLink));
                }
            } else {
                assert(new_a.list(l)[p] == i as ItemLink);
            }
        }
    }

    proof fn lemma_wf_after_remove(old_a: &Self, new_a: &Self, l: int, r: int, new_cursor: nat)
        requires
            old_a.wf(),
            0 <= l < old_a.num_lists(),
            0 <= r < old_a.list(l).len(),
            new_a.items_view() == old_a.items_view().update(
                old_a.list(l)[r] as int,
                ListItem { container: None, ..old_a.item(old_a.list(l)[r] as int) },
            ),
            new_a.lists_view() == old_a.lists_view().update(l, old_a.list(l).remove(r)),
            new_a.cursors() == old_a.cursors().update(l, new_cursor),
            new_cursor <= old_a.list(l).len() - 1,
        ensures
            new_a.wf(),
    {
        let i = old_a.list(l)[r] as int;
        assert(old_a.list(l).no_duplicates());
        lemma_seq_remove(old_a.list(l), r);
        assert(old_a.list(l)[r] < old_a.num_items());
        old_a.lemma_contained_item(i);
        assert forall|l2: int| 0 <= l2 < new_a.num_lists() implies #[trigger] new_a.cursor(l2) <= new_a.list(l2).len() by {
            if l2 != l { assert(old_a.cursor(l2) <= old_a.list(l2).len()); }
        }
        assert forall|l2: int, k: int|
            0 <= l2 < new_a.num_lists() && 0 <= k < new_a.list(l2).len() implies {
                &&& (#[trigger] new_a.list(l2)[k]) < new_a.num_items()
                &&& new_a.item(new_a.list(l2)[k] as int).container == Some(l2 as ListLink)
            } by {
            if l2 != l {
                assert(old_a.list(l2)[k] < old_a.num_items());
                assert(old_a.item(old_a.list(l2)[k] as int).container == Some(l2 as ListLink));
                assert(old_a.list(l2).contains(old_a.list(l2)[k]));
                assert(old_a.list(l2)[k] != i as ItemLink);
            } else {
                let ok = if k < r { k } else { k + 1 };
                assert(new_a.list(l)[k] == old_a.list(l)[ok]);
                assert(old_a.list(l)[ok] < old_a.num_items());
                assert(old_a.item(old_a.list(l)[ok] as int).container == Some(l as ListLink));
                assert(old_a.list(l)[ok] != i as ItemLink);
            }
        }
        assert forall|l2: int| 0 <= l2 < new_a.num_lists() implies (#[trigger] new_a.list(l2)).no_duplicates() by {
            if l2 != l { assert(old_a.list(l2).no_duplicates()); }
        }
        assert forall|j: int|
            0 <= j < new_a.num_items() && (#[trigger] new_a.item(j)).container is Some implies {
                &&& (new_a.item(j).container->0 as int) < new_a.num_lists()
                &&& new_a.contains(new_a.item(j).container->0 as int, j)
            } by {
            assert(j != i);
            assert(old_a.item(j) == new_a.item(j));
            let c = old_a.item(j).container->0 as int;
            assert(old_a.contains(c, j));
            if c == l {
                assert(old_a.list(l).contains(j as ItemLink));
                assert(j as ItemLink != old_a.list(l)[r]);
            }
        }
    }

    /// An arena with no item and no list.
    pub fn new() -> (arena: Self)
        ensures
            arena.wf(),
            arena.items_view() == Seq::<ListItem>::empty(),
            arena.lists_view() == Seq::<Seq<ItemLink>>::empty(),
    {
        let arena = ListArena { items: Vec::new(), lists: Vec::new() };
        assert(arena.lists_view() =~= Seq::<Seq<ItemLink>>::empty());
        arena
    }

    /// Adds an empty list whose index is its end marker; returns its name.
    pub fn create_list(&mut self) -> (l: ListLink)
        requires
            old(self).wf(),
        ensures
            final(self).wf(),
            l == old(self).num_lists(),
            final(self).items_view() == old(self).items_view(),
            final(self).lists_view() == old(self).lists_view().push(Seq::<ItemLink>::empty()),
            final(self).cursors() == old(self).cursors().push(0),
    {
        proof { self.lemma_views(); }
        let l = self.lists.len();
        self.lists.push(List::new());
        proof {
            self.lemma_views();
            assert(self.lists_view() =~= old(self).lists_view().push(Seq::<ItemLink>::empty()));
            assert(self.cursors() =~= old(self).cursors().push(0));
            assert forall|l: int| 0 <= l < self.num_lists() implies #[trigger] self.cursor(l) <= self.list(l).len() by {
                if l < old(self).num_lists() { assert(old(self).cursor(l) <= old(self).list(l).len()); }
            }
            assert forall|l: int, k: int|
                0 <= l < self.num_lists() && 0 <= k < self.list(l).len() implies {
                    &&& (#[trigger] self.list(l)[k]) < self.num_items()
                    &&& self.item(self.list(l)[k] as int).container == Some(l as ListLink)
                } by {
                assert(l < old(self).num_lists());
                assert(old(self).list(l)[k] < old(self).num_items());
            }
            assert forall|l: int| 0 <= l < self.num_lists() implies (#[trigger] self.list(l)).no_duplicates() by {
                if l < old(self).num_lists() { assert(old(self).list(l).no_duplicates()); }
            }
            assert forall|i: int|
                0 <= i < self.num_items() && (#[trigger] self.item(i)).container is Some implies {
                    &&& (self.item(i).container->0 as int) < self.num_lists()
                    &&& self.contains(self.item(i).container->0 as int, i)
                } by {
                assert(old(self).item(i) == self.item(i));
                let c = self.item(i).container->0 as int;
                assert(old(self).contains(c, i));
                assert(self.list(c) == old(self).list(c));
            }
        }
        l
    }

    /// Adds an item that is in no list; returns its name.
    pub fn create_item(&mut self, item: ListItem) -> (i: ItemLink)
        requires
            old(self).wf(),
            item.container is None,
        ensures
            final(self).wf(),
            i == old(self).num_items(),
            final(self).items_view() == old(self).items_view().push(item),
            final(self).lists_view() == old(self).lists_view(),
            final(self).cursors() == old(self).cursors(),
    {
        proof { self.lemma_views(); }
        let i = self.items.len();
        self.items.push(item);
        proof {
            self.lemma_views();
            assert(self.lists_view() =~= old(self).lists_view());
            assert(self.cursors() =~= old(self).cursors());
            Self::lemma_wf_frame(old(self), self);
        }
        i
    }

    /// Places item `i`, which is in no list, at position `pos` of list `l`.
    fn place_item(&mut self, l: ListLink, pos: usize, i: ItemLink)
        requires
            old(self).wf(),
            l < old(self).num_lists(),
            i < old(self).num_items(),
            old(self).item(i as int).container is None,
            pos <= old(self).list(l as int).len(),
        ensures
            final(self).wf(),
            final(self).items_view() == old(self).items_view().update(
                i as int,
                ListItem { container: Some(l), ..old(self).item(i as int) },
            ),
            final(self).lists_view() == old(self).lists_view().update(
                l as int,
                old(self).list(l as int).insert(pos as int, i),
            ),
            final(self).cursors() == old(self).cursors().update(
                l as int,
                cursor_after_insert(old(self).cursor(l as int), pos as nat),
            ),
    {
        proof {
            self.lemma_views();
            self.lemma_lists_wf();
            self.lemma_free_item_in_no_list(i as int);
            self.lemma_list_len_lt(l as int, i as int);
        }
        self.lists[l].insert_at(pos, i);
        let mut it = self.items[i];
        it.container = Some(l);
        self.items.set(i, it);
        proof {
            self.lemma_views();
            assert(self.lists_view() =~= old(self).lists_view().update(
                l as int,
                old(self).list(l as int).insert(pos as int, i),
            ));
            assert(self.cursors() =~= old(self).cursors().update(
                l as int,
                cursor_after_insert(old(self).cursor(l as int), pos as nat),
            ));
            assert(self.items_view() =~= old(self).items_view().update(
                i as int,
                ListItem { container: Some(l), ..old(self).item(i as int) },
            ));
            Self::lemma_wf_after_insert(
                old(self),
                self,
                l as int,
                pos as int,
                i as int,
                cursor_after_insert(old(self).cursor(l as int), pos as nat),
            );
        }
    }

    /// Takes the item at position `pos` out of list `l`; returns the number of items left.
    fn take_item(&mut self, l: ListLink, pos: usize) -> (left: UBaseType)
        requires
            old(self).wf(),
            l < old(self).num_lists(),
            pos < old(self).list(l as int).len(),
        ensures
            final(self).wf(),
            final(self).items_view() == old(self).items_view().update(
                old(self).list(l as int)[pos as int] as int,
                ListItem { container: None, ..old(self).item(old(self).list(l as int)[pos as int] as int) },
            ),
            final(self).lists_view() == old(self).lists_view().update(
                l as int,
                old(self).list(l as int).remove(pos as int),
            ),
            final(self).cursors() == old(self).cursors().update(
                l as int,
                cursor_after_remove(old(self).cursor(l as int), pos as nat, (old(self).list(l as int).len() - 1) as nat),
            ),
            left == old(self).list(l as int).len() - 1,
    {
        proof {
            self.lemma_views();
            self.lemma_lists_wf();
        }
        let i = self.lists[l].item_at(pos);
        let left = self.lists[l].remove_item(pos);
        let mut it = self.items[i];
        it.container = None;
        self.items.set(i, it);
        proof {
            self.lemma_views();
            let new_len = (old(self).list(l as int).len() - 1) as nat;
            assert(self.lists_view() =~= old(self).lists_view().update(
                l as int,
                old(self).list(l as int).remove(pos as int),
            ));
            assert(self.cursors() =~= old(self).cursors().update(
                l as int,
                cursor_after_remove(old(self).cursor(l as int), pos as nat, new_len),
            ));
            assert(self.items_view() =~= old(self).items_view().update(
                i as int,
                ListItem { container: None, ..old(self).item(i as int) },
            ));
            Self::lemma_wf_after_remove(
                old(self),
                self,
                l as int,
                pos as int,
                cursor_after_remove(old(self).cursor(l as int), pos as nat, new_len),
            );
        }
        left
    }

    /// The number of items in the arena.
    pub fn item_count(&self) -> (n: usize)
        ensures
            n == self.num_items(),
    {
        self.items.len()
    }

    /// The number of lists in the arena.
    pub fn list_count(&self) -> (n: usize)
        ensures
            n == self.num_lists(),
    {
        proof { self.lemma_views(); }
        self.lists.len()
    }

    /// The item named `i`.
    pub fn get_item(&self, i: ItemLink) -> (item: ListItem)
        requires
            i < self.num_items(),
        ensures
            item == self.item(i as int),
    {
        self.items[i]
    }

    /// The first item of list `l`.
    pub fn list_head(&self, l: ListLink) -> (i: ItemLink)
        requires
            l < self.num_lists(),
            self.list(l as int).len() > 0,
        ensures
            i == self.list(l as int)[0],
    {
        proof { self.lemma_views(); }
        self.lists[l].head()
    }

    /// The item at position `pos` of list `l`.
    pub fn list_item_at(&self, l: ListLink, pos: usize) -> (i: ItemLink)
        requires
            l < self.num_lists(),
            pos < self.list(l as int).len(),
        ensures
            i == self.list(l as int)[pos as int],
    {
        proof { self.lemma_views(); }
        self.lists[l].item_at(pos)
    }

    /// Changes the value of item `i`; no list is reordered.
    pub fn set_value(&mut self, i: ItemLink, item_value: TickType)
        requires
            old(self).wf(),
            i < old(self).num_items(),
        ensures
            final(self).wf(),
            final(self).items_view() == old(self).items_view().update(
                i as int,
                ListItem { item_value, ..old(self).item(i as int) },
            ),
            final(self).lists_view() == old(self).lists_view(),
            final(self).cursors() == old(self).cursors(),
    {
        proof { self.lemma_views(); }
        let mut it = self.items[i];
        it.item_value = item_value;
        self.items.set(i, it);
        proof {
            self.lemma_views();
            assert(self.lists_view() =~= old(self).lists_view());
            assert(self.cursors() =~= old(self).cursors());
            Self::lemma_wf_frame(old(self), self);
        }
    }

    /// Changes the owner of item `i`; no list changes.
    pub fn set_owner(&mut self, i: ItemLink, owner: TaskHandle)
        requires
            old(self).wf(),
            i < old(self).num_items(),
        ensures
            final(self).wf(),
            final(self).items_view() == old(self).items_view().update(
                i as int,
                ListItem { owner: Some(owner), ..old(self).item(i as int) },
            ),
            final(self).lists_view() == old(self).lists_view(),
            final(self).cursors() == old(self).cursors(),
    {
        proof { self.lemma_views(); }
        let mut it = self.items[i];
        it.owner = Some(owner);
        self.items.set(i, it);
        proof {
            self.lemma_views();
            assert(self.lists_view() =~= old(self).lists_view());
            assert(self.cursors() =~= old(self).cursors());
            Self::lemma_wf_frame(old(self), self);
        }
    }
}


/// The position at which a sorted insertion of value `v` places its item in a
/// list whose values are `vals`: after every value `<= v`, before the first greater one.
pub open spec fn sorted_position(vals: Seq<TickType>, p: int, v: TickType) -> bool {
    &&& 0 <= p <= vals.len()
    &&& forall|k: int| 0 <= k < p ==> #[trigger] vals[k] <= v
    &&& p < vals.len() ==> vals[p] > v
}

/// The number of leading values of `vals` that are not greater than `v`:
/// where a sorted insertion of `v` goes.
pub open spec fn insert_position(vals: Seq<TickType>, v: TickType) -> nat
    decreases vals.len(),
{
    if vals.len() == 0 || vals[0] > v {
        0
    } else {
        1 + insert_position(vals.drop_first(), v)
    }
}

/// `insert_position` is the one position that `sorted_position` describes.
pub proof fn lemma_insert_position(vals: Seq<TickType>, p: int, v: TickType)
    requires
        sorted_position(vals, p, v),
    ensures
        p == insert_position(vals, v),
    decreases vals.len(),
{
    if vals.len() == 0 {
    } else if vals[0] > v {
        if p > 0 {
            assert(vals[0] <= v);
        }
    } else {
        assert(p > 0);
        let rest = vals.drop_first();
        assert forall|k: int| 0 <= k < p - 1 implies #[trigger] rest[k] <= v by {
            assert(vals[k + 1] <= v);
        }
        if p - 1 < rest.len() {
            assert(rest[p - 1] == vals[p]);
        }
        lemma_insert_position(rest, p - 1, v);
    }
}

/// Inserts a list item into a list, in a position determined by its value:
/// after every item whose value is not greater, before the first greater one.
/// The walking index keeps pointing at the same entry.
pub fn list_insert(arena: &mut ListArena, list: ListLink, item: ItemLink)
    requires
        old(arena).wf(),
        list < old(arena).num_lists(),
        item < old(arena).num_items(),
        old(arena).item(item as int).container is None,
    ensures
        final(arena).wf(),
        final(arena).items_view() == old(arena).items_view().update(
            item as int,
            ListItem { container: Some(list), ..old(arena).item(item as int) },
        ),
        ({
            let p = insert_position(old(arena).list_values(list as int), old(arena).item(item as int).item_value);
            &&& p <= old(arena).list(list as int).len()
            &&& final(arena).lists_view() == old(arena).lists_view().update(
                list as int,
                old(arena).list(list as int).insert(p as int, item),
            )
            &&& final(arena).cursors() == old(arena).cursors().update(
                list as int,
                cursor_after_insert(old(arena).cursor(list as int), p),
            )
        }),
{
    let ghost old_arena = *arena;
    let value = arena.items[item].item_value;
    proof { arena.lemma_views(); }
    let len = arena.lists[list].items.len();
    let mut k: usize = 0;
    while k < len
        invariant
            arena.wf(),
            *arena == old_arena,
            list < arena.num_lists(),
            item < arena.num_items(),
            len == arena.list(list as int).len(),
            value == arena.item(item as int).item_value,
            k <= len,
            forall|j: int| 0 <= j < k ==> #[trigger] arena.list_values(list as int)[j] <= value,
        ensures
            k <= len,
            forall|j: int| 0 <= j < k ==> #[trigger] arena.list_values(list as int)[j] <= value,
            k < len ==> arena.list_values(list as int)[k as int] > value,
        decreases len - k,
    {
        proof { arena.lemma_views(); }
        let x = arena.lists[list].items[k];
        proof {
            assert(x < arena.num_items());
            assert(arena.list_values(list as int)[k as int] == arena.item(x as int).item_value);
        }
        if arena.items[x].item_value > value {
            break;
        }
        k = k + 1;
    }
    proof {
        arena.lemma_views();
        assert(sorted_position(old_arena.list_values(list as int), k as int, value));
        lemma_insert_position(old_arena.list_values(list as int), k as int, value);
    }
    arena.place_item(list, k, item);
}

/// Inserts a list item into a list just before its walking index, so that
/// every other item is returned by `get_owner_of_next_entry` before the
/// index reaches the new one.
pub fn list_insert_end(arena: &mut ListArena, list: ListLink, item: ItemLink)
    requires
        old(arena).wf(),
        list < old(arena).num_lists(),
        item < old(arena).num_items(),
        old(arena).item(item as int).container is None,
    ensures
        final(arena).wf(),
        final(arena).items_view() == old(arena).items_view().update(
            item as int,
            ListItem { container: Some(list), ..old(arena).item(item as int) },
        ),
        final(arena).lists_view() == old(arena).lists_view().update(
            list as int,
            old(arena).list(list as int).insert(old(arena).cursor(list as int) as int, item),
        ),
        final(arena).cursors() == old(arena).cursors().update(
            list as int,
            old(arena).cursor(list as int) + 1,
        ),
{
    proof {
        arena.lemma_views();
        arena.lemma_lists_wf();
        assert(arena.lists@[list as int].wf());
    }
    let pos = arena.lists[list].index;
    arena.place_item(list, pos, item);
}

/// Removes an item from the list that it is in; returns the number of items
/// that remain in that list.
pub fn list_remove(arena: &mut ListArena, item: ItemLink) -> (left: UBaseType)
    requires
        old(arena).wf(),
        item < old(arena).num_items(),
        old(arena).item(item as int).container is Some,
    ensures
        final(arena).wf(),
        ({
            let l = old(arena).item(item as int).container->0 as int;
            let r = old(arena).list(l).index_of(item);
            &&& 0 <= r < old(arena).list(l).len()
            &&& old(arena).list(l)[r] == item
            &&& final(arena).lists_view() == old(arena).lists_view().update(l, old(arena).list(l).remove(r))
            &&& final(arena).cursors() == old(arena).cursors().update(
                l,
                cursor_after_remove(old(arena).cursor(l), r as nat, (old(arena).list(l).len() - 1) as nat),
            )
        }),
        final(arena).items_view() == old(arena).items_view().update(
            item as int,
            ListItem { container: None, ..old(arena).item(item as int) },
        ),
        left == old(arena).list(old(arena).item(item as int).container->0 as int).len() - 1,
{
    proof { arena.lemma_views(); arena.lemma_contained_item(item as int); }
    let l = arena.items[item].container.unwrap();
    let pos = arena.lists[l].position_of(item);
    let r = pos.unwrap();
    proof {
        let s = arena.list(l as int);
        assert(s[r as int] == item);
        let q = s.index_of(item);
        assert(0 <= q < s.len() && s[q] == item);
        assert(s.no_duplicates());
        assert(q == r);
    }
    arena.take_item(l, r)
}

/// The value of a list item.
pub fn get_list_item_value(arena: &ListArena, item: ItemLink) -> (v: TickType)
    requires
        item < arena.num_items(),
    ensures
        v == arena.item(item as int).item_value,
{
    arena.items[item].item_value
}

/// Sets the value of a list item; the list that holds it is not reordered.
pub fn set_list_item_value(arena: &mut ListArena, item: ItemLink, item_value: TickType)
    requires
        old(arena).wf(),
        item < old(arena).num_items(),
    ensures
        final(arena).wf(),
        final(arena).items_view() == old(arena).items_view().update(
            item as int,
            ListItem { item_value, ..old(arena).item(item as int) },
        ),
        final(arena).lists_view() == old(arena).lists_view(),
        final(arena).cursors() == old(arena).cursors(),
{
    arena.set_value(item, item_value);
}

/// The list that a list item is in, if any.
pub fn get_list_item_container(arena: &ListArena, item: ItemLink) -> (c: Option<ListLink>)
    requires
        item < arena.num_items(),
    ensures
        c == arena.item(item as int).container,
{
    arena.items[item].container
}

/// True when the list holds no item.
pub fn list_is_empty(arena: &ListArena, list: ListLink) -> (b: bool)
    requires
        list < arena.num_lists(),
    ensures
        b == (arena.list(list as int).len() == 0),
{
    proof { arena.lemma_views(); }
    arena.lists[list].is_empty()
}

/// The number of items in the list.
pub fn current_list_length(arena: &ListArena, list: ListLink) -> (n: UBaseType)
    requires
        list < arena.num_lists(),
    ensures
        n == arena.list(list as int).len(),
{
    proof { arena.lemma_views(); }
    arena.lists[list].get_length()
}

/// The task that contains a list item.
pub fn get_list_item_owner(arena: &ListArena, item: ItemLink) -> (owner: TaskHandle)
    requires
        item < arena.num_items(),
        arena.item(item as int).owner is Some,
    ensures
        Some(owner) == arena.item(item as int).owner,
{
    arena.items[item].owner.unwrap()
}

/// Sets the task that contains a list item.
pub fn set_list_item_owner(arena: &mut ListArena, item: ItemLink, owner: TaskHandle)
    requires
        old(arena).wf(),
        item < old(arena).num_items(),
    ensures
        final(arena).wf(),
        final(arena).items_view() == old(arena).items_view().update(
            item as int,
            ListItem { owner: Some(owner), ..old(arena).item(item as int) },
        ),
        final(arena).lists_view() == old(arena).lists_view(),
        final(arena).cursors() == old(arena).cursors(),
{
    arena.set_owner(item, owner);
}

/// Moves the list's walking index to the next item (stepping over the end
/// marker) and returns the owner of that item.  Calling it repeatedly walks
/// through every item of the list in turn.
pub fn get_owner_of_next_entry(arena: &mut ListArena, list: ListLink) -> (owner: TaskHandle)
    requires
        old(arena).wf(),
        list < old(arena).num_lists(),
        old(arena).list(list as int).len() > 0,
        old(arena).item(
            old(arena).list(list as int)[next_cursor(old(arena).cursor(list as int), old(arena).list(list as int).len()) as int] as int,
        ).owner is Some,
    ensures
        final(arena).wf(),
        final(arena).items_view() == old(arena).items_view(),
        final(arena).lists_view() == old(arena).lists_view(),
        final(arena).cursors() == old(arena).cursors().update(
            list as int,
            next_cursor(old(arena).cursor(list as int), old(arena).list(list as int).len()),
        ),
        Some(owner) == old(arena).item(
            old(arena).list(list as int)[next_cursor(old(arena).cursor(list as int), old(arena).list(list as int).len()) as int] as int,
        ).owner,
{
    proof { arena.lemma_views(); arena.lemma_lists_wf(); }
    arena.lists[list].increment_index();
    let i = arena.lists[list].item_at_index();
    proof {
        arena.lemma_views();
        assert(arena.lists_view() =~= old(arena).lists_view());
        assert(arena.cursors() =~= old(arena).cursors().update(
            list as int,
            next_cursor(old(arena).cursor(list as int), old(arena).list(list as int).len()),
        ));
        assert(arena.list(list as int)[arena.cursor(list as int) as int] < arena.num_items());
        assert forall|l: int| 0 <= l < arena.num_lists() implies #[trigger] arena.cursor(l) <= arena.list(l).len() by {
            if l != list as int {
                assert(old(arena).cursor(l) <= old(arena).list(l).len());
            } else {
                assert(arena.lists@[l].wf());
            }
        }
        ListArena::lemma_wf_cursor_change(old(arena), arena);
    }
    arena.items[i].owner.unwrap()
}

/// The owner of the first item of the list.
pub fn get_owner_of_head_entry(arena: &ListArena, list: ListLink) -> (owner: TaskHandle)
    requires
        arena.wf(),
        list < arena.num_lists(),
        arena.list(list as int).len() > 0,
        arena.item(arena.list(list as int)[0] as int).owner is Some,
    ensures
        Some(owner) == arena.item(arena.list(list as int)[0] as int).owner,
{
    let i = arena.list_head(list);
    proof { assert(arena.list(list as int)[0] < arena.num_items()); }
    arena.items[i].owner.unwrap()
}

/// True when the list item is in the given list.
pub fn is_contained_within(arena: &ListArena, list: ListLink, item: ItemLink) -> (b: bool)
    requires
        arena.wf(),
        list < arena.num_lists(),
        item < arena.num_items(),
    ensures
        b == (arena.item(item as int).container == Some(list)),
        b == arena.contains(list as int, item as int),
{
    proof {
        if arena.item(item as int).container is Some {
            arena.lemma_contained_item(item as int);
        } else {
            arena.lemma_free_item_in_no_list(item as int);
        }
    }
    match arena.items[item].container {
        Some(c) => c == list,
        None => false,
    }
}

/// Values in ascending order.
pub open spec fn ascending(vals: Seq<TickType>) -> bool {
    forall|i: int, j: int| 0 <= i <= j < vals.len() ==> #[trigger] vals[i] <= #[trigger] vals[j]
}

/// `insert_position` is where a sorted insertion goes.
pub proof fn lemma_insert_position_sorted(vals: Seq<TickType>, v: TickType)
    ensures
        sorted_position(vals, insert_position(vals, v) as int, v),
    decreases vals.len(),
{
    if vals.len() == 0 || vals[0] > v {
    } else {
        let rest = vals.drop_first();
        lemma_insert_position_sorted(rest, v);
        let p = insert_position(vals, v) as int;
        assert forall|k: int| 0 <= k < p implies #[trigger] vals[k] <= v by {
            if k > 0 {
                assert(vals[k] == rest[k - 1]);
            }
        }
        if p < vals.len() {
            assert(vals[p] == rest[p - 1]);
        }
    }
}

/// Sorted insertion keeps values in ascending order.
pub proof fn lemma_sorted_insert_ascending(vals: Seq<TickType>, v: TickType)
    requires
        ascending(vals),
    ensures
        ascending(vals.insert(insert_position(vals, v) as int, v)),
{
    let p = insert_position(vals, v) as int;
    lemma_insert_position_sorted(vals, v);
    let w = vals.insert(p, v);
    assert forall|i: int, j: int| 0 <= i <= j < w.len() implies #[trigger] w[i] <= #[trigger] w[j] by {
        if j < p {
            assert(w[i] == vals[i] && w[j] == vals[j]);
        } else if j == p {
            if i < p {
                assert(w[i] == vals[i]);
            }
        } else {
            assert(w[j] == vals[j - 1]);
            assert(vals[p] > v);
            assert(vals[p] <= vals[j - 1]);
            if i < p {
                assert(w[i] == vals[i]);
                assert(vals[i] <= v);
            } else if i > p {
                assert(w[i] == vals[i - 1]);
            }
        }
    }
}

/// Removing a value keeps ascending values ascending.
pub proof fn lemma_ascending_remove(vals: Seq<TickType>, r: int)
    requires
        ascending(vals),
        0 <= r < vals.len(),
    ensures
        ascending(vals.remove(r)),
{
    let w = vals.remove(r);
    assert forall|i: int, j: int| 0 <= i <= j < w.len() implies #[trigger] w[i] <= #[trigger] w[j] by {
        let i0 = if i < r { i } else { i + 1 };
        let j0 = if j < r { j } else { j + 1 };
        assert(w[i] == vals[i0]);
        assert(w[j] == vals[j0]);
    }
}

/// `list_insert` keeps a list in ascending order of values: a list whose
/// values ascend before the insertion still ascends after it.
pub proof fn lemma_list_insert_keeps_order(before: &ListArena, after: &ListArena, list: int, item: int)
    requires
        before.wf(),
        0 <= list < before.num_lists(),
        0 <= item < before.num_items(),
        before.item(item).container is None,
        ascending(before.list_values(list)),
        after.items_view() == before.items_view().update(
            item,
            ListItem { container: Some(list as ListLink), ..before.item(item) },
        ),
        after.lists_view() == before.lists_view().update(
            list,
            before.list(list).insert(
                insert_position(before.list_values(list), before.item(item).item_value) as int,
                item as ItemLink,
            ),
        ),
    ensures
        ascending(after.list_values(list)),
{
    let v = before.item(item).item_value;
    let vals = before.list_values(list);
    let p = insert_position(vals, v) as int;
    lemma_insert_position_sorted(vals, v);
    lemma_sorted_insert_ascending(vals, v);
    let s = before.list(list);
    assert forall|k: int| 0 <= k < s.len() implies #[trigger] s[k] < before.num_items() by {}
    assert(after.list_values(list) =~= vals.insert(p, v)) by {
        assert forall|k: int| 0 <= k < after.list(list).len() implies
            #[trigger] after.list_values(list)[k] == vals.insert(p, v)[k] by {
            if k < p {
                assert(after.list(list)[k] == s[k]);
            } else if k > p {
                assert(after.list(list)[k] == s[k - 1]);
            }
        }
    }
}

/// `list_insert_end` followed by `list_remove` of the same item gives back
/// the arena as it was: the lists, the walking indices and the items.
pub proof fn lemma_insert_end_then_remove(a0: &ListArena, a1: &ListArena, a2: &ListArena, list: int, item: int)
    requires
        a0.wf(),
        0 <= list < a0.num_lists(),
        0 <= item < a0.num_items(),
        a0.item(item).container is None,
        a1.items_view() == a0.items_view().update(item, ListItem { container: Some(list as ListLink), ..a0.item(item) }),
        a1.lists_view() == a0.lists_view().update(list, a0.list(list).insert(a0.cursor(list) as int, item as ItemLink)),
        a1.cursors() == a0.cursors().update(list, a0.cursor(list) + 1),
        a2.items_view() == a1.items_view().update(item, ListItem { container: None, ..a1.item(item) }),
        a2.lists_view() == a1.lists_view().update(list, a1.list(list).remove(a1.list(list).index_of(item as ItemLink))),
        a2.cursors() == a1.cursors().update(
            list,
            cursor_after_remove(a1.cursor(list), a1.list(list).index_of(item as ItemLink) as nat, (a1.list(list).len() - 1) as nat),
        ),
    ensures
        a2.items_view() == a0.items_view(),
        a2.lists_view() == a0.lists_view(),
        a2.cursors() == a0.cursors(),
{
    let s = a0.list(list);
    let c = a0.cursor(list) as int;
    a0.lemma_free_item_in_no_list(item);
    assert(!s.contains(item as ItemLink));
    assert(c <= s.len());
    lemma_insert_removed(s, c, item as ItemLink);
    assert(a2.items_view() =~= a0.items_view());
    assert(a2.lists_view() =~= a0.lists_view());
    assert(a2.cursors() =~= a0.cursors());
}

/// `list_insert` followed by `list_remove` of the same item gives back the
/// arena as it was.
pub proof fn lemma_insert_then_remove(a0: &ListArena, a1: &ListArena, a2: &ListArena, list: int, item: int)
    requires
        a0.wf(),
        0 <= list < a0.num_lists(),
        0 <= item < a0.num_items(),
        a0.item(item).container is None,
        ({
            let p = insert_position(a0.list_values(list), a0.item(item).item_value);
            &&& a1.items_view() == a0.items_view().update(item, ListItem { container: Some(list as ListLink), ..a0.item(item) })
            &&& a1.lists_view() == a0.lists_view().update(list, a0.list(list).insert(p as int, item as ItemLink))
            &&& a1.cursors() == a0.cursors().update(list, cursor_after_insert(a0.cursor(list), p))
        }),
        a2.items_view() == a1.items_view().update(item, ListItem { container: None, ..a1.item(item) }),
        a2.lists_view() == a1.lists_view().update(list, a1.list(list).remove(a1.list(list).index_of(item as ItemLink))),
        a2.cursors() == a1.cursors().update(
            list,
            cursor_after_remove(a1.cursor(list), a1.list(list).index_of(item as ItemLink) as nat, (a1.list(list).len() - 1) as nat),
        ),
    ensures
        a2.items_view() == a0.items_view(),
        a2.lists_view() == a0.lists_view(),
        a2.cursors() == a0.cursors(),
{
    let s = a0.list(list);
    let p = insert_position(a0.list_values(list), a0.item(item).item_value) as int;
    lemma_insert_position_sorted(a0.list_values(list), a0.item(item).item_value);
    a0.lemma_free_item_in_no_list(item);
    assert(!s.contains(item as ItemLink));
    lemma_insert_removed(s, p, item as ItemLink);
    assert(a2.items_view() =~= a0.items_view());
    assert(a2.lists_view() =~= a0.lists_view());
    assert(a2.cursors() =~= a0.cursors());
}

/// Removing an item just inserted at `p` into a list that did not hold it
/// gives back the list.
proof fn lemma_insert_removed(s: Seq<ItemLink>, p: int, x: ItemLink)
    requires
        0 <= p <= s.len(),
        !s.contains(x),
    ensures
        s.insert(p, x).index_of(x) == p,
        s.insert(p, x).remove(p) == s,
{
    let t = s.insert(p, x);
    assert(t[p] == x);
    let q = t.index_of(x);
    assert(0 <= q < t.len() && t[q] == x);
    if q < p {
        assert(s[q] == x);
    } else if q > p {
        assert(s[q - 1] == x);
    }
    assert(t.remove(p) =~= s);
}

/// The walking index after `k` steps from `c` in a list of `n` items.
pub open spec fn cursor_after_steps(c: nat, n: nat, k: nat) -> nat
    decreases k,
{
    if k == 0 { c } else { next_cursor(cursor_after_steps(c, n, (k - 1) as nat), n) }
}

/// Position `j` comes up within `n` steps of a walk from `c`.
pub open spec fn visited_within(c: nat, n: nat, j: nat) -> bool {
    exists|k: nat| 1 <= k <= n && #[trigger] cursor_after_steps(c, n, k) == j
}

/// Walking a list of `n` items with `get_owner_of_next_entry` from an item
/// visits every item in turn: within `n` steps each position comes up, and
/// the `n`-th step is back where the walk started.
pub proof fn lemma_round_robin(c: nat, n: nat)
    requires
        c < n,
    ensures
        cursor_after_steps(c, n, n) == c,
        forall|j: nat| j < n ==> #[trigger] visited_within(c, n, j),
{
    assert forall|k: nat| #[trigger] cursor_after_steps(c, n, k) == ((c + k) as int) % (n as int) by {
        lemma_steps_mod(c, n, k);
    }
    assert(((c + n) as int) % (n as int) == c) by {
        vstd::arithmetic::div_mod::lemma_mod_add_multiples_vanish(c as int, n as int);
        vstd::arithmetic::div_mod::lemma_small_mod(c, n);
    }
    assert forall|j: nat| j < n implies #[trigger] visited_within(c, n, j) by {
        let k: nat = if j > c { (j - c) as nat } else { (j + n - c) as nat };
        if j > c {
            vstd::arithmetic::div_mod::lemma_small_mod(j, n);
        } else {
            vstd::arithmetic::div_mod::lemma_mod_add_multiples_vanish(j as int, n as int);
            vstd::arithmetic::div_mod::lemma_small_mod(j, n);
        }
        assert(cursor_after_steps(c, n, k) == j);
    }
}

proof fn lemma_steps_mod(c: nat, n: nat, k: nat)
    requires
        c < n,
    ensures
        cursor_after_steps(c, n, k) == ((c + k) as int) % (n as int),
    decreases k,
{
    if k == 0 {
        vstd::arithmetic::div_mod::lemma_small_mod(c, n);
    } else {
        lemma_steps_mod(c, n, (k - 1) as nat);
        let x = c + k - 1;
        let y = x % (n as int);
        vstd::arithmetic::div_mod::lemma_mod_bound(x, n as int);
        vstd::arithmetic::div_mod::lemma_add_mod_noop(x, 1, n as int);
        if n == 1 {
            assert(1int % 1 == 0);
        } else {
            assert(1int % (n as int) == 1) by { vstd::arithmetic::div_mod::lemma_small_mod(1, n); }
        }
        if y + 1 >= n {
            assert(y + 1 == n);
            vstd::arithmetic::div_mod::lemma_mod_self_0(n as int);
        } else {
            vstd::arithmetic::div_mod::lemma_small_mod((y + 1) as nat, n);
        }
    }
}

/// Index facts about `s.insert(p, x)`.
pub proof fn lemma_seq_insert<A>(s: Seq<A>, p: int, x: A)
    requires
        0 <= p <= s.len(),
    ensures
        s.insert(p, x).len() == s.len() + 1,
        s.insert(p, x)[p] == x,
        forall|k: int| 0 <= k < p ==> #[trigger] s.insert(p, x)[k] == s[k],
        forall|k: int| p < k <= s.len() ==> #[trigger] s.insert(p, x)[k] == s[k - 1],
        forall|y: A| #[trigger] s.insert(p, x).contains(y) <==> (y == x || s.contains(y)),
{
    s.insert_ensures(p, x);
    assert forall|k: int| p < k <= s.len() implies #[trigger] s.insert(p, x)[k] == s[k - 1] by {
        assert(s.insert(p, x)[(k - 1) + 1] == s[k - 1]);
    }
    assert forall|y: A| #[trigger] s.insert(p, x).contains(y) implies (y == x || s.contains(y)) by {
        let k = choose|k: int| 0 <= k < s.insert(p, x).len() && s.insert(p, x)[k] == y;
        if k < p {
            assert(s[k] == y);
        } else if k > p {
            assert(s[k - 1] == y);
        }
    }
    assert forall|y: A| (y == x || s.contains(y)) implies #[trigger] s.insert(p, x).contains(y) by {
        if y == x {
            assert(s.insert(p, x)[p] == y);
        } else {
            let k = choose|k: int| 0 <= k < s.len() && s[k] == y;
            if k < p {
                assert(s.insert(p, x)[k] == y);
            } else {
                assert(s.insert(p, x)[k + 1] == y);
            }
        }
    }
}

/// Index facts about `s.remove(r)`.
pub proof fn lemma_seq_remove<A>(s: Seq<A>, r: int)
    requires
        0 <= r < s.len(),
    ensures
        s.remove(r).len() == s.len() - 1,
        forall|k: int| 0 <= k < r ==> #[trigger] s.remove(r)[k] == s[k],
        forall|k: int| r <= k < s.len() - 1 ==> #[trigger] s.remove(r)[k] == s[k + 1],
        forall|y: A| #[trigger] s.remove(r).contains(y) ==> s.contains(y),
        s.no_duplicates() ==> s.remove(r).no_duplicates(),
        s.no_duplicates() ==> !s.remove(r).contains(s[r]),
        s.no_duplicates() ==> forall|y: A| s.contains(y) && y != s[r] ==> #[trigger] s.remove(r).contains(y),
{
    s.remove_ensures(r);
    let t = s.remove(r);
    assert forall|y: A| #[trigger] t.contains(y) implies s.contains(y) by {
        let k = choose|k: int| 0 <= k < t.len() && t[k] == y;
        if k < r {
            assert(s[k] == y);
        } else {
            assert(s[k + 1] == y);
        }
    }
    if s.no_duplicates() {
        assert forall|i: int, j: int| 0 <= i < t.len() && 0 <= j < t.len() && i != j implies t[i] != t[j] by {
            let oi = if i < r { i } else { i + 1 };
            let oj = if j < r { j } else { j + 1 };
            assert(t[i] == s[oi]);
            assert(t[j] == s[oj]);
        }
        if t.contains(s[r]) {
            let k = choose|k: int| 0 <= k < t.len() && t[k] == s[r];
            let ok = if k < r { k } else { k + 1 };
            assert(t[k] == s[ok]);
        }
        assert forall|y: A| s.contains(y) && y != s[r] implies #[trigger] t.contains(y) by {
            let k = choose|k: int| 0 <= k < s.len() && s[k] == y;
            if k < r {
                assert(t[k] == y);
            } else {
                assert(k != r);
                assert(t[k - 1] == y);
            }
        }
    }
}

/// Inserting an element that is not there keeps a sequence free of duplicates.
pub proof fn lemma_insert_no_duplicates<A>(s: Seq<A>, p: int, x: A)
    requires
        0 <= p <= s.len(),
        s.no_duplicates(),
        !s.contains(x),
    ensures
        s.insert(p, x).no_duplicates(),
{
    lemma_seq_insert(s, p, x);
    let t = s.insert(p, x);
    assert forall|i: int, j: int| 0 <= i < t.len() && 0 <= j < t.len() && i != j implies t[i] != t[j] by {
        if i == p {
            let oj = if j < p { j } else { j - 1 };
            assert(t[j] == s[oj]);
        } else if j == p {
            let oi = if i < p { i } else { i - 1 };
            assert(t[i] == s[oi]);
        } else {
            let oi = if i < p { i } else { i - 1 };
            let oj = if j < p { j } else { j - 1 };
            assert(t[i] == s[oi]);
            assert(t[j] == s[oj]);
        }
    }
}

} // verus!
