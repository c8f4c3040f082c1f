//! Lists kept in vectors: items carry a 16-bit value and the name of the list
//! they belong to.  Items are found again by their value.
use vstd::prelude::*;
use crate::list::{insert_position, lemma_insert_position, sorted_position};

verus! {

/// The names of the lists.
#[derive(Debug, Clone, Copy, PartialEq, Eq, Structural)]
pub enum ListName {
    LIST0,
    LIST1,
    LIST2,
    LIST3,
    LIST4,
}

/// An item of a list: its value and the list it belongs to.
#[derive(Debug, Clone, Copy, PartialEq, Eq, Structural)]
pub struct ListItem {
    pub item_value: u16,
    pub container: Option<ListName>,
}

impl ListItem {
    /// A fresh item with the given value, in no list.
    pub fn new(item_value: u16) -> (item: Self)
        ensures
            item.item_value == item_value,
            item.container is None,
    {
        ListItem { item_value, container: None }
    }
}

/// The values of the items, widened to tick values.
pub open spec fn values(s: Seq<ListItem>) -> Seq<u32> {
    s.map_values(|x: ListItem| x.item_value as u32)
}

/// The position of the first item whose value is `v` (the length when none is).
pub open spec fn first_eq(s: Seq<ListItem>, v: u16) -> nat
    decreases s.len(),
{
    if s.len() == 0 || s[0].item_value == v {
        0
    } else {
        1 + first_eq(s.drop_first(), v)
    }
}

/// `first_eq` is the one position before which no value is `v`, and at
/// which (unless at the end) the value is `v`.
pub proof fn lemma_first_eq(s: Seq<ListItem>, p: int, v: u16)
    requires
        0 <= p <= s.len(),
        forall|k: int| 0 <= k < p ==> #[trigger] s[k].item_value != v,
        p < s.len() ==> s[p].item_value == v,
    ensures
        p == first_eq(s, v),
    decreases s.len(),
{
    if s.len() == 0 {
    } else if s[0].item_value == v {
        if p > 0 {
            assert(s[0].item_value != v);
        }
    } else {
        let rest = s.drop_first();
        if p == 0 {
            assert(s[0].item_value == v);
        }
        assert forall|k: int| 0 <= k < p - 1 implies #[trigger] rest[k].item_value != v by {
            assert(s[k + 1].item_value != v);
        }
        if p - 1 < rest.len() {
            assert(rest[p - 1] == s[p]);
        }
        lemma_first_eq(rest, p - 1, v);
    }
}

/// The position of the first item with the same value as `item`, if any.
pub fn get_item_index_eq(list: &Vec<ListItem>, item: &ListItem) -> (index: Option<usize>)
    ensures
        first_eq(list@, item.item_value) <= list@.len(),
        index == (if first_eq(list@, item.item_value) < list@.len() {
            Some(first_eq(list@, item.item_value) as usize)
        } else {
            None::<usize>
        }),
{
    let mut k: usize = 0;
    while k < list.len()
        invariant
            k <= list@.len(),
            forall|j: int| 0 <= j < k ==> #[trigger] list@[j].item_value != item.item_value,
        decreases list@.len() - k,
    {
        if list[k].item_value == item.item_value {
            proof { lemma_first_eq(list@, k as int, item.item_value); }
            return Some(k);
        }
        k = k + 1;
    }
    proof { lemma_first_eq(list@, k as int, item.item_value); }
    None
}

/// The position of the first item whose value is greater than `item`'s, if any.
pub fn get_item_index_gt(list: &Vec<ListItem>, item: &ListItem) -> (index: Option<usize>)
    ensures
        insert_position(values(list@), item.item_value as u32) <= list@.len(),
        index == (if insert_position(values(list@), item.item_value as u32) < list@.len() {
            Some(insert_position(values(list@), item.item_value as u32) as usize)
        } else {
            None::<usize>
        }),
{
    let mut k: usize = 0;
    while k < list.len()
        invariant
            k <= list@.len(),
            forall|j: int| 0 <= j < k ==> #[trigger] values(list@)[j] <= item.item_value as u32,
        decreases list@.len() - k,
    {
        if list[k].item_value > item.item_value {
            proof {
                assert(sorted_position(values(list@), k as int, item.item_value as u32));
                lemma_insert_position(values(list@), k as int, item.item_value as u32);
            }
            return Some(k);
        }
        k = k + 1;
    }
    proof {
        assert(sorted_position(values(list@), k as int, item.item_value as u32));
        lemma_insert_position(values(list@), k as int, item.item_value as u32);
    }
    None
}

/// Appends `item` to the list.
pub fn list_insert_end(list: &mut Vec<ListItem>, item: &ListItem)
    ensures
        final(list)@ == old(list)@.push(*item),
{
    list.push(*item);
}

/// Inserts `item` before the first item whose value is greater, or at the
/// end when there is none, so that a list in ascending order stays so.
pub fn list_insert(list: &mut Vec<ListItem>, item: &ListItem)
    ensures
        final(list)@ == old(list)@.insert(insert_position(values(old(list)@), item.item_value as u32) as int, *item),
{
    let index = get_item_index_gt(list, item);
    match index {
        Some(i) => list.insert(i, *item),
        None => {
            list.push(*item);
            proof {
                assert(old(list)@.push(*item) =~= old(list)@.insert(old(list)@.len() as int, *item));
            }
        },
    }
}

/// Records the list that the item belongs to.
pub fn set_list_item_container(item: &mut ListItem, name: ListName)
    ensures
        *final(item) == (ListItem { container: Some(name), ..*old(item) }),
{
    item.container = Some(name);
}

/// The list that the item belongs to.
pub fn get_list_item_container(item: &ListItem) -> (c: Option<ListName>)
    ensures
        c == item.container,
{
    item.container
}

/// Removes and returns the first item with the same value as `item`, which
/// must be there.
pub fn list_remove(list: &mut Vec<ListItem>, item: &ListItem) -> (removed: ListItem)
    requires
        first_eq(old(list)@, item.item_value) < old(list)@.len(),
    ensures
        removed == old(list)@[first_eq(old(list)@, item.item_value) as int],
        removed.item_value == item.item_value,
        final(list)@ == old(list)@.remove(first_eq(old(list)@, item.item_value) as int),
{
    let index = get_item_index_eq(list, item);
    let i = index.unwrap();
    proof {
        lemma_first_eq_value(old(list)@, item.item_value);
    }
    list.remove(i)
}

/// The item at `first_eq` has the value looked for.
pub proof fn lemma_first_eq_value(s: Seq<ListItem>, v: u16)
    requires
        first_eq(s, v) < s.len(),
    ensures
        s[first_eq(s, v) as int].item_value == v,
    decreases s.len(),
{
    if s.len() == 0 || s[0].item_value == v {
    } else {
        lemma_first_eq_value(s.drop_first(), v);
    }
}

/// Marks the item as in no list.
pub fn list_initialise_item(item: &mut ListItem)
    ensures
        *final(item) == (ListItem { container: None, ..*old(item) }),
{
    item.container = None;
}

/// Empties the list.
pub fn list_initialise(list: &mut Vec<ListItem>)
    ensures
        final(list)@ == Seq::<ListItem>::empty(),
{
    list.clear();
}

/// Whether an item with the same value as `item` is in the list.
pub fn is_contained_within(list: &Vec<ListItem>, item: &ListItem) -> (b: bool)
    ensures
        b == (first_eq(list@, item.item_value) < list@.len()),
        b == exists|k: int| 0 <= k < list@.len() && #[trigger] list@[k].item_value == item.item_value,
{
    let index = get_item_index_eq(list, item);
    proof {
        if first_eq(list@, item.item_value) < list@.len() {
            lemma_first_eq_value(list@, item.item_value);
        } else {
            lemma_first_eq_none(list@, item.item_value);
        }
    }
    index.is_some()
}

/// When `first_eq` is the length, no item has the value.
pub proof fn lemma_first_eq_none(s: Seq<ListItem>, v: u16)
    requires
        first_eq(s, v) >= s.len(),
    ensures
        forall|k: int| 0 <= k < s.len() ==> #[trigger] s[k].item_value != v,
    decreases s.len(),
{
    if s.len() > 0 {
        lemma_first_eq_none(s.drop_first(), v);
        assert forall|k: int| 0 <= k < s.len() implies #[trigger] s[k].item_value != v by {
            if k > 0 {
                assert(s.drop_first()[k - 1] == s[k]);
            }
        }
    }
}

/// Whether the list is empty.
pub fn list_is_empty(list: &Vec<ListItem>) -> (b: bool)
    ensures
        b == (list@.len() == 0),
{
    list.len() == 0
}

/// The number of items in the list.
pub fn current_list_length(list: &Vec<ListItem>) -> (n: usize)
    ensures
        n == list@.len(),
{
    list.len()
}

/// The item after the first one with the same value as `item`, going round
/// from the last item to the first.
pub fn get_next(list: &Vec<ListItem>, item: &ListItem) -> (next: ListItem)
    requires
        first_eq(list@, item.item_value) < list@.len(),
    ensures
        next == list@[((first_eq(list@, item.item_value) + 1) as int) % (list@.len() as int)],
{
    let index = get_item_index_eq(list, item);
    let i = index.unwrap();
    let n = list.len();
    list[(i + 1) % n]
}

/// Sets the value of an item.
pub fn set_list_item_value(item: &mut ListItem, value: u16)
    ensures
        *final(item) == (ListItem { item_value: value, ..*old(item) }),
{
    item.item_value = value;
}

/// The value of an item.
pub fn get_list_item_value(item: &ListItem) -> (v: u16)
    ensures
        v == item.item_value,
{
    item.item_value
}

/// The value of the first item, which must be there.
pub fn get_item_value_of_head_entry(list: &Vec<ListItem>) -> (v: u16)
    requires
        list@.len() > 0,
    ensures
        v == list@[0].item_value,
{
    list[0].item_value
}

/// `list_insert` keeps a list's values in ascending order.
pub proof fn lemma_list_insert_keeps_order(s: Seq<ListItem>, item: ListItem)
    requires
        crate::list::ascending(values(s)),
    ensures
        crate::list::ascending(values(s.insert(insert_position(values(s), item.item_value as u32) as int, item))),
{
    let p = insert_position(values(s), item.item_value as u32) as int;
    crate::list::lemma_insert_position_sorted(values(s), item.item_value as u32);
    crate::list::lemma_sorted_insert_ascending(values(s), item.item_value as u32);
    assert(values(s.insert(p, item)) =~= values(s).insert(p, item.item_value as u32));
}

/// Removing an item just appended gives back the list, when no other item
/// has its value.
pub proof fn lemma_insert_end_then_remove(s: Seq<ListItem>, item: ListItem)
    requires
        forall|k: int| 0 <= k < s.len() ==> #[trigger] s[k].item_value != item.item_value,
    ensures
        first_eq(s.push(item), item.item_value) == s.len(),
        s.push(item).remove(s.len() as int) == s,
{
    let t = s.push(item);
    assert forall|k: int| 0 <= k < s.len() implies #[trigger] t[k].item_value != item.item_value by {
        assert(t[k] == s[k]);
    }
    lemma_first_eq(t, s.len() as int, item.item_value);
    assert(t.remove(s.len() as int) =~= s);
}

} // verus!
