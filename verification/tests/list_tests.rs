use rust_freertos::list::{List, ListItem};
use rust_freertos::named_list::{
    self, ListName, current_list_length, get_item_value_of_head_entry, get_list_item_container,
    get_list_item_value, get_next, is_contained_within, list_initialise, list_initialise_item, list_insert,
    list_insert_end, list_is_empty, list_remove, set_list_item_container, set_list_item_value,
};
use rust_freertos::port::PORT_MAX_DELAY;

#[test]
fn test_new() {
    let mut list = List::new();
    let _list_item = ListItem::new(23);
    assert_eq!(list.list_end().container.is_none(), true);
    assert_eq!(list.list_end().item_value, PORT_MAX_DELAY);
    list.list_end_mut().item_value = 111;
    assert_eq!(list.list_end().item_value, 111);
}

#[test]
fn test_enum() {
    assert_eq!(ListName::LIST0 as u32, 0);
}

#[test]
fn test_list() {
    let list = vec![1, 2, 3];
    let sec = list[1];
    assert_eq!(sec, 2);
}

#[test]
fn test_cycle() {
    let mut list: Vec<named_list::ListItem> = vec![];
    assert_eq!(list_is_empty(&list), true);
    let mut item1 = named_list::ListItem::new(111);
    let mut item2 = named_list::ListItem::new(222);
    assert_eq!(item2.container.is_none(), true);
    let mut item3 = named_list::ListItem::new(333);
    item1.container = Some(ListName::LIST0);
    set_list_item_container(&mut item2, ListName::LIST2);
    println!("{:?}", item2.container);
    let con = get_list_item_container(&item1);
    assert_eq!(item1.item_value, 111);
    set_list_item_value(&mut item1, 1111);
    set_list_item_value(&mut item1, 2222);
    assert_eq!(item1.item_value, 2222);
    println!("{:?}", con);
    set_list_item_container(&mut item1, ListName::LIST2);
    let con = get_list_item_container(&item1);
    println!("{:?}", con);

    list.push(item1);
    list.push(item2);
    list.push(item3);
    assert_eq!(get_item_value_of_head_entry(&list), 2222);
    let next_item = get_next(&list, &item1);
    assert_eq!(next_item.item_value, 222);
    assert_eq!(list[0].item_value, 2222);
    assert_eq!(list[1].item_value, 222);
    assert_eq!(list[2].item_value, 333);
    assert_eq!(current_list_length(&list), 3);

    assert_eq!(is_contained_within(&list, &item3), true);
    list_initialise_item(&mut item3);
    assert_eq!(item3.container.is_none(), true);
    let item4 = named_list::ListItem::new(444);
    list_insert_end(&mut list, &item4);
    assert_eq!(current_list_length(&list), 4);
    list_remove(&mut list, &item3);
    assert_eq!(list[0].item_value, 2222);
    assert_eq!(list[1].item_value, 222);
    assert_eq!(list[2].item_value, 444);
    set_list_item_value(&mut list[0], 100);

    let item5 = named_list::ListItem::new(111);
    list_insert(&mut list, &item5);
    assert_eq!(list[0].item_value, 100);
    assert_eq!(list[1].item_value, 111);
    assert_eq!(list[2].item_value, 222);
    assert_eq!(list[3].item_value, 444);
}

#[test]
fn test_macros() {
    let list: Vec<named_list::ListItem> = vec![];
    assert!(list_is_empty(&list));
}

#[test]
fn test_basic() {
    let item = named_list::ListItem::new(100);
    let list1: Vec<named_list::ListItem> = vec![];
    let mut list = vec![list1];
    let list1 = &mut list[0];
    list_insert_end(list1, &item);
    assert_eq!(list1[0].item_value, 100);
}

#[test]
fn test_some_macros() {
    let mut item1 = named_list::ListItem::new(100);
    let item2 = named_list::ListItem::new(200);
    let item3 = named_list::ListItem::new(300);
    let item4 = named_list::ListItem::new(400);
    let list1: Vec<named_list::ListItem> = vec![];
    let mut list = vec![list1];
    let list1 = &mut list[0];

    assert_eq!(list_is_empty(list1), true);

    set_list_item_container(&mut item1, ListName::LIST0);
    assert_eq!(0, item1.container.unwrap() as i32);

    list_insert_end(list1, &item1);
    list_insert_end(list1, &item3);
    list_insert(list1, &item2);
    list_insert(list1, &item4);
    assert_eq!(list1[0].item_value, 100);
    set_list_item_container(&mut item1, ListName::LIST0);
    assert_eq!(list1[1].item_value, 200);
    set_list_item_container(&mut item1, ListName::LIST0);
    assert_eq!(list1[2].item_value, 300);
    set_list_item_container(&mut item1, ListName::LIST0);
    assert_eq!(list1[3].item_value, 400);

    list_remove(list1, &item3);
    assert_eq!(list1[0].item_value, 100);
    assert_eq!(list1[1].item_value, 200);
    assert_eq!(list1[2].item_value, 400);

    assert_eq!(get_item_value_of_head_entry(list1), 100);
    assert_eq!(get_list_item_value(&item2), 200);

    let item = get_next(list1, &item4);
    assert_eq!(get_list_item_value(&item), 100);
}

#[test]
fn named_list_initialise_empties() {
    let mut list = vec![named_list::ListItem::new(5), named_list::ListItem::new(7)];
    list_initialise(&mut list);
    assert!(list_is_empty(&list));
    assert!(!is_contained_within(&list, &named_list::ListItem::new(5)));
}

#[test]
fn named_list_insert_keeps_equal_values_in_arrival_order() {
    let mut list = vec![];
    let mut a = named_list::ListItem::new(10);
    set_list_item_container(&mut a, ListName::LIST1);
    list_insert(&mut list, &a);
    list_insert(&mut list, &named_list::ListItem::new(5));
    list_insert(&mut list, &named_list::ListItem::new(10));
    list_insert(&mut list, &named_list::ListItem::new(20));
    let vals: Vec<u16> = list.iter().map(|x| x.item_value).collect();
    assert_eq!(vals, vec![5, 10, 10, 20]);
    assert_eq!(list[1].container, Some(ListName::LIST1));
    assert_eq!(list[2].container, None);
}

use rust_freertos::list::{
    current_list_length as arena_length, get_owner_of_head_entry, get_owner_of_next_entry, is_contained_within as arena_contains,
    list_insert as arena_insert, list_insert_end as arena_insert_end, list_remove as arena_remove,
    set_list_item_value as arena_set_value, ListArena,
};
use rust_freertos::task_control::TaskHandle;

fn arena_with(values: &[u32]) -> (ListArena, usize, Vec<usize>) {
    let mut a = ListArena::new();
    let l = a.create_list();
    let mut items = vec![];
    for (n, v) in values.iter().enumerate() {
        let i = a.create_item(ListItem::new(*v).owner(TaskHandle(n)));
        items.push(i);
    }
    (a, l, items)
}

#[test]
fn arena_sorted_insert_orders_by_value() {
    let (mut a, l, items) = arena_with(&[30, 10, 20, 10]);
    for i in &items {
        arena_insert(&mut a, l, *i);
    }
    let vals: Vec<u32> = (0..4).map(|p| a.get_item(a.list_item_at(l, p)).item_value).collect();
    assert_eq!(vals, vec![10, 10, 20, 30]);
    // equal values keep their arrival order
    assert_eq!(a.list_item_at(l, 0), items[1]);
    assert_eq!(a.list_item_at(l, 1), items[3]);
    assert_eq!(get_owner_of_head_entry(&a, l), TaskHandle(1));
}

#[test]
fn arena_insert_end_then_remove_restores() {
    let (mut a, l, items) = arena_with(&[1, 2, 3]);
    arena_insert_end(&mut a, l, items[0]);
    arena_insert_end(&mut a, l, items[1]);
    assert_eq!(arena_length(&a, l), 2);
    arena_insert_end(&mut a, l, items[2]);
    assert!(arena_contains(&a, l, items[2]));
    assert_eq!(arena_remove(&mut a, items[2]), 2);
    assert!(!arena_contains(&a, l, items[2]));
    assert_eq!(a.get_item(items[2]).container, None);
    assert_eq!(arena_length(&a, l), 2);
}

#[test]
fn arena_next_entry_walks_round() {
    let (mut a, l, items) = arena_with(&[5, 5, 5]);
    for i in &items {
        arena_insert_end(&mut a, l, *i);
    }
    let walk: Vec<TaskHandle> = (0..6).map(|_| get_owner_of_next_entry(&mut a, l)).collect();
    assert_eq!(walk, vec![TaskHandle(0), TaskHandle(1), TaskHandle(2), TaskHandle(0), TaskHandle(1), TaskHandle(2)]);
    arena_set_value(&mut a, items[0], 99);
    assert_eq!(a.get_item(items[0]).item_value, 99);
}

#[test]
fn list_push_front_puts_item_first() {
    let mut list = List::new();
    list.insert_end(4);
    list.push_front(7);
    assert_eq!(list.head(), 7);
    assert_eq!(list.get_length(), 2);
    assert_eq!(list.item_at(1), 4);
}
