use split_ordered::growable_array::NULL;
use split_ordered::ordered_list::List;

#[test]
fn empty_list_has_nothing_at_its_head() {
    let list: List<u32> = List::new();
    let cursor = list.head();
    assert_eq!(cursor.prev, NULL);
    assert_eq!(cursor.curr, NULL);
    assert_eq!(list.node_count(), 0);
}

#[test]
fn find_stops_at_the_first_key_not_below() {
    let mut list: List<&str> = List::new();
    for (key, value) in [(30u64, "c"), (10, "a"), (20, "b")] {
        let mut cursor = list.head();
        assert!(!list.find(&mut cursor, key));
        list.insert(&mut cursor, key, Some(value));
    }
    let mut cursor = list.head();
    assert!(list.find(&mut cursor, 20));
    assert_eq!(list.key(cursor.curr), 20);
    assert_eq!(list.value(cursor.curr), Some(&"b"));
    assert_eq!(list.key(cursor.prev), 10);
    let mut cursor = list.head();
    assert!(!list.find(&mut cursor, 25));
    assert_eq!(list.key(cursor.curr), 30);
    assert_eq!(list.key(cursor.prev), 20);
    let mut cursor = list.head();
    assert!(!list.find(&mut cursor, 31));
    assert_eq!(cursor.curr, NULL);
    assert_eq!(list.key(cursor.prev), 30);
    let mut cursor = list.head();
    assert!(!list.find(&mut cursor, 5));
    assert_eq!(cursor.prev, NULL);
    assert_eq!(list.key(cursor.curr), 10);
}

#[test]
fn insert_hands_out_handles_in_order_of_creation() {
    let mut list: List<u8> = List::new();
    let mut cursor = list.head();
    list.find(&mut cursor, 7);
    assert_eq!(list.insert(&mut cursor, 7, None), 0);
    assert_eq!(cursor.curr, 0);
    let mut cursor = list.head();
    list.find(&mut cursor, 3);
    assert_eq!(list.insert(&mut cursor, 3, Some(1)), 1);
    assert_eq!(list.node_count(), 2);
    assert_eq!(list.value(0), None);
    assert_eq!(list.value(1), Some(&1));
    let head = list.head();
    assert_eq!(head.curr, 1);
}

#[test]
fn search_from_the_middle_of_the_list() {
    let mut list: List<u64> = List::new();
    let mut handles = Vec::new();
    for key in [0u64, 100, 200, 300, 400] {
        let mut cursor = list.head();
        list.find(&mut cursor, key);
        handles.push(list.insert(&mut cursor, key, Some(key)));
    }
    let mut cursor = list.cursor_after(handles[2]);
    assert_eq!(cursor.prev, handles[2]);
    assert_eq!(cursor.curr, handles[3]);
    assert!(list.find(&mut cursor, 400));
    assert_eq!(cursor.curr, handles[4]);
    let mut cursor = list.cursor_after(handles[2]);
    assert!(!list.find(&mut cursor, 250));
    let fresh = list.insert(&mut cursor, 250, None);
    assert_eq!(list.cursor_after(handles[2]).curr, fresh);
    assert_eq!(list.cursor_after(fresh).curr, handles[3]);
}

#[test]
fn delete_unlinks_and_hands_out_the_value() {
    let mut list: List<String> = List::new();
    for key in [1u64, 2, 3] {
        let mut cursor = list.head();
        list.find(&mut cursor, key);
        list.insert(&mut cursor, key, Some(format!("v{}", key)));
    }
    let mut cursor = list.head();
    assert!(list.find(&mut cursor, 2));
    assert_eq!(list.delete(&mut cursor), Some("v2".to_string()));
    assert_eq!(list.key(cursor.curr), 3);
    let mut cursor = list.head();
    assert!(!list.find(&mut cursor, 2));
    let mut cursor = list.head();
    assert!(list.find(&mut cursor, 1));
    assert_eq!(list.delete(&mut cursor), Some("v1".to_string()));
    assert_eq!(list.key(list.head().curr), 3);
    let mut cursor = list.head();
    assert!(list.find(&mut cursor, 3));
    assert_eq!(list.delete(&mut cursor), Some("v3".to_string()));
    assert_eq!(list.head().curr, NULL);
    assert_eq!(list.node_count(), 3);
}

#[test]
fn the_place_of_an_unlinked_node_is_used_again() {
    let mut list: List<u32> = List::new();
    let mut handles = Vec::new();
    for key in [10u64, 20, 30, 40] {
        let mut cursor = list.head();
        list.find(&mut cursor, key);
        handles.push(list.insert(&mut cursor, key, Some(key as u32)));
    }
    assert_eq!(handles, vec![0, 1, 2, 3]);
    assert_eq!(list.spare_count(), 0);
    for key in [20u64, 30] {
        let mut cursor = list.head();
        assert!(list.find(&mut cursor, key));
        list.delete(&mut cursor);
    }
    assert_eq!(list.spare_count(), 2);
    assert_eq!(list.node_count(), 4);
    // the place that was given up last is taken first
    let mut cursor = list.head();
    list.find(&mut cursor, 5);
    assert_eq!(list.insert(&mut cursor, 5, None), 2);
    let mut cursor = list.head();
    list.find(&mut cursor, 50);
    assert_eq!(list.insert(&mut cursor, 50, Some(50)), 1);
    let mut cursor = list.head();
    list.find(&mut cursor, 45);
    assert_eq!(list.insert(&mut cursor, 45, Some(45)), 4);
    assert_eq!(list.spare_count(), 0);
    assert_eq!(list.node_count(), 5);
    let mut keys = Vec::new();
    let mut cursor = list.head();
    while cursor.curr != NULL {
        keys.push(list.key(cursor.curr));
        cursor = list.cursor_after(cursor.curr);
    }
    assert_eq!(keys, vec![5, 10, 40, 45, 50]);
    assert_eq!(list.value(2), None);
    assert_eq!(list.value(1), Some(&50));
}

#[test]
fn linked_count_follows_insert_and_delete() {
    let mut list: List<u8> = List::new();
    assert_eq!(list.linked_count(), 0);
    for key in [3u64, 1, 2] {
        let mut cursor = list.head();
        list.find(&mut cursor, key);
        list.insert(&mut cursor, key, None);
    }
    assert_eq!(list.linked_count(), 3);
    let mut cursor = list.head();
    assert!(list.find(&mut cursor, 2));
    list.delete(&mut cursor);
    assert_eq!(list.linked_count(), 2);
    assert_eq!(list.linked_count() + list.spare_count(), list.node_count());
}
