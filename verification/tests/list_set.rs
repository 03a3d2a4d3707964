use split_ordered::list_set::OrderedListSet;

fn elements(set: &OrderedListSet<i32>) -> Vec<i32> {
    let mut iter = set.iter();
    let mut out = Vec::new();
    while let Some(item) = iter.next() {
        out.push(*item);
    }
    out
}

#[test]
fn new_set_is_empty() {
    let set: OrderedListSet<i32> = OrderedListSet::new();
    assert_eq!(set.len(), 0);
    assert!(!set.contains(&1));
    assert_eq!(elements(&set), Vec::<i32>::new());
    let mut iter = set.iter();
    assert_eq!(iter.next(), None);
    assert_eq!(iter.next(), None);
}

#[test]
fn insert_keeps_the_order() {
    let mut set = OrderedListSet::new();
    for key in [5, 1, 9, 3, 7, -2] {
        assert_eq!(set.insert(key), Ok(()));
    }
    assert_eq!(elements(&set), vec![-2, 1, 3, 5, 7, 9]);
    assert_eq!(set.len(), 6);
    assert_eq!(set.find(&3), (true, 2));
    assert_eq!(set.find(&4), (false, 3));
    assert_eq!(set.find(&100), (false, 6));
    assert_eq!(set.find(&-100), (false, 0));
}

#[test]
fn insert_of_a_present_key_gives_it_back() {
    let mut set = OrderedListSet::new();
    assert_eq!(set.insert(4), Ok(()));
    assert_eq!(set.insert(4), Err(4));
    assert_eq!(set.insert(2), Ok(()));
    assert_eq!(set.insert(2), Err(2));
    assert_eq!(elements(&set), vec![2, 4]);
}

#[test]
fn contains_tells_what_is_there() {
    let mut set = OrderedListSet::new();
    for key in [10, 20, 30] {
        set.insert(key).unwrap();
    }
    assert!(set.contains(&10));
    assert!(set.contains(&20));
    assert!(set.contains(&30));
    assert!(!set.contains(&0));
    assert!(!set.contains(&15));
    assert!(!set.contains(&31));
}

#[test]
fn remove_hands_out_the_element() {
    let mut set = OrderedListSet::new();
    for key in [1, 2, 3, 4] {
        set.insert(key).unwrap();
    }
    assert_eq!(set.remove(&3), Ok(3));
    assert_eq!(set.remove(&3), Err(()));
    assert_eq!(set.remove(&9), Err(()));
    assert_eq!(elements(&set), vec![1, 2, 4]);
    assert_eq!(set.remove(&1), Ok(1));
    assert_eq!(set.remove(&4), Ok(4));
    assert_eq!(set.remove(&2), Ok(2));
    assert_eq!(set.len(), 0);
}

#[test]
fn set_of_strings() {
    let mut set = OrderedListSet::new();
    for word in ["pear", "apple", "fig"] {
        assert_eq!(set.insert(word.to_string()), Ok(()));
    }
    assert_eq!(set.insert("fig".to_string()), Err("fig".to_string()));
    let mut iter = set.iter();
    assert_eq!(iter.next().map(|s| s.as_str()), Some("apple"));
    assert_eq!(iter.next().map(|s| s.as_str()), Some("fig"));
    assert_eq!(iter.next().map(|s| s.as_str()), Some("pear"));
    assert_eq!(iter.next(), None);
}

#[test]
fn default_set_is_empty() {
    let set: OrderedListSet<u8> = OrderedListSet::default();
    assert_eq!(set.len(), 0);
    assert_eq!(format!("{:?}", set), "OrderedListSet { items: [] }");
}
