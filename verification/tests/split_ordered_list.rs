use split_ordered::split_order::KEY_LIMIT;
use split_ordered::split_ordered_list::{must_double, SplitOrderedList, LOAD_FACTOR};

#[test]
fn new_map_has_two_buckets_and_no_item() {
    let mut map: SplitOrderedList<u32> = SplitOrderedList::new();
    assert_eq!(map.bucket_count(), 2);
    assert_eq!(map.item_count(), 0);
    assert_eq!(map.lookup(0), None);
    assert_eq!(map.lookup(1), None);
    assert_eq!(map.delete(0), Err(()));
    assert_eq!(LOAD_FACTOR, 2);
}

#[test]
fn insert_lookup_delete_round_trip() {
    let mut map = SplitOrderedList::new();
    let keys = [0u64, 1, 2, 3, 1 << 10, 1 << 40, 0xdead_beef, KEY_LIMIT - 1];
    for key in keys {
        assert_eq!(map.lookup(key), None);
        assert_eq!(map.insert(key, format!("v{}", key)), Ok(()));
        assert_eq!(map.lookup(key), Some(&format!("v{}", key)));
    }
    for key in keys {
        assert_eq!(map.lookup(key), Some(&format!("v{}", key)));
    }
    for key in keys {
        assert_eq!(map.delete(key), Ok(format!("v{}", key)));
        assert_eq!(map.lookup(key), None);
        assert_eq!(map.delete(key), Err(()));
    }
    assert_eq!(map.item_count(), 0);
}

#[test]
fn insert_of_a_present_key_gives_the_value_back() {
    let mut map = SplitOrderedList::new();
    assert_eq!(map.insert(7, "first"), Ok(()));
    assert_eq!(map.insert(7, "second"), Err("second"));
    assert_eq!(map.lookup(7), Some(&"first"));
    assert_eq!(map.item_count(), 1);
}

#[test]
fn of_two_inserts_of_one_key_exactly_one_succeeds() {
    for first_wins in [true, false] {
        let mut map = SplitOrderedList::new();
        let (a, b) = if first_wins { ("v1", "v2") } else { ("v2", "v1") };
        let ra = map.insert(42, a);
        let rb = map.insert(42, b);
        assert_eq!(ra, Ok(()));
        assert_eq!(rb, Err(b));
        assert_eq!(map.lookup(42), Some(&a));
    }
}

#[test]
fn keys_one_to_five() {
    let mut map = SplitOrderedList::new();
    assert_eq!(map.bucket_count(), 2);
    for key in 1..=5u64 {
        assert_eq!(map.insert(key, key * 10), Ok(()));
    }
    assert_eq!(map.lookup(3), Some(&30));
    assert_eq!(map.delete(3), Ok(30));
    assert_eq!(map.lookup(3), None);
    for key in [1u64, 2, 4, 5] {
        assert_eq!(map.lookup(key), Some(&(key * 10)));
    }
    assert_eq!(map.item_count(), 4);
}

#[test]
fn buckets_double_when_items_pass_twice_their_number() {
    let mut map = SplitOrderedList::new();
    let mut expected: u64 = 2;
    for key in 0..1000u64 {
        map.insert(key, ()).unwrap();
        let items = key + 1;
        if items > 2 * expected {
            expected *= 2;
        }
        assert_eq!(map.bucket_count(), expected);
        assert!(map.item_count() as u64 <= 2 * map.bucket_count());
    }
    assert_eq!(map.bucket_count(), 512);
}

#[test]
fn fifth_item_doubles_two_buckets() {
    let mut map = SplitOrderedList::new();
    for key in 0..4u64 {
        map.insert(key, key).unwrap();
        assert_eq!(map.bucket_count(), 2);
    }
    map.insert(4, 4).unwrap();
    assert_eq!(map.bucket_count(), 4);
    for key in 5..8u64 {
        map.insert(key, key).unwrap();
        assert_eq!(map.bucket_count(), 4);
    }
    map.insert(8, 8).unwrap();
    assert_eq!(map.bucket_count(), 8);
}

#[test]
fn load_factor_growth() {
    for n in [1u64, 4, 5, 16, 100, 777, 4096] {
        let mut map = SplitOrderedList::new();
        for key in 0..n {
            map.insert(key * 7919 % (1 << 40), key).unwrap();
            for seen in 0..=key {
                if seen % 97 == key % 97 {
                    assert_eq!(map.lookup(seen * 7919 % (1 << 40)), Some(&seen));
                }
            }
        }
        let mut doublings = 0;
        let mut size = map.bucket_count();
        while size > 2 {
            size /= 2;
            doublings += 1;
        }
        let quotient = n / (2 * LOAD_FACTOR as u64);
        let least = if quotient == 0 { 0 } else { 63 - quotient.leading_zeros() };
        assert!(doublings >= least);
    }
}

#[test]
fn buckets_never_shrink() {
    let mut map = SplitOrderedList::new();
    for key in 0..100u64 {
        map.insert(key, key).unwrap();
    }
    let buckets = map.bucket_count();
    assert_eq!(buckets, 64);
    for key in 0..100u64 {
        assert_eq!(map.delete(key), Ok(key));
        assert_eq!(map.bucket_count(), buckets);
    }
    assert_eq!(map.item_count(), 0);
    for key in 0..100u64 {
        assert_eq!(map.lookup(key), None);
    }
}

#[test]
fn a_deleted_key_can_be_stored_again() {
    let mut map = SplitOrderedList::new();
    for round in 0..50u64 {
        assert_eq!(map.insert(9, round), Ok(()));
        assert_eq!(map.insert(9, round + 1000), Err(round + 1000));
        assert_eq!(map.delete(9), Ok(round));
    }
    assert_eq!(map.lookup(9), None);
}

#[test]
fn shards_inserted_in_turn_are_all_there() {
    let threads: u64 = 8;
    let keys: u64 = 500;
    let mut map = SplitOrderedList::new();
    for step in 0..keys {
        for shard in 0..threads {
            let key = shard * keys + step;
            assert_eq!(map.insert(key, (shard, step)), Ok(()));
        }
    }
    assert_eq!(map.item_count() as u64, threads * keys);
    for shard in 0..threads {
        for step in 0..keys {
            let key = shard * keys + step;
            assert_eq!(map.lookup(key), Some(&(shard, step)));
            assert_eq!(map.insert(key, (0, 0)), Err((0, 0)));
        }
    }
    assert_eq!(map.lookup(threads * keys), None);
    let mut taken = 0;
    for key in 0..threads * keys {
        assert!(map.delete(key).is_ok());
        assert!(map.delete(key).is_err());
        taken += 1;
    }
    assert_eq!(taken, threads * keys);
    assert_eq!(map.item_count(), 0);
}

#[test]
fn map_behaves_like_a_reference_map() {
    let mut map = SplitOrderedList::new();
    let mut reference = std::collections::BTreeMap::new();
    let mut x: u64 = 12345;
    for _ in 0..20_000 {
        x = x.wrapping_mul(6364136223846793005).wrapping_add(1442695040888963407);
        let key = (x >> 33) % 300;
        let key = if key % 7 == 0 { key << 50 } else { key };
        match (x >> 20) % 3 {
            0 => {
                let expected = if reference.contains_key(&key) {
                    Err(x)
                } else {
                    reference.insert(key, x);
                    Ok(())
                };
                assert_eq!(map.insert(key, x), expected);
            }
            1 => {
                assert_eq!(map.delete(key), reference.remove(&key).ok_or(()));
            }
            _ => {
                assert_eq!(map.lookup(key), reference.get(&key));
            }
        }
        assert_eq!(map.item_count(), reference.len());
    }
}

#[test]
fn default_map_is_a_new_map() {
    let mut map: SplitOrderedList<u8> = SplitOrderedList::default();
    assert_eq!(map.bucket_count(), 2);
    assert_eq!(map.item_count(), 0);
    assert_eq!(map.insert(1, 1), Ok(()));
    assert_eq!(map.lookup(1), Some(&1));
}

#[test]
fn buckets_double_beyond_the_load_factor() {
    assert!(!must_double(2, 0));
    assert!(!must_double(2, 4));
    assert!(must_double(2, 5));
    assert!(!must_double(4, 8));
    assert!(must_double(4, 9));
    assert!(!must_double(1 << 63, usize::MAX));
    assert!(!must_double(u64::MAX, usize::MAX));
}

fn ready_buckets(map: &SplitOrderedList<u64>) -> Vec<u64> {
    (0..map.bucket_count()).filter(|i| map.bucket_ready(*i)).collect()
}

#[test]
fn new_map_has_bucket_zero_set_up_and_no_other() {
    let map: SplitOrderedList<u64> = SplitOrderedList::new();
    assert!(map.bucket_ready(0));
    assert!(!map.bucket_ready(1));
    assert!(!map.bucket_ready(2));
    assert!(!map.bucket_ready(1 << 40));
    assert!(!map.bucket_ready(u64::MAX));
    assert_eq!(map.linked_count(), 1);
}

#[test]
fn an_operation_sets_up_the_bucket_of_its_key() {
    let mut map: SplitOrderedList<u64> = SplitOrderedList::new();
    assert_eq!(map.lookup(4), None);
    assert_eq!(ready_buckets(&map), vec![0]);
    assert_eq!(map.linked_count(), 1);
    assert_eq!(map.delete(7), Err(()));
    assert_eq!(ready_buckets(&map), vec![0, 1]);
    assert_eq!(map.linked_count(), 2);
    assert_eq!(map.insert(9, 90), Ok(()));
    assert_eq!(ready_buckets(&map), vec![0, 1]);
    assert_eq!(map.linked_count(), 3);
    assert_eq!(map.delete(9), Ok(90));
    assert_eq!(map.linked_count(), 2);
}

#[test]
fn a_bucket_is_set_up_after_those_it_descends_from() {
    let mut map: SplitOrderedList<u64> = SplitOrderedList::new();
    for key in 0..32u64 {
        map.insert(key << 10, key).unwrap();
    }
    // every key so far fell into bucket 0
    assert_eq!(map.bucket_count(), 16);
    assert_eq!(ready_buckets(&map), vec![0]);
    // bucket 13 descends from 5, 1 and 0
    assert_eq!(map.lookup(13), None);
    assert_eq!(ready_buckets(&map), vec![0, 1, 5, 13]);
    // bucket 6 descends from 2 and 0
    assert_eq!(map.insert(6 + 16, 1), Ok(()));
    assert_eq!(map.bucket_count(), 32);
    assert_eq!(ready_buckets(&map), vec![0, 1, 2, 5, 6, 13]);
    assert_eq!(map.linked_count(), map.item_count() + 6);
}

#[test]
fn the_list_holds_the_sentinels_and_the_items() {
    let mut map: SplitOrderedList<u64> = SplitOrderedList::new();
    let mut x: u64 = 99;
    for _ in 0..3000 {
        x = x.wrapping_mul(6364136223846793005).wrapping_add(1442695040888963407);
        let key = (x >> 40) % 500;
        if (x >> 20) % 3 == 0 {
            let _ = map.delete(key);
        } else {
            let _ = map.insert(key, x);
        }
        let ready = ready_buckets(&map);
        assert_eq!(map.linked_count(), map.item_count() + ready.len());
        for bucket in ready {
            if bucket != 0 {
                let parent = split_ordered::split_order::parent_index(map.bucket_count(), bucket);
                assert!(map.bucket_ready(parent));
            }
        }
    }
}
