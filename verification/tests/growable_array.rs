use split_ordered::growable_array::{
    digit, height_required, must_grow, Entry, GrowableArray, Slot, MAX_HEIGHT, NULL,
    SEGMENT_LOGSIZE, SEGMENT_SIZE,
};

#[test]
fn constants_of_the_array() {
    assert_eq!(SEGMENT_LOGSIZE, 10);
    assert_eq!(SEGMENT_SIZE, 1 << SEGMENT_LOGSIZE);
    assert_eq!(MAX_HEIGHT, 7);
    assert_eq!(NULL, usize::MAX);
}

#[test]
fn height_required_counts_digits() {
    assert_eq!(height_required(0), 0);
    assert_eq!(height_required(1), 1);
    assert_eq!(height_required(1023), 1);
    assert_eq!(height_required(1024), 2);
    assert_eq!(height_required((1 << 20) - 1), 2);
    assert_eq!(height_required(1 << 20), 3);
    assert_eq!(height_required((1 << 60) - 1), 6);
    assert_eq!(height_required(1 << 60), 7);
    assert_eq!(height_required((1 << 63) - 1), 7);
    assert_eq!(height_required(u64::MAX), 7);
}

#[test]
fn height_required_is_bit_length_over_ten_rounded_up() {
    let mut x: u64 = 1;
    for _ in 0..200 {
        let bits = 64 - x.leading_zeros() as usize;
        assert_eq!(height_required(x), (bits + 9) / 10);
        x = x.wrapping_mul(6364136223846793005).wrapping_add(1442695040888963407);
    }
}

#[test]
fn digit_picks_ten_bits() {
    let index: u64 = (5 << 20) | (7 << 10) | 9;
    assert_eq!(digit(index, 1), 9);
    assert_eq!(digit(index, 2), 7);
    assert_eq!(digit(index, 3), 5);
    assert_eq!(digit(index, 4), 0);
    assert_eq!(digit(u64::MAX, 7), 15);
    assert_eq!(digit(u64::MAX, 6), 1023);
}

#[test]
fn new_array_is_empty() {
    let array = GrowableArray::new();
    assert_eq!(array.height(), 0);
    assert_eq!(array.segment_count(), 0);
    assert_eq!(array.root(), None);
    assert_eq!(array.teardown(), Vec::<usize>::new());
}

#[test]
fn first_get_makes_one_segment() {
    let mut array = GrowableArray::new();
    let slot = array.get(0);
    assert_eq!(array.height(), 1);
    assert_eq!(array.segment_count(), 1);
    assert_eq!(slot, Slot { segment: 0, offset: 0 });
    assert_eq!(array.load(slot), NULL);
}

#[test]
fn get_grows_the_tree_by_whole_levels() {
    let mut array = GrowableArray::new();
    array.get(1);
    assert_eq!(array.height(), 1);
    array.get(59);
    assert_eq!(array.height(), 1);
    assert_eq!(array.segment_count(), 1);
    array.get(5000);
    assert_eq!(array.height(), 2);
    assert_eq!(array.segment_count(), 3);
    array.get(1 << 20);
    assert_eq!(array.height(), 3);
    array.get(3);
    assert_eq!(array.height(), 3);
}

#[test]
fn get_of_a_large_index_on_an_empty_array() {
    let mut array = GrowableArray::new();
    let slot = array.get(5000);
    assert_eq!(array.height(), 2);
    // a first segment of height 1, the root above it, and the leaf of 5000
    assert_eq!(array.segment_count(), 3);
    assert_eq!(slot.offset, (5000 % 1024) as usize);
    let low = array.get(5);
    assert_eq!(array.segment_count(), 3);
    assert_ne!(low.segment, slot.segment);
}

#[test]
fn get_reaches_the_largest_index() {
    let mut array = GrowableArray::new();
    let slot = array.get(u64::MAX);
    assert_eq!(array.height(), 7);
    assert_eq!(slot.offset, 1023);
    array.store(slot, 42);
    let again = array.get(u64::MAX);
    assert_eq!(again, slot);
    assert_eq!(array.load(again), 42);
    let zero = array.get(0);
    assert_eq!(array.load(zero), NULL);
    let top = (1u64 << 63) - 1;
    let other = array.get(top);
    assert_ne!(other, slot);
    assert_eq!(array.load(other), NULL);
}

#[test]
fn a_slot_stays_where_it_is() {
    let mut array = GrowableArray::new();
    let indices = [0u64, 1, 1023, 1024, 4096, 1 << 20, (1 << 30) + 17, 77, 1 << 45];
    let mut first = Vec::new();
    for index in indices {
        first.push(array.get(index));
        for (known, slot) in indices.iter().zip(first.iter()) {
            assert_eq!(array.get(*known), *slot);
        }
    }
    let segments = array.segment_count();
    for (index, slot) in indices.iter().zip(first.iter()) {
        assert_eq!(array.get(*index), *slot);
    }
    assert_eq!(array.segment_count(), segments);
}

#[test]
fn different_indices_have_different_slots() {
    let mut array = GrowableArray::new();
    let indices = [0u64, 1, 2, 1023, 1024, 1025, 2048, 1 << 20, (1 << 20) + 1, 1 << 40];
    let mut slots = Vec::new();
    for index in indices {
        slots.push(array.get(index));
    }
    for a in 0..slots.len() {
        for b in 0..a {
            assert_ne!(slots[a], slots[b]);
        }
    }
}

#[test]
fn store_changes_one_word() {
    let mut array = GrowableArray::new();
    let a = array.get(10);
    let b = array.get(11);
    let c = array.get(70_000);
    array.store(a, 100);
    array.store(c, 300);
    assert_eq!(array.load(a), 100);
    assert_eq!(array.load(b), NULL);
    assert_eq!(array.load(c), 300);
    array.store(a, 101);
    assert_eq!(array.load(a), 101);
    assert_eq!(array.load(c), 300);
    let far = array.get(1 << 33);
    assert_eq!(array.load(far), NULL);
    assert_eq!(array.load(a), 101);
    assert_eq!(array.load(c), 300);
}

#[test]
fn words_are_told_apart_by_height() {
    let mut array = GrowableArray::new();
    let low = array.get(3);
    array.store(low, 0);
    let high = array.get(3 * 1024 + 1);
    array.store(high, 1);
    let root = array.root().unwrap();
    assert_eq!(array.segment_height(root), 2);
    let mut children = 0;
    for offset in 0..SEGMENT_SIZE {
        match array.entry(root, offset) {
            Entry::Empty => {}
            Entry::Child(child) => {
                children += 1;
                assert_eq!(array.segment_height(child), 1);
            }
            Entry::Leaf(_) => panic!("a leaf word in a segment of height 2"),
        }
    }
    assert_eq!(children, 2);
    assert_eq!(array.entry(root, 0), Entry::Child(low.segment));
    assert_eq!(array.entry(root, 3), Entry::Child(high.segment));
    // the words 0 and 1 are handles of segments, yet here they are leaf words
    assert_eq!(array.entry(low.segment, 3), Entry::Leaf(0));
    assert_eq!(array.entry(high.segment, 1), Entry::Leaf(1));
    assert_eq!(array.entry(low.segment, 4), Entry::Empty);
}

#[test]
fn teardown_hands_out_every_segment_once() {
    let mut array = GrowableArray::new();
    let indices = [0u64, 5000, 1 << 20, (1 << 20) + 5, 3 << 30, 1 << 41, 12_345_678];
    for index in indices {
        let slot = array.get(index);
        array.store(slot, index as usize);
    }
    let allocated = array.segment_count();
    let height = array.height();
    let mut by_height = vec![0usize; height + 1];
    for segment in 0..allocated {
        by_height[array.segment_height(segment)] += 1;
    }
    let heights: Vec<usize> = (0..allocated).map(|s| array.segment_height(s)).collect();
    let root = array.root().unwrap();
    let freed = array.teardown();
    assert_eq!(freed.len(), allocated);
    let mut seen = vec![false; allocated];
    let mut freed_by_height = vec![0usize; height + 1];
    for segment in &freed {
        assert!(!seen[*segment]);
        seen[*segment] = true;
        freed_by_height[heights[*segment]] += 1;
    }
    assert!(seen.iter().all(|s| *s));
    assert_eq!(freed_by_height, by_height);
    assert_eq!(by_height[height], 1);
    assert_eq!(*freed.last().unwrap(), root);
}

#[test]
fn teardown_lets_children_go_before_their_parents() {
    let mut array = GrowableArray::new();
    for index in [1u64, 2000, 1 << 22, (1 << 22) + 4096] {
        array.get(index);
    }
    let count = array.segment_count();
    let mut parent = vec![usize::MAX; count];
    for segment in 0..count {
        if array.segment_height(segment) >= 2 {
            for offset in 0..SEGMENT_SIZE {
                if let Entry::Child(child) = array.entry(segment, offset) {
                    assert_eq!(parent[child], usize::MAX);
                    parent[child] = segment;
                }
            }
        }
    }
    let freed = array.teardown();
    let mut place = vec![0usize; count];
    for (at, segment) in freed.iter().enumerate() {
        place[*segment] = at;
    }
    for segment in 0..count {
        if parent[segment] != usize::MAX {
            assert!(place[segment] < place[parent[segment]]);
        }
    }
}

#[test]
fn get_allocates_what_is_missing_and_no_more() {
    let mut array = GrowableArray::new();
    // the first root
    array.get(0);
    assert_eq!(array.segment_count(), 1);
    // nothing is missing
    array.get(1023);
    assert_eq!(array.segment_count(), 1);
    // two roots more, and the two segments below the new root on the way down
    array.get(1 << 20);
    assert_eq!(array.height(), 3);
    assert_eq!(array.segment_count(), 5);
    // the same leaf
    array.get((1 << 20) + 1000);
    assert_eq!(array.segment_count(), 5);
    // a new leaf under a segment that is there
    array.get((1 << 20) + 1024);
    assert_eq!(array.segment_count(), 6);
    // a leaf under the first segment of height 2
    array.get(2048);
    assert_eq!(array.segment_count(), 7);
    // both segments of the way down are missing
    array.get(5 << 20);
    assert_eq!(array.segment_count(), 9);
}

#[test]
fn default_array_is_empty() {
    let array = GrowableArray::default();
    assert_eq!(array.height(), 0);
    assert_eq!(array.segment_count(), 0);
}

#[test]
fn a_tree_grows_when_it_is_empty_or_too_low() {
    assert!(must_grow(0, 0));
    assert!(must_grow(0, 5000));
    assert!(!must_grow(1, 0));
    assert!(!must_grow(1, 1023));
    assert!(must_grow(1, 1024));
    assert!(!must_grow(2, 1024));
    assert!(must_grow(6, 1 << 60));
    assert!(!must_grow(7, u64::MAX));
}

#[test]
fn peek_reads_and_creates_nothing() {
    let mut array = GrowableArray::new();
    assert_eq!(array.peek(0), NULL);
    assert_eq!(array.peek(u64::MAX), NULL);
    assert_eq!(array.segment_count(), 0);
    let slot = array.get(70_000);
    array.store(slot, 7);
    let segments = array.segment_count();
    assert_eq!(array.peek(70_000), 7);
    assert_eq!(array.peek(70_001), NULL);
    assert_eq!(array.peek(3), NULL);
    assert_eq!(array.peek(5 << 10), NULL);
    assert_eq!(array.peek(1 << 30), NULL);
    assert_eq!(array.segment_count(), segments);
    assert_eq!(array.height(), 2);
    let low = array.get(3);
    array.store(low, 1);
    assert_eq!(array.peek(3), 1);
    assert_eq!(array.peek(70_000), 7);
}

#[test]
fn root_is_there_once_the_tree_has_a_level() {
    let mut array = GrowableArray::new();
    assert_eq!(array.root(), None);
    assert_eq!(array.height(), 0);
    array.get(0);
    assert_eq!(array.root(), Some(0));
    assert_eq!(array.height(), 1);
    array.get(1 << 10);
    assert_eq!(array.root(), Some(1));
    assert_eq!(array.height(), 2);
}
