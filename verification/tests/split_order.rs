use split_ordered::split_order::{
    is_valid_key, ord_key, parent_index, reverse_bits, sentinel_key, KEY_LIMIT,
};

#[test]
fn reverse_bits_of_small_words() {
    assert_eq!(reverse_bits(0), 0);
    assert_eq!(reverse_bits(1), 0x8000_0000_0000_0000);
    assert_eq!(reverse_bits(2), 0x4000_0000_0000_0000);
    assert_eq!(reverse_bits(3), 0xc000_0000_0000_0000);
    assert_eq!(reverse_bits(0x8000_0000_0000_0000), 1);
    assert_eq!(reverse_bits(u64::MAX), u64::MAX);
    assert_eq!(reverse_bits(0x0123_4567_89ab_cdef), 0xf7b3_d591_e6a2_c480);
}

#[test]
fn reverse_bits_agrees_with_the_standard_library() {
    let mut x: u64 = 0x9e37_79b9_7f4a_7c15;
    for _ in 0..2000 {
        assert_eq!(reverse_bits(x), x.reverse_bits());
        assert_eq!(reverse_bits(reverse_bits(x)), x);
        x = x.wrapping_mul(6364136223846793005).wrapping_add(1442695040888963407);
    }
    for bit in 0..64 {
        assert_eq!(reverse_bits(1u64 << bit), 1u64 << (63 - bit));
    }
}

#[test]
fn sentinel_keys_are_even_and_data_keys_are_odd() {
    assert_eq!(sentinel_key(0), 0);
    assert_eq!(sentinel_key(1), 0x8000_0000_0000_0000);
    assert_eq!(sentinel_key(6), 0x6000_0000_0000_0000);
    assert_eq!(ord_key(0), 1);
    assert_eq!(ord_key(1), 0x8000_0000_0000_0001);
    assert_eq!(ord_key(6), 0x6000_0000_0000_0001);
    let mut k: u64 = 1;
    while k < KEY_LIMIT / 3 {
        assert_eq!(sentinel_key(k) & 1, 0);
        assert_eq!(ord_key(k) & 1, 1);
        k = k * 3 + 1;
    }
}

#[test]
fn the_bucket_of_a_key_stands_before_the_key() {
    let keys = [0u64, 1, 2, 3, 5, 8, 100, 1023, 1024, 0xdead_beef, KEY_LIMIT - 1];
    for key in keys {
        let mut size: u64 = 2;
        while size <= KEY_LIMIT / 2 {
            assert!(sentinel_key(key % size) < ord_key(key));
            size *= 2;
        }
    }
}

#[test]
fn valid_keys_have_the_top_bit_clear() {
    assert!(is_valid_key(0));
    assert!(is_valid_key(KEY_LIMIT - 1));
    assert!(!is_valid_key(KEY_LIMIT));
    assert!(!is_valid_key(u64::MAX));
    assert_eq!(KEY_LIMIT, 1u64 << 63);
}

#[test]
fn parent_clears_the_highest_bit() {
    assert_eq!(parent_index(2, 0), 0);
    assert_eq!(parent_index(2, 1), 0);
    assert_eq!(parent_index(4, 2), 0);
    assert_eq!(parent_index(4, 3), 1);
    assert_eq!(parent_index(8, 4), 0);
    assert_eq!(parent_index(8, 5), 1);
    assert_eq!(parent_index(8, 6), 2);
    assert_eq!(parent_index(8, 7), 3);
    assert_eq!(parent_index(1024, 1000), 1000 - 512);
    assert_eq!(parent_index(1024, 1), 0);
}

#[test]
fn parent_of_an_index_beyond_the_buckets_takes_half_the_count() {
    assert_eq!(parent_index(4, 9), 7);
    assert_eq!(parent_index(8, 8), 4);
}

#[test]
fn parent_sentinel_stands_before_the_child() {
    let mut size: u64 = 2;
    while size <= 4096 {
        for index in 1..size {
            let parent = parent_index(size, index);
            assert!(parent < index);
            assert!(sentinel_key(parent) < sentinel_key(index));
        }
        size *= 2;
    }
}

#[test]
fn parent_does_not_depend_on_the_number_of_buckets() {
    let mut size: u64 = 2;
    while size <= 1 << 12 {
        for index in 0..size {
            assert_eq!(parent_index(size * 2, index), parent_index(size, index));
            assert_eq!(parent_index(1 << 62, index), parent_index(size, index));
        }
        size *= 2;
    }
}

#[test]
fn an_ordering_key_gives_its_bucket_or_key_back() {
    let mut x: u64 = 1;
    for _ in 0..500 {
        x = x.wrapping_mul(6364136223846793005).wrapping_add(1442695040888963407);
        let key = x >> 1;
        assert_eq!(reverse_bits(sentinel_key(key)), key);
        assert_eq!(reverse_bits(ord_key(key) ^ 1), key);
    }
}
