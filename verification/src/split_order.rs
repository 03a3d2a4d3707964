//! The split order: keys compared by their reversed bits.
//!
//! A bucket with index `i` is marked in the list by a sentinel whose ordering
//! key is `i` with its bits reversed. A data key `k` is stored under `k` with
//! its bits reversed and the lowest bit set. Keys use 63 bits, so a reversed
//! key has its lowest bit clear, and that bit tells the two kinds apart. In
//! this order the sentinel of bucket `k mod 2^n` stands before the data key
//! `k` for every `n`, which is why doubling the number of buckets moves
//! nothing.

use vstd::prelude::*;
use vstd::arithmetic::power2::{
    lemma2_to64,
    lemma2_to64_rest,
    lemma_pow2_strictly_increases,
    lemma_pow2_unfold,
    pow2,
};
use vstd::bits::lemma_u64_low_bits_mask_is_mod;

verus! {

/// Keys and bucket indices lie below this limit: their top bit is clear.
pub const KEY_LIMIT: u64 = 0x8000_0000_0000_0000;

/// The word `x` with the order of its 64 bits reversed.
pub open spec fn reversed(x: u64) -> u64 {
    let a = ((x >> 1) & 0x5555_5555_5555_5555) | ((x & 0x5555_5555_5555_5555) << 1);
    let b = ((a >> 2) & 0x3333_3333_3333_3333) | ((a & 0x3333_3333_3333_3333) << 2);
    let c = ((b >> 4) & 0x0f0f_0f0f_0f0f_0f0f) | ((b & 0x0f0f_0f0f_0f0f_0f0f) << 4);
    let d = ((c >> 8) & 0x00ff_00ff_00ff_00ff) | ((c & 0x00ff_00ff_00ff_00ff) << 8);
    let e = ((d >> 16) & 0x0000_ffff_0000_ffff) | ((d & 0x0000_ffff_0000_ffff) << 16);
    (e >> 32) | (e << 32)
}

/// The ordering key of the sentinel of bucket `index`.
pub open spec fn spec_sentinel_key(index: u64) -> u64 {
    reversed(index)
}

/// The ordering key under which the data key `key` is stored.
pub open spec fn spec_ord_key(key: u64) -> u64 {
    reversed(key) | 1
}

/// Whether `x` is a power of two.
pub open spec fn is_power_of_two(x: u64) -> bool {
    x != 0 && x & ((x - 1) as u64) == 0
}

/// The first of `size / 2`, `size / 4`, ... that is not above `index`.
pub open spec fn halving_below(size: u64, index: u64) -> u64
    decreases size,
{
    let half = size / 2;
    if half <= index {
        half
    } else {
        halving_below(half, index)
    }
}

/// The bucket that bucket `index` splits off from, among `size` buckets.
pub open spec fn spec_parent_index(size: u64, index: u64) -> u64 {
    (index - halving_below(size, index)) as u64
}

/// Whether bucket `i` is bucket `index` or one of those it descends from:
/// its parent, the parent of its parent, and so on down to bucket 0.
pub open spec fn on_parent_chain(size: u64, index: u64, i: u64) -> bool
    decreases index,
{
    i == index || (spec_parent_index(size, index) < index && on_parent_chain(
        size,
        spec_parent_index(size, index),
        i,
    ))
}

/// Bit `i` of the reversed word is bit `63 - i` of the word.
pub proof fn law_reversed_bit(x: u64, i: u64)
    by (bit_vector)
    requires
        i < 64,
    ensures
        (reversed(x) >> i) & 1 == (x >> ((63 - i) as u64)) & 1,
{
}

/// Different words have different reversals.
pub proof fn lemma_reversed_injective(a: u64, b: u64)
    by (bit_vector)
    requires
        reversed(a) == reversed(b),
    ensures
        a == b,
{
}

/// A word whose set bits are among those of another is reversed to a word
/// that is not above the reversal of the other.
pub proof fn lemma_reversed_subset(a: u64, b: u64)
    by (bit_vector)
    requires
        a & b == a,
    ensures
        reversed(a) <= reversed(b),
{
}

/// Sentinel keys have the lowest bit clear, data keys have it set.
pub proof fn lemma_key_kinds(index: u64, key: u64)
    by (bit_vector)
    requires
        index < 0x8000_0000_0000_0000,
    ensures
        spec_sentinel_key(index) & 1 == 0,
        spec_ord_key(key) & 1 == 1,
        spec_sentinel_key(index) != spec_ord_key(key),
{
}

/// The sentinel of bucket 0 has the least ordering key there is.
pub proof fn lemma_sentinel_of_zero()
    by (bit_vector)
    ensures
        spec_sentinel_key(0) == 0,
{
}

/// Every ordering key is that of one sentinel or of one data key, and its
/// lowest bit tells which: reversed, it gives the bucket or the key back.
pub proof fn lemma_key_of_ord(ord: u64)
    by (bit_vector)
    ensures
        ord & 1 == 0 ==> reversed(ord) < 0x8000_0000_0000_0000 && spec_sentinel_key(reversed(ord))
            == ord,
        ord & 1 == 1 ==> reversed(ord ^ 1) < 0x8000_0000_0000_0000 && spec_ord_key(
            reversed(ord ^ 1),
        ) == ord,
        ord & 1 == 0 || ord & 1 == 1,
{
}

/// Different data keys are stored under different ordering keys.
pub proof fn lemma_ord_key_injective(a: u64, b: u64)
    by (bit_vector)
    requires
        a < 0x8000_0000_0000_0000,
        b < 0x8000_0000_0000_0000,
        spec_ord_key(a) == spec_ord_key(b),
    ensures
        a == b,
{
}

proof fn lemma_half(size: u64)
    by (bit_vector)
    requires
        size != 0 && size & ((size - 1) as u64) == 0,
        size >= 2,
    ensures
        size / 2 != 0 && (size / 2) & ((size / 2 - 1) as u64) == 0,
        2 * (size / 2) == size,
{
}

/// A power of two is 2 raised to some exponent below 64.
pub proof fn lemma_exponent(size: u64) -> (e: nat)
    requires
        is_power_of_two(size),
    ensures
        e < 64,
        size == pow2(e),
    decreases size,
{
    if size == 1 {
        lemma2_to64();
        0
    } else {
        assert(size >= 2);
        lemma_half(size);
        let below = lemma_exponent(size / 2);
        lemma_pow2_unfold(below + 1);
        if below + 1 >= 64 {
            lemma2_to64_rest();
            lemma_pow2_strictly_increases(63, below);
        }
        below + 1
    }
}

proof fn lemma_masked_subset(key: u64, mask: u64)
    by (bit_vector)
    ensures
        (key & mask) & key == key & mask,
{
}

/// Taking a word modulo a power of two keeps some of its bits and clears
/// the others.
pub proof fn lemma_low_bits(size: u64, key: u64)
    requires
        is_power_of_two(size),
    ensures
        (key % size) & key == key % size,
{
    let e = lemma_exponent(size);
    lemma_u64_low_bits_mask_is_mod(key, e);
    lemma_masked_subset(key, (size - 1) as u64);
}

/// The sentinel of the bucket of a key stands before the key, whatever
/// power of two the number of buckets is.
pub proof fn lemma_bucket_before_key(size: u64, key: u64)
    requires
        is_power_of_two(size),
        key < KEY_LIMIT,
    ensures
        spec_sentinel_key((key % size) as u64) < spec_ord_key(key),
{
    let index = (key % size) as u64;
    lemma_low_bits(size, key);
    lemma_reversed_subset(index, key);
    assert(key % size <= key) by (nonlinear_arith)
        requires
            size > 0,
    ;
    lemma_key_kinds(index, key);
    let r = reversed(key);
    assert(r <= r | 1) by (bit_vector);
}

proof fn lemma_clear_top(p: u64, index: u64)
    by (bit_vector)
    requires
        p != 0 && p & ((p - 1) as u64) == 0,
        p <= index,
        index < 2 * p,
    ensures
        ((index - p) as u64) & index == (index - p) as u64,
{
}

/// Among a power of two of buckets, the halving that gives the parent of a
/// bucket other than 0 is the largest power of two not above its index.
pub proof fn lemma_halving_below(size: u64, index: u64)
    requires
        is_power_of_two(size),
        0 < index < size,
    ensures
        is_power_of_two(halving_below(size, index)),
        halving_below(size, index) <= index < 2 * halving_below(size, index),
    decreases size,
{
    lemma_half(size);
    let half = size / 2;
    if half > index {
        lemma_halving_below(half, index);
    }
}

/// The parent of a bucket other than 0 has a smaller index, and its sentinel
/// stands before the sentinel of the bucket.
pub proof fn lemma_parent_before(size: u64, index: u64)
    requires
        is_power_of_two(size),
        0 < index < size,
    ensures
        spec_parent_index(size, index) < index,
        spec_sentinel_key(spec_parent_index(size, index)) < spec_sentinel_key(index),
{
    lemma_halving_below(size, index);
    let p = halving_below(size, index);
    let parent = spec_parent_index(size, index);
    lemma_clear_top(p, index);
    lemma_reversed_subset(parent, index);
    if reversed(parent) == reversed(index) {
        lemma_reversed_injective(parent, index);
    }
}

/// The halving that gives the parent is never above the index, so the
/// parent is never above the bucket.
pub proof fn lemma_halving_le(size: u64, index: u64)
    ensures
        halving_below(size, index) <= index,
        spec_parent_index(size, index) <= index,
    decreases size,
{
    if size / 2 > index {
        lemma_halving_le(size / 2, index);
    }
}

/// Bucket 0 is at the end of every chain of parents, and no bucket of a
/// chain lies above the one it starts from.
pub proof fn lemma_parent_chain(size: u64, index: u64, i: u64)
    requires
        is_power_of_two(size),
        index < size,
    ensures
        on_parent_chain(size, index, 0),
        on_parent_chain(size, index, i) ==> i <= index,
        on_parent_chain(size, 0, i) <==> i == 0,
    decreases index,
{
    if index > 0 {
        lemma_parent_before(size, index);
        lemma_parent_chain(size, spec_parent_index(size, index), i);
    }
    lemma_halving_le(size, 0);
}

/// Doubling the number of buckets gives no bucket another parent.
pub proof fn lemma_parent_of_doubled(size: u64, index: u64, i: u64)
    requires
        is_power_of_two(size),
        size < KEY_LIMIT,
        index < size,
    ensures
        spec_parent_index((2 * size) as u64, index) == spec_parent_index(size, index),
        on_parent_chain((2 * size) as u64, index, i) == on_parent_chain(size, index, i),
    decreases index,
{
    let doubled = (2 * size) as u64;
    assert(doubled / 2 == size);
    assert(halving_below(doubled, index) == halving_below(size, index));
    if index > 0 {
        lemma_parent_before(size, index);
        lemma_parent_of_doubled(size, spec_parent_index(size, index), i);
    }
}

/// `x` with the order of its bits reversed.
pub fn reverse_bits(x: u64) -> (r: u64)
    ensures
        r == reversed(x),
{
    let a: u64 = ((x >> 1) & 0x5555_5555_5555_5555) | ((x & 0x5555_5555_5555_5555) << 1);
    let b: u64 = ((a >> 2) & 0x3333_3333_3333_3333) | ((a & 0x3333_3333_3333_3333) << 2);
    let c: u64 = ((b >> 4) & 0x0f0f_0f0f_0f0f_0f0f) | ((b & 0x0f0f_0f0f_0f0f_0f0f) << 4);
    let d: u64 = ((c >> 8) & 0x00ff_00ff_00ff_00ff) | ((c & 0x00ff_00ff_00ff_00ff) << 8);
    let e: u64 = ((d >> 16) & 0x0000_ffff_0000_ffff) | ((d & 0x0000_ffff_0000_ffff) << 16);
    (e >> 32) | (e << 32)
}

/// Whether `key` may be used as a key: its top bit is clear.
pub fn is_valid_key(key: u64) -> (valid: bool)
    ensures
        valid == (key < KEY_LIMIT),
{
    key < KEY_LIMIT
}

/// The ordering key of the sentinel of bucket `index`.
pub fn sentinel_key(index: u64) -> (ord: u64)
    ensures
        ord == spec_sentinel_key(index),
{
    reverse_bits(index)
}

/// The ordering key under which the data key `key` is stored.
pub fn ord_key(key: u64) -> (ord: u64)
    ensures
        ord == spec_ord_key(key),
{
    reverse_bits(key) | 1
}

/// The bucket that bucket `index` splits off from, among `size` buckets:
/// `index` less the first of `size / 2`, `size / 4`, ... that is not above
/// it. Bucket 0 is its own parent.
pub fn parent_index(size: u64, index: u64) -> (parent: u64)
    ensures
        parent == spec_parent_index(size, index),
{
    let mut p: u64 = size;
    loop
        invariant_except_break
            halving_below(p, index) == halving_below(size, index),
        ensures
            p == halving_below(size, index),
            p <= index,
        decreases p,
    {
        p = p / 2;
        if p <= index {
            break ;
        }
    }
    index - p
}

} // verus!
