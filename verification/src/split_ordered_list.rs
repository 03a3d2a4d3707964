//! A map from 63-bit keys to values, kept as one list in split order with
//! an array of shortcuts into it.
//!
//! The list holds, in ascending order of their ordering keys, one sentinel
//! for each bucket that was ever used and one node for each item. The array
//! holds, for each such bucket, the handle of its sentinel. An operation on a
//! key goes to the sentinel of the key's bucket and searches the list from
//! there. A bucket is set up the first time it is used, by searching from its
//! parent bucket. When the items outnumber the buckets by more than the load
//! factor, the number of buckets doubles; nothing in the list moves.

use vstd::prelude::*;
use crate::growable_array::{GrowableArray, NULL};
use crate::ordered_list::{Cursor, List};
use vstd::arithmetic::logarithm::{lemma_log_is_ordered, lemma_log_pow, log};
use vstd::arithmetic::power::pow;
use vstd::arithmetic::power2::{lemma2_to64, lemma_pow2, lemma_pow2_unfold, pow2};
use crate::split_order::{
    is_power_of_two,
    lemma_bucket_before_key,
    lemma_exponent,
    lemma_halving_le,
    lemma_key_kinds,
    lemma_key_of_ord,
    lemma_ord_key_injective,
    lemma_parent_before,
    lemma_parent_chain,
    lemma_parent_of_doubled,
    lemma_reversed_injective,
    lemma_sentinel_of_zero,
    on_parent_chain,
    ord_key,
    parent_index,
    sentinel_key,
    reversed,
    spec_ord_key,
    spec_parent_index,
    spec_sentinel_key,
    KEY_LIMIT,
};

verus! {

/// The number of buckets doubles when there are more than this many items
/// for each bucket.
pub const LOAD_FACTOR: usize = 2;

/// The map.
pub struct SplitOrderedList<V> {
    list: List<V>,
    buckets: GrowableArray,
    size: u64,
    count: usize,
}

/// What `lookup` returns on a map that holds `m`.
pub open spec fn lookup_result<V>(m: Map<u64, V>, key: u64) -> Option<V> {
    if m.contains_key(key) {
        Some(m[key])
    } else {
        None
    }
}

/// What `insert` makes of a map that holds `m`, and what it returns.
pub open spec fn insert_result<V>(m: Map<u64, V>, key: u64, value: V) -> (Map<u64, V>, Result<
    (),
    V,
>) {
    if m.contains_key(key) {
        (m, Err(value))
    } else {
        (m.insert(key, value), Ok(()))
    }
}

/// What `delete` makes of a map that holds `m`, and what it returns.
pub open spec fn delete_result<V>(m: Map<u64, V>, key: u64) -> (Map<u64, V>, Result<V, ()>) {
    if m.contains_key(key) {
        (m.remove(key), Ok(m[key]))
    } else {
        (m, Err(()))
    }
}

/// The number of buckets after an insert has brought the number of items to
/// `items`.
pub open spec fn grown_bucket_count(buckets: u64, items: nat) -> int {
    if items > LOAD_FACTOR * buckets {
        2 * buckets
    } else {
        buckets as int
    }
}

/// Whether `buckets` buckets are too few for `items` items, so that their
/// number is to double.
pub fn must_double(buckets: u64, items: usize) -> (double: bool)
    ensures
        double == (items > LOAD_FACTOR * buckets),
        grown_bucket_count(buckets, items as nat) == if double {
            2 * buckets
        } else {
            buckets as int
        },
{
    items > 0 && ((items - 1) / LOAD_FACTOR) as u64 >= buckets
}

/// A key that is stored can be looked up and deleted: on a map without
/// `key`, `insert` succeeds, a `lookup` then finds the value, a `delete` then
/// hands the same value out, and a `lookup` after that finds nothing. The
/// map is then what it was.
pub proof fn law_round_trip<V>(m: Map<u64, V>, key: u64, value: V)
    requires
        key < KEY_LIMIT,
        !m.contains_key(key),
    ensures
        insert_result(m, key, value).1 == Ok::<(), V>(()),
        lookup_result(insert_result(m, key, value).0, key) == Some(value),
        delete_result(insert_result(m, key, value).0, key).1 == Ok::<V, ()>(value),
        lookup_result(delete_result(insert_result(m, key, value).0, key).0, key) is None,
        delete_result(insert_result(m, key, value).0, key).0 == m,
{
    assert(m.insert(key, value).remove(key) =~= m);
}

/// Of two inserts of one key into a map without it, in whichever order they
/// take effect, the first succeeds and the second gets its own value back
/// and changes nothing.
pub proof fn law_no_duplicate<V>(m: Map<u64, V>, key: u64, first: V, second: V)
    requires
        key < KEY_LIMIT,
        !m.contains_key(key),
    ensures
        insert_result(m, key, first).1 is Ok,
        insert_result(insert_result(m, key, first).0, key, second).1 == Err::<(), V>(second),
        insert_result(insert_result(m, key, first).0, key, second).0 == insert_result(
            m,
            key,
            first,
        ).0,
        insert_result(m, key, first).0[key] == first,
        insert_result(m, key, second).1 is Ok,
        insert_result(insert_result(m, key, second).0, key, first).1 == Err::<(), V>(first),
        insert_result(insert_result(m, key, second).0, key, first).0 == insert_result(
            m,
            key,
            second,
        ).0,
        insert_result(m, key, second).0[key] == second,
{
}

/// An operation on one key leaves every other key as it was.
pub proof fn law_other_keys_untouched<V>(m: Map<u64, V>, key: u64, value: V, other: u64)
    requires
        other != key,
    ensures
        lookup_result(insert_result(m, key, value).0, other) == lookup_result(m, other),
        lookup_result(delete_result(m, key).0, other) == lookup_result(m, other),
{
}

proof fn lemma_double(size: u64)
    by (bit_vector)
    requires
        size != 0 && size & ((size - 1) as u64) == 0,
        size < 0x8000_0000_0000_0000,
    ensures
        2 * size <= 0x8000_0000_0000_0000,
        2 * size != 0 && ((2 * size) as u64) & ((2 * size - 1) as u64) == 0,
{
}

impl<V> SplitOrderedList<V> {
    /// The items of the map.
    pub closed spec fn view(&self) -> Map<u64, V> {
        Map::new(
            |k: u64| k < KEY_LIMIT && self.list@.contains_key(spec_ord_key(k)),
            |k: u64| self.list@[spec_ord_key(k)].unwrap(),
        )
    }

    /// The number of buckets.
    pub closed spec fn spec_bucket_count(&self) -> u64 {
        self.size
    }

    /// The number of items.
    pub closed spec fn spec_item_count(&self) -> nat {
        self.count as nat
    }

    /// The number of nodes in the list: one sentinel for each bucket that
    /// is set up, and one node for each item.
    pub closed spec fn spec_linked_count(&self) -> nat {
        self.list.spec_linked_count()
    }

    /// The nodes of the list: under each ordering key that a node has, the
    /// value of the node if it is an item, and none if it is a sentinel.
    pub closed spec fn nodes(&self) -> Map<u64, Option<V>> {
        self.list@
    }

    /// Whether bucket `index` is set up: its sentinel is in the list and
    /// the array holds the handle of the sentinel.
    pub closed spec fn spec_bucket_ready(&self, index: u64) -> bool {
        self.buckets.value_at(index) != NULL
    }

    /// The buckets that are set up.
    pub open spec fn ready_buckets(&self) -> Set<u64> {
        Set::new(|i: u64| self.spec_bucket_ready(i))
    }

    /// Whether the buckets that are set up are those that were set up in
    /// `pre`, bucket `index`, and the buckets that `index` descends from.
    pub open spec fn ready_after(&self, pre: Self, index: u64) -> bool {
        forall|i: u64| #[trigger]
            self.spec_bucket_ready(i) <==> pre.spec_bucket_ready(i) || on_parent_chain(
                pre.spec_bucket_count(),
                index,
                i,
            )
    }

    spec fn parent_ok(&self, i: u64) -> bool {
        self.spec_bucket_ready(i) && i != 0 ==> self.spec_bucket_ready(
            spec_parent_index(self.size, i),
        )
    }

    spec fn bucket_ok(&self, i: u64) -> bool {
        let w = self.buckets.value_at(i);
        w != NULL ==> {
            &&& i < self.size
            &&& self.list.linked(w)
            &&& self.list.key_of(w) == spec_sentinel_key(i)
            &&& self.list.value_of(w) is None
        }
    }

    spec fn kind_ok(&self, k: u64) -> bool {
        k & 1 == 1 <==> self.list@[k] is Some
    }

    spec fn recorded(&self, i: u64) -> bool {
        i < KEY_LIMIT && self.list@.contains_key(spec_sentinel_key(i)) ==> self.buckets.value_at(i)
            != NULL
    }

    /// The invariant of the map: every shortcut leads to the sentinel of its
    /// bucket, every sentinel has its shortcut, bucket 0 is set up, with
    /// every bucket its parent is set up, the list holds the sentinels and
    /// the items and nothing else, sentinels carry no value and have the
    /// lowest bit of their ordering key clear, items carry a value and have
    /// it set, the number of buckets is a power of two, at least 2, and the
    /// items do not outnumber the buckets by more than the load factor.
    pub closed spec fn wf(&self) -> bool {
        &&& self.list.wf()
        &&& self.buckets.wf()
        &&& is_power_of_two(self.size)
        &&& 2 <= self.size <= KEY_LIMIT
        &&& self.buckets.value_at(0) != NULL
        &&& forall|i: u64| #[trigger] self.bucket_ok(i)
        &&& forall|i: u64| #[trigger] self.recorded(i)
        &&& forall|i: u64| #[trigger] self.parent_ok(i)
        &&& forall|k: u64| #[trigger] self.list@.contains_key(k) ==> self.kind_ok(k)
        &&& self@.dom().finite()
        &&& self.count == self@.len()
        &&& self.ready_buckets().finite()
        &&& self.list.spec_linked_count() == self.count + self.ready_buckets().len()
        &&& self.count <= LOAD_FACTOR * self.size
    }

    spec fn same_content(&self, pre: Self) -> bool {
        &&& self@ == pre@
        &&& self.size == pre.size
        &&& self.count == pre.count
    }

    /// The number of items is the number of keys of the view, all keys have
    /// their top bit clear, and the number of buckets is a power of two that
    /// the items do not outnumber by more than the load factor.
    pub proof fn law_counts(&self)
        requires
            self.wf(),
        ensures
            self@.dom().finite(),
            self.spec_item_count() == self@.len(),
            self.spec_item_count() <= LOAD_FACTOR * self.spec_bucket_count(),
            is_power_of_two(self.spec_bucket_count()),
            2 <= self.spec_bucket_count() <= KEY_LIMIT,
            forall|k: u64| self@.contains_key(k) ==> k < KEY_LIMIT,
    {
    }

    /// Bucket 0 is set up; a bucket that is set up lies below the number of
    /// buckets, and the bucket it splits off from is set up too, hence all
    /// those it descends from; and the list holds one node for each bucket
    /// that is set up and one for each item.
    pub proof fn law_buckets(&self, index: u64, ancestor: u64)
        requires
            self.wf(),
        ensures
            self.spec_bucket_ready(0),
            self.spec_bucket_ready(index) ==> index < self.spec_bucket_count(),
            self.spec_bucket_ready(index) ==> self.spec_bucket_ready(
                spec_parent_index(self.spec_bucket_count(), index),
            ),
            self.spec_bucket_ready(index) && on_parent_chain(
                self.spec_bucket_count(),
                index,
                ancestor,
            ) ==> self.spec_bucket_ready(ancestor),
            self.ready_buckets().finite(),
            self.spec_linked_count() == self.spec_item_count() + self.ready_buckets().len(),
        decreases index,
    {
        assert(self.bucket_ok(index));
        assert(self.parent_ok(index));
        if index == 0 {
            lemma_parent_chain(self.size, 0, ancestor);
            lemma_halving_le(self.size, 0);
        } else if self.spec_bucket_ready(index) {
            lemma_parent_before(self.size, index);
            self.law_buckets(spec_parent_index(self.size, index), ancestor);
        }
    }

    /// The list holds the sentinels of the buckets that are set up, the
    /// items, and nothing else: an ordering key with the lowest bit clear is
    /// in it exactly if the bucket that it is the sentinel key of is set up,
    /// and then without a value; one with the lowest bit set exactly if the
    /// key that it is the ordering key of is in the map, and then with the
    /// value of that key.
    pub proof fn law_nodes(&self, ord: u64)
        requires
            self.wf(),
        ensures
            ord & 1 == 0 ==> (self.nodes().contains_key(ord) <==> self.spec_bucket_ready(
                reversed(ord),
            )),
            ord & 1 == 0 && self.nodes().contains_key(ord) ==> self.nodes()[ord] is None,
            ord & 1 != 0 ==> (self.nodes().contains_key(ord) <==> self@.contains_key(
                reversed(ord ^ 1),
            )),
            ord & 1 != 0 && self.nodes().contains_key(ord) ==> self.nodes()[ord] == Some(
                self@[reversed(ord ^ 1)],
            ),
    {
        lemma_key_of_ord(ord);
        if ord & 1 == 0 {
            let index = reversed(ord);
            assert(self.recorded(index));
            assert(self.bucket_ok(index));
            if self.spec_bucket_ready(index) {
                self.list.lemma_linked_in_view(self.buckets.value_at(index));
            }
            if self.list@.contains_key(ord) {
                assert(self.kind_ok(ord));
            }
        } else {
            if self.list@.contains_key(ord) {
                assert(self.kind_ok(ord));
            }
        }
    }

    proof fn lemma_same_ready(&self, pre: Self)
        requires
            forall|i: u64| #[trigger] self.buckets.value_at(i) == pre.buckets.value_at(i),
            self.size == pre.size,
            forall|i: u64| #[trigger] pre.parent_ok(i),
        ensures
            self.ready_buckets() == pre.ready_buckets(),
            forall|i: u64| #[trigger] self.spec_bucket_ready(i) == pre.spec_bucket_ready(i),
            forall|i: u64| #[trigger] self.parent_ok(i),
    {
        assert forall|i: u64| #[trigger] self.spec_bucket_ready(i) == pre.spec_bucket_ready(
            i,
        ) by {
            assert(self.buckets.value_at(i) == pre.buckets.value_at(i));
        }
        assert forall|i: u64| #[trigger] self.parent_ok(i) by {
            assert(pre.parent_ok(i));
            assert(self.spec_bucket_ready(i) == pre.spec_bucket_ready(i));
            let up = spec_parent_index(self.size, i);
            assert(self.spec_bucket_ready(up) == pre.spec_bucket_ready(up));
        }
        assert(self.ready_buckets() =~= pre.ready_buckets());
    }

    /// The buckets keep up with the items: the number of buckets is 2 doubled
    /// some number of times, and that number is at least the logarithm to
    /// base 2, rounded down, of the number of items over twice the load
    /// factor.
    pub proof fn law_load_factor_growth(&self) -> (doublings: nat)
        requires
            self.wf(),
        ensures
            self.spec_bucket_count() == 2 * pow2(doublings),
            self.spec_item_count() <= LOAD_FACTOR * self.spec_bucket_count(),
            log(2, self.spec_item_count() as int / (2 * LOAD_FACTOR as int)) <= doublings,
    {
        let e = lemma_exponent(self.size);
        if e == 0 {
            lemma2_to64();
        }
        let doublings = (e - 1) as nat;
        lemma_pow2_unfold(e);
        lemma_pow2(doublings);
        let items = self.count as int;
        let quarter = items / 4;
        assert(quarter <= pow(2, doublings));
        lemma_log_is_ordered(2, quarter, pow(2, doublings));
        lemma_log_pow(2, doublings);
        doublings
    }

    proof fn lemma_view_kept(&self, pre: Self, key: u64)
        requires
            key & 1 == 0,
            self.list@ == pre.list@.insert(key, None),
            !pre.list@.contains_key(key),
        ensures
            self@ == pre@,
    {
        assert forall|k: u64| k < KEY_LIMIT implies spec_ord_key(k) != key by {
            lemma_key_kinds(0, k);
        }
        assert(self@ =~= pre@);
    }

    /// An empty map with 2 buckets, of which bucket 0 is set up and no
    /// other: the list holds the sentinel of bucket 0 and nothing else.
    pub fn new() -> (map: Self)
        ensures
            map.wf(),
            map@ == Map::<u64, V>::empty(),
            map.spec_bucket_count() == 2,
            map.spec_item_count() == 0,
            forall|i: u64| #[trigger] map.spec_bucket_ready(i) <==> i == 0,
            map.spec_linked_count() == 1,
            map.nodes() == Map::<u64, Option<V>>::empty().insert(0, None),
    {
        let mut list = List::new();
        let mut buckets = GrowableArray::new();
        let mut cursor = list.head();
        let key = sentinel_key(0);
        proof {
            lemma_sentinel_of_zero();
        }
        list.find(&mut cursor, key);
        let node = list.insert(&mut cursor, key, None);
        let ghost fresh = buckets;
        let slot = buckets.get(0);
        let ghost got = buckets;
        proof {
            assert(got.slot_at(0) == Some(slot));
        }
        buckets.store(slot, node);
        let map = SplitOrderedList { list, buckets, size: 2, count: 0 };
        proof {
            assert(is_power_of_two(2)) by (bit_vector);
            list.lemma_linked_in_view(node);
            assert forall|i: u64| #[trigger] map.bucket_ok(i) by {
                assert(got.value_at(i) == fresh.value_at(i));
                assert(fresh.slot_at(i) is None);
                if got.slot_at(i) == Some(slot) {
                    got.lemma_slots_differ(i, 0);
                }
            }
            assert forall|k: u64| #[trigger] map.list@.contains_key(k) implies map.kind_ok(k) by {
                assert(0u64 & 1 == 0) by (bit_vector);
            }
            assert forall|i: u64| #[trigger] map.recorded(i) by {
                if spec_sentinel_key(i) == key {
                    lemma_reversed_injective(i, 0);
                }
            }
            assert forall|k: u64| k < KEY_LIMIT implies spec_ord_key(k) != key by {
                lemma_key_kinds(0, k);
            }
            assert(map@ =~= Map::<u64, V>::empty());
            assert forall|i: u64| #[trigger] map.spec_bucket_ready(i) <==> i == 0 by {
                assert(got.value_at(i) == fresh.value_at(i));
                assert(fresh.slot_at(i) is None);
                if got.slot_at(i) == Some(slot) {
                    got.lemma_slots_differ(i, 0);
                }
            }
            assert forall|i: u64| #[trigger] map.parent_ok(i) by {
                assert(map.spec_bucket_ready(i) <==> i == 0);
            }
            assert(map.ready_buckets() =~= set![0u64]);
        }
        map
    }

    /// The number of buckets.
    pub fn bucket_count(&self) -> (count: u64)
        ensures
            count == self.spec_bucket_count(),
    {
        self.size
    }

    /// The number of items.
    pub fn item_count(&self) -> (count: usize)
        ensures
            count == self.spec_item_count(),
    {
        self.count
    }

    /// The number of nodes in the list: sentinels and items.
    pub fn linked_count(&self) -> (count: usize)
        requires
            self.wf(),
        ensures
            count == self.spec_linked_count(),
    {
        self.list.linked_count()
    }

    /// Whether bucket `index` is set up.
    pub fn bucket_ready(&self, index: u64) -> (ready: bool)
        requires
            self.wf(),
        ensures
            ready == self.spec_bucket_ready(index),
    {
        self.buckets.peek(index) != NULL
    }

    /// The position just after the sentinel of bucket `index`. Sets the
    /// bucket up first if it never was.
    fn lookup_bucket(&mut self, index: u64) -> (cursor: Cursor)
        requires
            old(self).wf(),
            index < old(self).size,
        ensures
            final(self).wf(),
            final(self).same_content(*old(self)),
            final(self).list.holds(cursor),
            cursor.prev != NULL,
            final(self).list.linked(cursor.prev),
            final(self).list.key_of(cursor.prev) == spec_sentinel_key(index),
            final(self).spec_bucket_ready(index),
            final(self).ready_after(*old(self), index),
        decreases index, 1nat,
    {
        let ghost pre = *self;
        let slot = self.buckets.get(index);
        proof {
            assert(self.buckets.slot_at(index) == Some(slot));
            assert forall|i: u64| #[trigger] self.bucket_ok(i) by {
                assert(pre.bucket_ok(i));
                assert(self.buckets.value_at(i) == pre.buckets.value_at(i));
            }
            assert forall|i: u64| #[trigger] self.recorded(i) by {
                assert(pre.recorded(i));
                assert(self.buckets.value_at(i) == pre.buckets.value_at(i));
            }
            assert(self.buckets.value_at(0) == pre.buckets.value_at(0));
            assert(self@ =~= pre@);
            self.lemma_same_ready(pre);
        }
        let ghost got = *self;
        let word = self.buckets.load(slot);
        if word == NULL {
            proof {
                assert(self.buckets.value_at(index) == NULL);
            }
            let cursor = self.initialize_bucket(index);
            proof {
                assert forall|i: u64| #[trigger]
                    self.spec_bucket_ready(i) <==> pre.spec_bucket_ready(i) || on_parent_chain(
                        pre.size,
                        index,
                        i,
                    ) by {
                    assert(got.spec_bucket_ready(i) == pre.spec_bucket_ready(i));
                }
            }
            cursor
        } else {
            proof {
                assert(self.bucket_ok(index));
                assert forall|i: u64| #[trigger]
                    self.spec_bucket_ready(i) <==> pre.spec_bucket_ready(i) || on_parent_chain(
                        pre.size,
                        index,
                        i,
                    ) by {
                    if on_parent_chain(pre.size, index, i) {
                        self.law_buckets(index, i);
                    }
                }
            }
            self.list.cursor_after(word)
        }
    }

    /// Sets up bucket `index`, which is not set up: finds, from the sentinel
    /// of the parent bucket, the place of the bucket's own sentinel, links the
    /// sentinel there and records it in the array. Returns the position just
    /// after the sentinel.
    fn initialize_bucket(&mut self, index: u64) -> (cursor: Cursor)
        requires
            old(self).wf(),
            0 < index < old(self).size,
            old(self).buckets.value_at(index) == NULL,
        ensures
            final(self).wf(),
            final(self).same_content(*old(self)),
            final(self).list.holds(cursor),
            cursor.prev != NULL,
            final(self).list.linked(cursor.prev),
            final(self).list.key_of(cursor.prev) == spec_sentinel_key(index),
            final(self).spec_bucket_ready(index),
            final(self).ready_after(*old(self), index),
        decreases index, 0nat,
    {
        let parent = parent_index(self.size, index);
        proof {
            lemma_parent_before(self.size, index);
        }
        let ghost start = *self;
        let mut cursor = self.lookup_bucket(parent);
        proof {
            lemma_parent_chain(self.size, parent, index);
            assert(self.spec_bucket_ready(index) == start.spec_bucket_ready(index));
            assert(self.recorded(index));
        }
        let key = sentinel_key(index);
        self.list.find(&mut cursor, key);
        let ghost pre = *self;
        let node = self.list.insert(&mut cursor, key, None);
        let slot = self.buckets.get(index);
        let ghost got = self.buckets;
        proof {
            assert(got.slot_at(index) == Some(slot));
        }
        self.buckets.store(slot, node);
        proof {
            lemma_key_kinds(index, 0);
            self.lemma_view_kept(pre, key);
            assert forall|i: u64| #[trigger] self.bucket_ok(i) by {
                assert(pre.bucket_ok(i));
                assert(got.value_at(i) == pre.buckets.value_at(i));
                if got.slot_at(i) == Some(slot) {
                    got.lemma_slots_differ(i, index);
                }
            }
            assert forall|i: u64| #[trigger] self.recorded(i) by {
                assert(pre.recorded(i));
                assert(got.value_at(i) == pre.buckets.value_at(i));
                if got.slot_at(i) == Some(slot) {
                    got.lemma_slots_differ(i, index);
                }
                if spec_sentinel_key(i) == key {
                    lemma_reversed_injective(i, index);
                }
                self.list.lemma_linked_in_view(node);
            }
            assert(got.value_at(0) == pre.buckets.value_at(0));
            assert forall|k: u64| #[trigger] self.list@.contains_key(k) implies self.kind_ok(
                k,
            ) by {
                if k != key {
                    assert(pre.list@.contains_key(k));
                    assert(pre.kind_ok(k));
                }
            }
            self.list.lemma_linked_in_view(node);
            assert forall|i: u64| #[trigger]
                self.spec_bucket_ready(i) <==> pre.spec_bucket_ready(i) || i == index by {
                assert(got.value_at(i) == pre.buckets.value_at(i));
                if got.slot_at(i) == Some(slot) {
                    got.lemma_slots_differ(i, index);
                }
            }
            assert forall|i: u64| #[trigger]
                self.spec_bucket_ready(i) <==> start.spec_bucket_ready(i) || on_parent_chain(
                    start.size,
                    index,
                    i,
                ) by {
                assert(self.spec_bucket_ready(i) <==> pre.spec_bucket_ready(i) || i == index);
                assert(pre.spec_bucket_ready(i) <==> start.spec_bucket_ready(i)
                    || on_parent_chain(start.size, parent, i));
            }
            assert forall|i: u64| #[trigger] self.parent_ok(i) by {
                assert(pre.parent_ok(i));
                let up = spec_parent_index(self.size, i);
                assert(self.spec_bucket_ready(i) <==> pre.spec_bucket_ready(i) || i == index);
                assert(self.spec_bucket_ready(up) <==> pre.spec_bucket_ready(up) || up == index);
            }
            assert(self.ready_buckets() =~= pre.ready_buckets().insert(index));
        }
        self.list.cursor_after(node)
    }

    /// Goes to the place of `key` in the list: the bucket count that gave
    /// the bucket, whether the key is there, and the position reached.
    fn find(&mut self, key: u64) -> (found: (u64, bool, Cursor))
        requires
            old(self).wf(),
            key < KEY_LIMIT,
        ensures
            final(self).wf(),
            final(self).same_content(*old(self)),
            found.0 == old(self).size,
            found.1 == old(self)@.contains_key(key),
            final(self).list.holds(found.2),
            found.1 ==> found.2.curr != NULL,
            found.1 ==> final(self).list.linked(found.2.curr) && final(self).list.key_of(
                found.2.curr,
            ) == spec_ord_key(key) && final(self).list.value_of(found.2.curr) == Some(
                old(self)@[key],
            ),
            !found.1 ==> final(self).list.gap(found.2, spec_ord_key(key)),
            final(self).spec_bucket_ready((key % old(self).size) as u64),
            final(self).ready_after(*old(self), (key % old(self).size) as u64),
    {
        let size = self.size;
        let index = key % size;
        proof {
            lemma_bucket_before_key(size, key);
        }
        let mut cursor = self.lookup_bucket(index);
        let ord = ord_key(key);
        let found = self.list.find(&mut cursor, ord);
        proof {
            if found {
                self.list.lemma_view_is_linked(ord);
                self.list.lemma_linked_in_view(cursor.curr);
                assert(self.kind_ok(ord));
                lemma_key_kinds(0, key);
            }
        }
        (size, found, cursor)
    }

    /// The value stored under `key`, if there is one. The search starts at
    /// the sentinel of bucket `key mod bucket_count`; that bucket and those
    /// it descends from are set up on the way unless they are. The map holds
    /// the same items afterwards.
    pub fn lookup(&mut self, key: u64) -> (value: Option<&V>)
        requires
            old(self).wf(),
            key < KEY_LIMIT,
        ensures
            final(self).wf(),
            final(self)@ == old(self)@,
            final(self).spec_bucket_count() == old(self).spec_bucket_count(),
            final(self).spec_item_count() == old(self).spec_item_count(),
            value is Some <==> old(self)@.contains_key(key),
            value is Some ==> Some(*value.unwrap()) == lookup_result(old(self)@, key),
            value is None ==> lookup_result(old(self)@, key) is None,
            final(self).spec_bucket_ready((key % old(self).spec_bucket_count()) as u64),
            final(self).ready_after(*old(self), (key % old(self).spec_bucket_count()) as u64),
    {
        let (_, found, cursor) = self.find(key);
        if found {
            self.list.value(cursor.curr)
        } else {
            None
        }
    }

    /// Stores `value` under `key` unless the key is there already, in which
    /// case no item changes and the value comes back. After a value was
    /// stored, the number of buckets doubles if there are now more than
    /// `LOAD_FACTOR` items for each bucket. The search starts at the
    /// sentinel of bucket `key mod bucket_count`, with the number of buckets
    /// as it was; that bucket and those it descends from are set up on the
    /// way unless they are.
    pub fn insert(&mut self, key: u64, value: V) -> (result: Result<(), V>)
        requires
            old(self).wf(),
            key < KEY_LIMIT,
        ensures
            final(self).wf(),
            (final(self)@, result) == insert_result(old(self)@, key, value),
            result is Err ==> final(self).spec_item_count() == old(self).spec_item_count()
                && final(self).spec_bucket_count() == old(self).spec_bucket_count(),
            result is Ok ==> final(self).spec_item_count() == old(self).spec_item_count() + 1
                && final(self).spec_bucket_count() == grown_bucket_count(
                old(self).spec_bucket_count(),
                final(self).spec_item_count(),
            ),
            final(self).spec_bucket_ready((key % old(self).spec_bucket_count()) as u64),
            final(self).ready_after(*old(self), (key % old(self).spec_bucket_count()) as u64),
    {
        let ghost pre = *self;
        let (size, found, cursor) = self.find(key);
        if found {
            Err(value)
        } else {
            let ghost mid = *self;
            let mut cursor = cursor;
            let ord = ord_key(key);
            let node = self.list.insert(&mut cursor, ord, Some(value));
            proof {
                lemma_key_kinds(0, key);
                assert forall|k: u64| k < KEY_LIMIT && k != key implies spec_ord_key(k)
                    != ord by {
                    if spec_ord_key(k) == ord {
                        lemma_ord_key_injective(k, key);
                    }
                }
                assert(self@ =~= mid@.insert(key, value));
                self.list.lemma_places();
                assert(mid.ready_buckets().contains(0));
            }
            self.count = self.count + 1;
            if must_double(size, self.count) {
                proof {
                    lemma_double(size);
                }
                self.size = size * 2;
            }
            proof {
                assert forall|i: u64| #[trigger] self.bucket_ok(i) by {
                    assert(mid.bucket_ok(i));
                }
                assert forall|i: u64| #[trigger] self.recorded(i) by {
                    assert(mid.recorded(i));
                    if i < KEY_LIMIT {
                        lemma_key_kinds(i, key);
                    }
                }
                assert forall|k: u64| #[trigger] self.list@.contains_key(k) implies self.kind_ok(
                    k,
                ) by {
                    if k != ord {
                        assert(mid.list@.contains_key(k));
                        assert(mid.kind_ok(k));
                    }
                }
                assert(self@ =~= mid@.insert(key, value));
                assert forall|i: u64| #[trigger] self.parent_ok(i) by {
                    assert(mid.parent_ok(i));
                    assert(mid.bucket_ok(i));
                    if self.size != size && i < size {
                        lemma_parent_of_doubled(size, i, 0);
                    }
                }
                assert(self.ready_buckets() =~= mid.ready_buckets());
                assert forall|i: u64| #[trigger]
                    self.spec_bucket_ready(i) <==> pre.spec_bucket_ready(i) || on_parent_chain(
                        pre.size,
                        (key % pre.size) as u64,
                        i,
                    ) by {
                    assert(self.spec_bucket_ready(i) == mid.spec_bucket_ready(i));
                }
            }
            Ok(())
        }
    }

    /// Removes `key` and hands out the value that was stored under it, or
    /// fails if there is none. The search starts at the sentinel of bucket
    /// `key mod bucket_count`; that bucket and those it descends from are set
    /// up on the way unless they are.
    pub fn delete(&mut self, key: u64) -> (result: Result<V, ()>)
        requires
            old(self).wf(),
            key < KEY_LIMIT,
        ensures
            final(self).wf(),
            (final(self)@, result) == delete_result(old(self)@, key),
            final(self).spec_bucket_count() == old(self).spec_bucket_count(),
            result is Ok ==> final(self).spec_item_count() == old(self).spec_item_count() - 1,
            result is Err ==> final(self).spec_item_count() == old(self).spec_item_count(),
            final(self).spec_bucket_ready((key % old(self).spec_bucket_count()) as u64),
            final(self).ready_after(*old(self), (key % old(self).spec_bucket_count()) as u64),
    {
        let (_, found, cursor) = self.find(key);
        if found {
            let ghost mid = *self;
            let mut cursor = cursor;
            let ghost ord = spec_ord_key(key);
            let taken = self.list.delete(&mut cursor);
            proof {
                lemma_key_kinds(0, key);
                assert forall|k: u64| k < KEY_LIMIT && k != key implies spec_ord_key(k)
                    != ord by {
                    if spec_ord_key(k) == ord {
                        lemma_ord_key_injective(k, key);
                    }
                }
                assert(self@ =~= mid@.remove(key));
                assert(mid@.dom().contains(key));
            }
            self.count = self.count - 1;
            proof {
                assert forall|i: u64| #[trigger] self.bucket_ok(i) by {
                    assert(mid.bucket_ok(i));
                }
                assert forall|i: u64| #[trigger] self.recorded(i) by {
                    assert(mid.recorded(i));
                }
                assert forall|k: u64| #[trigger] self.list@.contains_key(k) implies self.kind_ok(
                    k,
                ) by {
                    assert(mid.list@.contains_key(k));
                    assert(mid.kind_ok(k));
                }
                assert(self@ =~= mid@.remove(key));
                assert forall|i: u64| #[trigger] self.parent_ok(i) by {
                    assert(mid.parent_ok(i));
                }
                assert(self.ready_buckets() =~= mid.ready_buckets());
                assert forall|i: u64| #[trigger]
                    self.spec_bucket_ready(i) <==> old(self).spec_bucket_ready(i)
                        || on_parent_chain(old(self).size, (key % old(self).size) as u64, i) by {
                    assert(self.spec_bucket_ready(i) == mid.spec_bucket_ready(i));
                }
            }
            Ok(taken.unwrap())
        } else {
            Err(())
        }
    }
}

impl<V> Default for SplitOrderedList<V> {
    /// An empty map with 2 buckets, of which bucket 0 is set up and no
    /// other.
    fn default() -> (map: Self)
        ensures
            map.wf(),
            map@ == Map::<u64, V>::empty(),
            map.spec_bucket_count() == 2,
            map.spec_item_count() == 0,
            forall|i: u64| #[trigger] map.spec_bucket_ready(i) <==> i == 0,
            map.spec_linked_count() == 1,
            map.nodes() == Map::<u64, Option<V>>::empty().insert(0, None),
    {
        SplitOrderedList::new()
    }
}

} // verus!
