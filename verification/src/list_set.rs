//! A set kept as a list in strictly ascending order.

use vstd::prelude::*;
use crate::order::{lawful, lemma_less_transitive, lemma_three_ways, less, same};

verus! {

/// The set: its elements in ascending order, no two of them the same.
#[derive(Debug)]
pub struct OrderedListSet<T> {
    items: Vec<T>,
}

/// A walk over the elements of a set, in ascending order.
#[derive(Debug)]
pub struct Iter<'l, T> {
    items: &'l Vec<T>,
    at: usize,
}

/// Number of elements of `s` that are less than `key`: where `key` stands,
/// or would stand, in an ascending `s`.
pub open spec fn rank<T: Ord>(s: Seq<T>, key: T) -> nat
    decreases s.len(),
{
    if s.len() == 0 {
        0
    } else {
        rank(s.drop_last(), key) + if less(s.last(), key) {
            1nat
        } else {
            0nat
        }
    }
}

/// Whether `s` ascends strictly.
pub open spec fn ascending<T: Ord>(s: Seq<T>) -> bool {
    forall|i: int, j: int| 0 <= i < j < s.len() ==> less(#[trigger] s[i], #[trigger] s[j])
}

/// Whether some element of `s` is the same as `key`.
pub open spec fn member<T: Ord>(s: Seq<T>, key: T) -> bool {
    exists|i: int| 0 <= i < s.len() && same(#[trigger] s[i], key)
}

/// In an ascending sequence, the rank of a key is the place up to which
/// everything is less than the key and from which nothing is.
pub proof fn lemma_rank_at<T: Ord>(s: Seq<T>, key: T, p: int)
    requires
        lawful::<T>(),
        0 <= p <= s.len(),
        forall|i: int| 0 <= i < p ==> less(#[trigger] s[i], key),
        forall|i: int| p <= i < s.len() ==> !less(#[trigger] s[i], key),
    ensures
        rank(s, key) == p,
    decreases s.len(),
{
    if s.len() > 0 {
        let front = s.drop_last();
        if p == s.len() {
            lemma_rank_at(front, key, p - 1);
        } else {
            lemma_rank_at(front, key, p);
        }
    }
}

/// In an ascending sequence, only the element at the rank of a key can be
/// the same as the key.
pub proof fn lemma_member_at_rank<T: Ord>(s: Seq<T>, key: T, p: int)
    requires
        lawful::<T>(),
        ascending(s),
        0 <= p <= s.len(),
        forall|i: int| 0 <= i < p ==> less(#[trigger] s[i], key),
        p < s.len() ==> !less(s[p], key),
    ensures
        rank(s, key) == p,
        member(s, key) <==> p < s.len() && same(s[p], key),
        forall|i: int| p < i < s.len() ==> less(key, #[trigger] s[i]),
{
    assert forall|i: int| p < i < s.len() implies less(key, #[trigger] s[i]) by {
        lemma_three_ways(s[p], key);
        assert(less(s[p], s[i]));
        if same(s[p], key) {
            lemma_three_ways(s[i], key);
            if less(s[i], key) {
                lemma_less_transitive(s[p], s[i], key);
            }
            if same(s[i], key) {
                lemma_same_chain(s[p], key, s[i]);
                lemma_three_ways(s[p], s[i]);
            }
        } else {
            lemma_three_ways(key, s[p]);
            lemma_less_transitive(key, s[p], s[i]);
        }
    }
    assert forall|i: int| p <= i < s.len() implies !less(#[trigger] s[i], key) by {
        if i > p {
            lemma_three_ways(s[i], key);
        }
    }
    lemma_rank_at(s, key, p);
    if member(s, key) {
        let i = choose|i: int| 0 <= i < s.len() && same(#[trigger] s[i], key);
        lemma_three_ways(s[i], key);
    }
}

/// Two values that are the same as a third are the same as each other.
pub proof fn lemma_same_chain<T: Ord>(a: T, b: T, c: T)
    requires
        lawful::<T>(),
        same(a, b),
        same(c, b),
    ensures
        same(a, c),
{
    reveal(vstd::laws_eq::obeys_eq_spec_properties);
    lemma_three_ways(c, b);
}

impl<T> OrderedListSet<T> {
    /// The elements, in ascending order.
    pub closed spec fn view(&self) -> Seq<T> {
        self.items@
    }

    /// An empty set.
    pub fn new() -> (set: Self)
        ensures
            set@ == Seq::<T>::empty(),
    {
        OrderedListSet { items: Vec::new() }
    }

    /// A walk over the elements, in ascending order.
    pub fn iter(&self) -> (iter: Iter<'_, T>)
        ensures
            iter.wf(),
            iter.rest() == self@,
    {
        let iter = Iter { items: &self.items, at: 0 };
        proof {
            assert(iter.rest() =~= self@);
        }
        iter
    }

    /// Number of elements.
    pub fn len(&self) -> (count: usize)
        ensures
            count == self@.len(),
    {
        self.items.len()
    }
}

impl<T: Ord> OrderedListSet<T> {
    /// The invariant of the set: its elements ascend strictly.
    pub open spec fn wf(&self) -> bool {
        ascending(self@)
    }

    /// Where `key` stands or would stand, and whether it is there.
    pub fn find(&self, key: &T) -> (found: (bool, usize))
        requires
            lawful::<T>(),
            self.wf(),
        ensures
            found.0 == member(self@, *key),
            found.1 == rank(self@, *key),
            found.1 <= self@.len(),
            found.0 ==> found.1 < self@.len() && same(self@[found.1 as int], *key),
            forall|i: int| 0 <= i < found.1 ==> less(#[trigger] self@[i], *key),
            forall|i: int| found.1 <= i < self@.len() && !(found.0 && i == found.1) ==> less(
                *key,
                #[trigger] self@[i],
            ),
    {
        let mut at: usize = 0;
        let mut found = false;
        while at < self.items.len()
            invariant_except_break
                !found,
            invariant
                lawful::<T>(),
                at <= self.items@.len(),
                forall|i: int| 0 <= i < at ==> less(#[trigger] self.items@[i], *key),
            ensures
                at < self.items@.len() ==> !less(self.items@[at as int], *key),
                found <==> at < self.items@.len() && same(self.items@[at as int], *key),
            decreases self.items@.len() - at,
        {
            proof {
                lemma_three_ways(self.items@[at as int], *key);
            }
            if self.items[at] == *key {
                found = true;
                break ;
            } else if self.items[at] > *key {
                break ;
            }
            at = at + 1;
        }
        proof {
            lemma_member_at_rank(self@, *key, at as int);
            if at < self@.len() && !found {
                lemma_three_ways(self@[at as int], *key);
            }
        }
        (found, at)
    }

    /// Whether the set holds an element that is the same as `key`.
    pub fn contains(&self, key: &T) -> (found: bool)
        requires
            lawful::<T>(),
            self.wf(),
        ensures
            found == member(self@, *key),
    {
        self.find(key).0
    }

    /// Puts `key` into the set at its place in the order, unless the set
    /// holds an element that is the same: then the set stays as it is and
    /// the key comes back.
    pub fn insert(&mut self, key: T) -> (result: Result<(), T>)
        requires
            lawful::<T>(),
            old(self).wf(),
        ensures
            final(self).wf(),
            member(old(self)@, key) ==> result == Err::<(), T>(key) && final(self)@ == old(self)@,
            !member(old(self)@, key) ==> result is Ok && final(self)@ == old(self)@.insert(
                rank(old(self)@, key) as int,
                key,
            ),
    {
        let (found, at) = self.find(&key);
        if found {
            Err(key)
        } else {
            self.items.insert(at, key);
            proof {
                let before = old(self)@;
                let after = self@;
                assert forall|i: int, j: int| 0 <= i < j < after.len() implies less(
                    #[trigger] after[i],
                    #[trigger] after[j],
                ) by {
                    if j < at {
                        assert(less(before[i], before[j]));
                    } else if j == at {
                        assert(less(before[i], key));
                    } else if i < at {
                        assert(less(before[i], before[j - 1]));
                    } else if i == at {
                        assert(less(key, before[j - 1]));
                    } else {
                        assert(less(before[i - 1], before[j - 1]));
                    }
                }
            }
            Ok(())
        }
    }

    /// Takes the element that is the same as `key` out of the set and hands
    /// it out, or fails if there is none.
    pub fn remove(&mut self, key: &T) -> (result: Result<T, ()>)
        requires
            lawful::<T>(),
            old(self).wf(),
        ensures
            final(self).wf(),
            member(old(self)@, *key) ==> result == Ok::<T, ()>(
                old(self)@[rank(old(self)@, *key) as int],
            ) && final(self)@ == old(self)@.remove(rank(old(self)@, *key) as int),
            !member(old(self)@, *key) ==> result is Err && final(self)@ == old(self)@,
    {
        let (found, at) = self.find(key);
        if found {
            let item = self.items.remove(at);
            proof {
                let before = old(self)@;
                let after = self@;
                assert forall|i: int, j: int| 0 <= i < j < after.len() implies less(
                    #[trigger] after[i],
                    #[trigger] after[j],
                ) by {
                    if j < at {
                        assert(less(before[i], before[j]));
                    } else if i < at {
                        assert(less(before[i], before[j + 1]));
                    } else {
                        assert(less(before[i + 1], before[j + 1]));
                    }
                }
            }
            Ok(item)
        } else {
            Err(())
        }
    }
}

impl<'l, T> Iter<'l, T> {
    /// The elements that the walk has still to give, in the order in which
    /// it gives them.
    pub closed spec fn rest(&self) -> Seq<T> {
        self.items@.subrange(self.at as int, self.items@.len() as int)
    }

    /// Whether the walk stands inside its set.
    pub closed spec fn wf(&self) -> bool {
        self.at <= self.items@.len()
    }

    /// The next element, or `None` when all were given.
    pub fn next(&mut self) -> (item: Option<&'l T>)
        requires
            old(self).wf(),
        ensures
            final(self).wf(),
            old(self).rest().len() == 0 ==> item is None && final(self).rest() == old(self).rest(),
            old(self).rest().len() > 0 ==> item is Some && *item.unwrap() == old(self).rest()[0]
                && final(self).rest() == old(self).rest().drop_first(),
    {
        if self.at < self.items.len() {
            let item = &self.items[self.at];
            self.at = self.at + 1;
            proof {
                assert(self.rest() =~= old(self).rest().drop_first());
            }
            Some(item)
        } else {
            None
        }
    }
}

impl<T> Default for OrderedListSet<T> {
    /// An empty set.
    fn default() -> (set: Self)
        ensures
            set@ == Seq::<T>::empty(),
    {
        OrderedListSet::new()
    }
}

} // verus!
