//! The list of addresses that one thread has retired and not yet freed.
//!
//! An address is retired together with what will free it. It may be freed
//! once no hazard pointer protects it. The list does not free anything
//! itself: `collect` hands out what may be freed now and keeps the rest.

use vstd::prelude::*;
use std::collections::HashSet;

verus! {

/// `retire` asks for a `collect` once the list is longer than this.
pub const THRESHOLD: usize = 64;

/// The retired addresses, each with what frees it, oldest first.
#[derive(Debug)]
pub struct Retirees<D> {
    inner: Vec<(usize, D)>,
}

/// The address in the pointer word `data` of an object aligned to `align`
/// bytes: the word without the tag that its low bits may carry.
pub fn untagged(data: usize, align: usize) -> (address: usize)
    requires
        align > 0,
    ensures
        address == data - data % align,
        address % align == 0,
        address <= data < address + align,
{
    let tag = data % align;
    proof {
        assert(0 <= data % align <= data && data % align < align && (data - data % align) % (
        align as int) == 0) by (nonlinear_arith)
            requires
                align > 0,
                data >= 0,
        ;
    }
    data - tag
}

/// Whether the address of an entry is among `hazards`.
pub open spec fn protected<D>(hazards: Set<usize>) -> spec_fn((usize, D)) -> bool {
    |entry: (usize, D)| hazards.contains(entry.0)
}

/// Whether the address of an entry is not among `hazards`.
pub open spec fn unprotected<D>(hazards: Set<usize>) -> spec_fn((usize, D)) -> bool {
    |entry: (usize, D)| !hazards.contains(entry.0)
}

impl<D> Retirees<D> {
    /// The entries, oldest first.
    pub closed spec fn view(&self) -> Seq<(usize, D)> {
        self.inner@
    }

    /// An empty list.
    pub fn new() -> (retirees: Self)
        ensures
            retirees@ == Seq::<(usize, D)>::empty(),
    {
        Retirees { inner: Vec::new() }
    }

    /// Number of entries.
    pub fn len(&self) -> (count: usize)
        ensures
            count == self@.len(),
    {
        self.inner.len()
    }

    /// Whether there is no entry.
    pub fn is_empty(&self) -> (empty: bool)
        ensures
            empty == (self@.len() == 0),
    {
        self.inner.len() == 0
    }

    /// Adds the address `pointer`, to be freed by `dropper`. Tells whether
    /// the list has grown beyond `THRESHOLD`, so that a `collect` is due.
    pub fn retire(&mut self, pointer: usize, dropper: D) -> (due: bool)
        ensures
            final(self)@ == old(self)@.push((pointer, dropper)),
            due == (final(self)@.len() > THRESHOLD),
    {
        self.inner.push((pointer, dropper));
        self.inner.len() > THRESHOLD
    }

    /// Takes the entries from the newest to the oldest and hands out those
    /// whose address is not in `hazards`; they may be freed. The others stay,
    /// now newest first.
    pub fn collect(&mut self, hazards: &HashSet<usize>) -> (freed: Vec<(usize, D)>)
        ensures
            final(self)@ == old(self)@.reverse().filter(protected(hazards@)),
            freed@ == old(self)@.reverse().filter(unprotected(hazards@)),
    {
        broadcast use vstd::std_specs::hash::group_hash_axioms;

        let ghost all = self.inner@;
        let mut kept: Vec<(usize, D)> = Vec::new();
        let mut freed: Vec<(usize, D)> = Vec::new();
        proof {
            reveal(Seq::filter);
            assert(all.subrange(all.len() as int, all.len() as int).reverse() =~= Seq::empty());
        }
        while self.inner.len() > 0
            invariant
                self.inner@.len() <= all.len(),
                self.inner@ == all.subrange(0, self.inner@.len() as int),
                kept@ == all.subrange(self.inner@.len() as int, all.len() as int).reverse().filter(
                    protected(hazards@),
                ),
                freed@ == all.subrange(
                    self.inner@.len() as int,
                    all.len() as int,
                ).reverse().filter(unprotected(hazards@)),
            decreases self.inner@.len(),
        {
            let ghost n = self.inner@.len() as int;
            let entry = self.inner.pop().unwrap();
            proof {
                let done = all.subrange(n, all.len() as int).reverse();
                let next = all.subrange(n - 1, all.len() as int).reverse();
                assert(next =~= done.push(entry));
                assert(next.drop_last() =~= done);
                reveal(Seq::filter);
                assert(self.inner@ =~= all.subrange(0, n - 1));
            }
            if hazards.contains(&entry.0) {
                kept.push(entry);
            } else {
                freed.push(entry);
            }
        }
        proof {
            assert(all.subrange(0, all.len() as int) =~= all);
        }
        self.inner = kept;
        freed
    }
}

} // verus!
