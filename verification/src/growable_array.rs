//! A growable array of machine-word slots, stored as a tree of fixed-size
//! segments.
//!
//! The array starts empty. Asking for the slot of an index makes the tree as
//! tall as the index needs and creates the segments on the way down to the
//! slot. A segment of height 1 holds the slots themselves; a taller segment
//! holds the handles of its children. Whether a word is a child handle or a
//! caller's value is decided by the height of the segment it sits in, never
//! by the word. Segments are never removed before the array is torn down, so a
//! slot, once handed out, stays where it is.

use vstd::prelude::*;

verus! {

/// Number of index bits that one segment resolves.
pub const SEGMENT_LOGSIZE: usize = 10;

/// Number of slots in a segment.
pub const SEGMENT_SIZE: usize = 1024;

/// The tallest tree a 64-bit index can ask for.
pub const MAX_HEIGHT: usize = 7;

/// The word of an empty slot.
pub const NULL: usize = usize::MAX;

/// `index` without its `level` lowest digits in base `SEGMENT_SIZE`.
pub open spec fn prefix_at(index: nat, level: nat) -> nat
    decreases level,
{
    if level == 0 {
        index
    } else {
        prefix_at(index / 1024, (level - 1) as nat)
    }
}

/// Number of base-`SEGMENT_SIZE` digits of `index`: the height a tree needs
/// to reach it. Zero needs none.
pub open spec fn levels_for(index: nat) -> nat
    decreases index,
{
    if index == 0 {
        0
    } else {
        1 + levels_for(index / 1024)
    }
}

/// Dropping one more digit divides the prefix by the segment size.
pub proof fn lemma_prefix_step(index: nat, level: nat)
    ensures
        prefix_at(index, level + 1) == prefix_at(index, level) / 1024,
    decreases level,
{
    assert(prefix_at(index, level + 1) == prefix_at(index / 1024, level));
    if level > 0 {
        lemma_prefix_step(index / 1024, (level - 1) as nat);
        assert(prefix_at(index, level) == prefix_at(index / 1024, (level - 1) as nat));
    }
}

/// Every prefix of zero is zero.
pub proof fn lemma_prefix_of_zero(level: nat)
    ensures
        prefix_at(0, level) == 0,
    decreases level,
{
    if level > 0 {
        lemma_prefix_of_zero((level - 1) as nat);
    }
}

/// A tree of `level` levels reaches `index` exactly when nothing of the
/// index is left above its `level` lowest digits.
pub proof fn lemma_levels_prefix(index: nat, level: nat)
    ensures
        levels_for(index) <= level <==> prefix_at(index, level) == 0,
    decreases level,
{
    if level > 0 {
        lemma_levels_prefix(index / 1024, (level - 1) as nat);
    }
}

/// No 64-bit index needs more than `MAX_HEIGHT` levels.
pub proof fn lemma_levels_bounded(index: u64)
    ensures
        levels_for(index as nat) <= 7,
{
    let i0 = index as nat;
    let i1 = i0 / 1024;
    let i2 = i1 / 1024;
    let i3 = i2 / 1024;
    let i4 = i3 / 1024;
    let i5 = i4 / 1024;
    let i6 = i5 / 1024;
    let i7 = i6 / 1024;
    assert(i7 == 0);
    assert(levels_for(i7) == 0);
    assert(levels_for(i6) <= 1);
    assert(levels_for(i5) <= 2);
    assert(levels_for(i4) <= 3);
    assert(levels_for(i3) <= 4);
    assert(levels_for(i2) <= 5);
    assert(levels_for(i1) <= 6);
}

/// A right shift by whole digits computes the prefix.
pub proof fn lemma_shift_prefix(index: u64, level: nat)
    requires
        level <= 6,
    ensures
        index >> ((10 * level) as u64) == prefix_at(index as nat, level),
    decreases level,
{
    if level == 0 {
        assert(index >> 0u64 == index) by (bit_vector);
    } else {
        let below = (level - 1) as nat;
        lemma_shift_prefix(index, below);
        lemma_prefix_step(index as nat, below);
        let a: u64 = (10 * below) as u64;
        assert(index >> ((a + 10) as u64) == (index >> a) / 1024) by (bit_vector)
            requires
                a <= 50,
        ;
    }
}

/// The height of a tree of height `height` after the slot of `index` was
/// asked for: at least 1, tall enough for the index, and no taller than it
/// was or has to be.
pub open spec fn height_after(height: nat, index: u64) -> nat {
    if height >= levels_for(index as nat) && height >= 1 {
        height
    } else if levels_for(index as nat) >= 1 {
        levels_for(index as nat)
    } else {
        1
    }
}

/// The height that a tree must have before it can hold `index`.
pub fn height_required(index: u64) -> (height: usize)
    ensures
        height == levels_for(index as nat),
        height <= MAX_HEIGHT,
{
    let mut rest: u64 = index;
    let mut height: usize = 0;
    proof {
        lemma_levels_bounded(index);
    }
    while rest != 0
        invariant
            height + levels_for(rest as nat) == levels_for(index as nat),
            levels_for(index as nat) <= 7,
        decreases rest,
    {
        rest = rest / (SEGMENT_SIZE as u64);
        height = height + 1;
    }
    height
}

/// Whether a tree of height `height` has to get a taller root before it can
/// hold `index`: an empty tree always, another one if the index has more
/// digits than the tree has levels.
pub fn must_grow(height: usize, index: u64) -> (grow: bool)
    ensures
        grow == (height == 0 || levels_for(index as nat) > height),
        !grow ==> height_after(height as nat, index) == height,
        grow ==> height_after(height as nat, index) > height,
{
    height == 0 || height_required(index) > height
}

/// The digit of `index` that picks a slot inside a segment of height `level`.
pub fn digit(index: u64, level: usize) -> (d: usize)
    requires
        1 <= level <= MAX_HEIGHT,
    ensures
        d == prefix_at(index as nat, (level - 1) as nat) % 1024,
        d < SEGMENT_SIZE,
{
    let shift: u64 = (SEGMENT_LOGSIZE * (level - 1)) as u64;
    let d: u64 = (index >> shift) & (SEGMENT_SIZE as u64 - 1);
    proof {
        lemma_shift_prefix(index, (level - 1) as nat);
        let x = index >> shift;
        assert(x & 1023 == x % 1024) by (bit_vector);
    }
    d as usize
}

/// One level of the tree: its words, and the height of the subtree it heads.
struct Segment {
    slots: Vec<usize>,
    height: usize,
}

/// Where a segment hangs in the tree: the index prefix it stands for, and
/// the slot of its parent that holds it.
struct Label {
    prefix: nat,
    parent: int,
    digit: int,
}

/// The place of one leaf word: a segment of height 1 and an offset in it.
#[derive(Clone, Copy, Debug, PartialEq, Eq, Structural)]
pub struct Slot {
    pub segment: usize,
    pub offset: usize,
}

/// What a word of a segment is, told by the height of that segment.
#[derive(Clone, Copy, Debug, PartialEq, Eq, Structural)]
pub enum Entry {
    /// Nothing was ever put here.
    Empty,
    /// The handle of a child segment; only in segments taller than 1.
    Child(usize),
    /// A caller's word; only in segments of height 1.
    Leaf(usize),
}

/// The growable array. It owns its segments, and nothing of what the leaf
/// words may refer to.
pub struct GrowableArray {
    segments: Vec<Segment>,
    root: usize,
    labels: Ghost<Seq<Label>>,
    dir: Ghost<Map<(nat, nat), int>>,
}

impl GrowableArray {
    /// Number of segments allocated so far.
    pub closed spec fn spec_segment_count(&self) -> nat {
        self.segments@.len()
    }

    /// Number of levels of the tree; 0 while the array is empty.
    pub closed spec fn spec_height(&self) -> nat {
        if self.root == NULL {
            0
        } else {
            self.segments@[self.root as int].height as nat
        }
    }

    spec fn level(&self, h: int) -> nat {
        self.segments@[h].height as nat
    }

    spec fn child_ok(&self, h: int, d: int) -> bool {
        let w = self.segments@[h].slots@[d];
        w != NULL ==> {
            &&& w < self.segments@.len()
            &&& self.level(w as int) == self.level(h) - 1
            &&& self.labels@[w as int].prefix == self.labels@[h].prefix * 1024 + d
        }
    }

    spec fn seg_wf(&self, h: int) -> bool {
        let s = self.segments@[h];
        let lab = self.labels@[h];
        &&& s.slots@.len() == 1024
        &&& 1 <= s.height <= self.spec_height()
        &&& self.dir@.contains_key((s.height as nat, lab.prefix))
        &&& self.dir@[(s.height as nat, lab.prefix)] == h
        &&& h != self.root ==> {
            &&& 0 <= lab.parent < self.segments@.len()
            &&& 0 <= lab.digit < 1024
            &&& self.segments@[lab.parent].slots@[lab.digit] == h
            &&& self.level(lab.parent) == s.height + 1
        }
        &&& s.height >= 2 ==> forall|d: int| 0 <= d < 1024 ==> #[trigger] self.child_ok(h, d)
    }

    /// The invariant of the array: heights fall by one from a segment to its
    /// children, every segment but the root hangs in exactly one slot, and no
    /// two segments stand for the same part of the index space.
    pub closed spec fn wf(&self) -> bool {
        &&& self.labels@.len() == self.segments@.len()
        &&& self.segments@.len() <= usize::MAX
        &&& (self.root == NULL <==> self.segments@.len() == 0)
        &&& self.root != NULL ==> {
            &&& self.root < self.segments@.len()
            &&& self.segments@[self.root as int].height <= 7
            &&& self.labels@[self.root as int].prefix == 0
        }
        &&& forall|h: int| 0 <= h < self.segments@.len() ==> #[trigger] self.seg_wf(h)
        &&& forall|l: nat, p: nat| #[trigger]
            self.dir@.contains_key((l, p)) ==> {
                &&& 0 <= self.dir@[(l, p)] < self.segments@.len()
                &&& self.level(self.dir@[(l, p)]) == l
                &&& self.labels@[self.dir@[(l, p)]].prefix == p
            }
    }

    /// The slot that holds the word of `index`, once the segments on the way
    /// to it exist.
    pub closed spec fn slot_at(&self, index: u64) -> Option<Slot> {
        let key = (1nat, (index / 1024) as nat);
        if self.dir@.contains_key(key) {
            Some(Slot { segment: self.dir@[key] as usize, offset: (index % 1024) as usize })
        } else {
            None
        }
    }

    /// Whether `slot` is the slot of some index.
    pub open spec fn valid_slot(&self, slot: Slot) -> bool {
        exists|index: u64| self.slot_at(index) == Some(slot)
    }

    /// The word that `slot` holds.
    pub closed spec fn word(&self, slot: Slot) -> usize {
        self.segments@[slot.segment as int].slots@[slot.offset as int]
    }

    /// The word stored for `index`: `NULL` as long as nothing was stored,
    /// whether or not the slot exists yet.
    pub open spec fn value_at(&self, index: u64) -> usize {
        match self.slot_at(index) {
            Some(slot) => self.word(slot),
            None => NULL,
        }
    }

    /// An empty array: no segment, height 0.
    pub fn new() -> (array: Self)
        ensures
            array.wf(),
            array.spec_height() == 0,
            array.spec_segment_count() == 0,
            forall|index: u64| array.slot_at(index) is None,
            forall|index: u64, level: nat| !array.covered(index, level),
    {
        GrowableArray {
            segments: Vec::new(),
            root: NULL,
            labels: Ghost(Seq::empty()),
            dir: Ghost(Map::empty()),
        }
    }

    /// Number of levels of the tree: none exactly as long as there is no
    /// segment.
    pub fn height(&self) -> (height: usize)
        requires
            self.wf(),
        ensures
            height == self.spec_height(),
            height <= MAX_HEIGHT,
            height >= 1 <==> self.spec_segment_count() > 0,
    {
        proof {
            if self.root != NULL {
                assert(self.seg_wf(self.root as int));
            }
        }
        if self.root == NULL {
            0
        } else {
            self.segments[self.root].height
        }
    }

    /// Number of segments allocated so far.
    pub fn segment_count(&self) -> (count: usize)
        ensures
            count == self.spec_segment_count(),
    {
        self.segments.len()
    }

    /// Whether there is a segment of height `level` on the way to `index`.
    pub closed spec fn covered(&self, index: u64, level: nat) -> bool {
        self.dir@.contains_key((level, prefix_at(index as nat, level)))
    }

    /// Number of heights from 1 up to, but not including, `top` at which
    /// there is no segment on the way to `index`.
    pub open spec fn missing(&self, index: u64, top: nat) -> nat
        decreases top,
    {
        if top <= 1 {
            0
        } else {
            self.missing(index, (top - 1) as nat) + if self.covered(index, (top - 1) as nat) {
                0nat
            } else {
                1nat
            }
        }
    }

    /// How the array may differ from an earlier state `pre` of itself after
    /// slots were asked for: the slots that existed are where they were and
    /// hold what they held.
    pub open spec fn extends(&self, pre: Self) -> bool {
        &&& pre.spec_segment_count() <= self.spec_segment_count()
        &&& pre.spec_height() <= self.spec_height()
        &&& forall|i: u64| #[trigger] pre.slot_at(i) is Some ==> self.slot_at(i) == pre.slot_at(i)
        &&& forall|i: u64| #[trigger] self.value_at(i) == pre.value_at(i)
        &&& forall|s: Slot| pre.valid_slot(s) ==> #[trigger] self.word(s) == pre.word(s)
        &&& forall|i: u64, l: nat| #[trigger] pre.covered(i, l) ==> self.covered(i, l)
    }

    spec fn grown_from(&self, pre: Self, index: u64) -> bool {
        &&& pre.segments@.len() <= self.segments@.len()
        &&& pre.spec_height() <= self.spec_height()
        &&& forall|h: int|
            0 <= h < pre.segments@.len() ==> {
                &&& (#[trigger] self.segments@[h]).height == pre.segments@[h].height
                &&& self.labels@[h].prefix == pre.labels@[h].prefix
                &&& pre.segments@[h].height == 1 ==> self.segments@[h].slots@
                    == pre.segments@[h].slots@
            }
        &&& forall|h: int|
            pre.segments@.len() <= h < self.segments@.len() && (#[trigger] self.segments@[h]).height
                == 1 ==> {
                &&& forall|d: int| 0 <= d < 1024 ==> self.segments@[h].slots@[d] == NULL
                &&& (self.labels@[h].prefix == index / 1024 || (pre.segments@.len() == 0
                    && self.labels@[h].prefix == 0))
            }
        &&& forall|k: (nat, nat)| #[trigger]
            pre.dir@.contains_key(k) ==> self.dir@.contains_key(k) && self.dir@[k] == pre.dir@[k]
        &&& pre.segments@.len() == 0 && self.segments@.len() > 0 ==> self.dir@.contains_key(
            (1nat, 0nat),
        )
    }

    proof fn lemma_grown_transitive(a: Self, b: Self, c: Self, index: u64)
        requires
            b.grown_from(a, index),
            c.grown_from(b, index),
        ensures
            c.grown_from(a, index),
    {
        assert forall|h: int| 0 <= h < a.segments@.len() implies {
            &&& (#[trigger] c.segments@[h]).height == a.segments@[h].height
            &&& c.labels@[h].prefix == a.labels@[h].prefix
            &&& a.segments@[h].height == 1 ==> c.segments@[h].slots@ == a.segments@[h].slots@
        } by {
            assert(b.segments@[h].height == a.segments@[h].height);
            assert(c.segments@[h].height == b.segments@[h].height);
            assert(b.labels@[h].prefix == a.labels@[h].prefix);
            assert(c.labels@[h].prefix == b.labels@[h].prefix);
            if a.segments@[h].height == 1 {
                assert(b.segments@[h].slots@ == a.segments@[h].slots@);
                assert(c.segments@[h].slots@ == b.segments@[h].slots@);
            }
        }
        assert forall|h: int|
            a.segments@.len() <= h < c.segments@.len() && (#[trigger] c.segments@[h]).height
                == 1 implies {
            &&& forall|d: int| 0 <= d < 1024 ==> c.segments@[h].slots@[d] == NULL
            &&& (c.labels@[h].prefix == index / 1024 || (a.segments@.len() == 0
                && c.labels@[h].prefix == 0))
        } by {
            if h < b.segments@.len() {
                assert(c.segments@[h].height == b.segments@[h].height);
            }
        }
    }

    /// From `grown_from` and the invariant on both sides, what callers are told.
    proof fn lemma_grown_extends(&self, pre: Self, index: u64)
        requires
            pre.wf(),
            self.wf(),
            self.grown_from(pre, index),
        ensures
            self.extends(pre),
            forall|i: u64| #[trigger]
                self.slot_at(i) is Some ==> pre.slot_at(i) is Some || i / 1024 == index / 1024 || (
                pre.spec_segment_count() == 0 && i < 1024),
            pre.spec_segment_count() == 0 && self.spec_segment_count() > 0 ==> forall|i: u64|
                i < 1024 ==> #[trigger] self.slot_at(i) is Some,
    {
        assert forall|i: u64, l: nat| #[trigger] pre.covered(i, l) implies self.covered(i, l) by {
            assert(pre.dir@.contains_key((l, prefix_at(i as nat, l))));
        }
        assert forall|i: u64| #[trigger] self.slot_at(i) is Some implies (pre.slot_at(i) is Some
            || i / 1024 == index / 1024 || (pre.spec_segment_count() == 0 && i < 1024)) && (
        pre.slot_at(i) is None ==> self.word(self.slot_at(i).unwrap()) == NULL) by {
            let key = (1nat, (i / 1024) as nat);
            if !pre.dir@.contains_key(key) {
                let h = self.dir@[key];
                assert(self.seg_wf(h));
                if h < pre.segments@.len() {
                    assert(pre.seg_wf(h));
                    assert(self.segments@[h].height == pre.segments@[h].height);
                }
                assert(self.segments@[h].height == 1);
            }
        }
        assert forall|i: u64| #[trigger] pre.slot_at(i) is Some implies self.slot_at(i)
            == pre.slot_at(i) && self.word(pre.slot_at(i).unwrap()) == pre.word(
            pre.slot_at(i).unwrap(),
        ) by {
            let key = (1nat, (i / 1024) as nat);
            assert(pre.dir@.contains_key(key));
            let h = pre.dir@[key];
            assert(0 <= h < pre.segments@.len() && pre.level(h) == 1);
            assert(self.segments@[h].slots@ == pre.segments@[h].slots@);
        }
        assert forall|i: u64| #[trigger] self.value_at(i) == pre.value_at(i) by {
            if pre.slot_at(i) is None && self.slot_at(i) is Some {
                assert(self.word(self.slot_at(i).unwrap()) == NULL);
            }
        }
        assert forall|s: Slot| pre.valid_slot(s) implies #[trigger] self.word(s) == pre.word(
            s,
        ) by {
            let i = choose|i: u64| pre.slot_at(i) == Some(s);
            assert(pre.slot_at(i) is Some);
        }
        if pre.spec_segment_count() == 0 && self.spec_segment_count() > 0 {
            assert forall|i: u64| i < 1024 implies #[trigger] self.slot_at(i) is Some by {
                assert((i / 1024) as nat == 0nat);
            }
        }
    }

    spec fn fresh_ok(&self, pre: Self, index: u64, h: int) -> bool {
        ||| (self.level(h) > pre.spec_height() && self.labels@[h].prefix == 0)
        ||| self.labels@[h].prefix == prefix_at(index as nat, self.level(h))
    }

    spec fn fresh_labelled(&self, pre: Self, index: u64) -> bool {
        forall|h: int|
            pre.segments@.len() <= h < self.segments@.len() ==> #[trigger] self.fresh_ok(
                pre,
                index,
                h,
            )
    }

    spec fn roots_above(&self, pre: Self) -> bool {
        forall|l: nat|
            pre.spec_height() < l <= self.spec_height() ==> #[trigger] self.dir@.contains_key(
                (l, 0nat),
            )
    }

    proof fn lemma_fresh_kept(&self, before: Self, pre: Self, index: u64)
        requires
            before.fresh_labelled(pre, index),
            self.grown_from(before, index),
            pre.segments@.len() <= before.segments@.len(),
            forall|h: int|
                before.segments@.len() <= h < self.segments@.len() ==> #[trigger] self.fresh_ok(
                    pre,
                    index,
                    h,
                ),
        ensures
            self.fresh_labelled(pre, index),
    {
        assert forall|h: int|
            pre.segments@.len() <= h < self.segments@.len() implies #[trigger] self.fresh_ok(
            pre,
            index,
            h,
        ) by {
            if h < before.segments@.len() {
                assert(before.fresh_ok(pre, index, h));
                assert(self.segments@[h].height == before.segments@[h].height);
            }
        }
    }

    /// Which segments there are after slots were asked for.
    proof fn lemma_covered_after(&self, pre: Self, index: u64)
        requires
            pre.wf(),
            self.wf(),
            self.grown_from(pre, index),
            self.fresh_labelled(pre, index),
        ensures
            forall|i: u64, l: nat| #[trigger]
                self.covered(i, l) ==> pre.covered(i, l) || (1 <= l <= self.spec_height()
                    && prefix_at(i as nat, l) == prefix_at(index as nat, l)) || (pre.spec_height()
                    < l <= self.spec_height() && prefix_at(i as nat, l) == 0),
    {
        assert forall|i: u64, l: nat| #[trigger] self.covered(i, l) implies pre.covered(i, l) || (1
            <= l <= self.spec_height() && prefix_at(i as nat, l) == prefix_at(index as nat, l))
            || (pre.spec_height() < l <= self.spec_height() && prefix_at(i as nat, l) == 0) by {
            let key = (l, prefix_at(i as nat, l));
            assert(self.dir@.contains_key(key));
            let h = self.dir@[key];
            assert(self.seg_wf(h));
            if h < pre.segments@.len() {
                assert(pre.seg_wf(h));
                assert(self.segments@[h].height == pre.segments@[h].height);
            } else {
                assert(self.fresh_ok(pre, index, h));
            }
        }
    }

    spec fn kept_below(&self, pre: Self, level: nat) -> bool {
        forall|h: int|
            0 <= h < pre.segments@.len() && pre.segments@[h].height <= level
                ==> #[trigger] self.segments@[h].slots@ == pre.segments@[h].slots@
    }

    spec fn fresh_root(&self, pre: Self) -> bool {
        &&& self.root >= pre.segments@.len()
        &&& forall|d: int|
            1 <= d < 1024 ==> #[trigger] self.segments@[self.root as int].slots@[d] == NULL
    }

    /// A child found on the way down was there before the call.
    proof fn lemma_child_was_there(
        &self,
        pre: Self,
        index: u64,
        seg: usize,
        d: usize,
        level: nat,
        top: nat,
    )
        requires
            pre.wf(),
            self.wf(),
            self.grown_from(pre, index),
            top == self.spec_height(),
            top == height_after(pre.spec_height(), index),
            seg < self.segments@.len(),
            2 <= level <= top,
            level == self.segments@[seg as int].height,
            self.labels@[seg as int].prefix == prefix_at(index as nat, level),
            d == prefix_at(index as nat, (level - 1) as nat) % 1024,
            self.segments@[seg as int].slots@[d as int] != NULL,
            self.kept_below(pre, level),
            seg >= pre.segments@.len() ==> forall|e: int|
                0 <= e < 1024 && (level < top || e >= 1) ==> (
                #[trigger] self.segments@[seg as int].slots@[e]) == NULL,
            seg >= pre.segments@.len() && level == top ==> top > pre.spec_height(),
        ensures
            pre.covered(index, (level - 1) as nat),
            self.segments@[seg as int].slots@[d as int] < pre.segments@.len(),
    {
        let below = (level - 1) as nat;
        lemma_prefix_step(index as nat, below);
        if seg >= pre.segments@.len() {
            assert(level == top && d == 0);
            lemma_levels_prefix(index as nat, level);
            assert(prefix_at(index as nat, below) == 0);
            lemma_levels_prefix(index as nat, below);
        } else {
            assert(self.segments@[seg as int].height == pre.segments@[seg as int].height);
            assert(pre.seg_wf(seg as int));
            assert(pre.child_ok(seg as int, d as int));
            let w = pre.segments@[seg as int].slots@[d as int];
            assert(pre.seg_wf(w as int));
        }
    }

    /// Below an empty slot of a segment there is no segment.
    proof fn lemma_empty_slot(&self, seg: int, d: int)
        requires
            self.wf(),
            0 <= seg < self.segments@.len(),
            self.level(seg) >= 2,
            0 <= d < 1024,
            self.segments@[seg].slots@[d] == NULL,
        ensures
            !self.dir@.contains_key(
                ((self.level(seg) - 1) as nat, self.labels@[seg].prefix * 1024 + d as nat),
            ),
    {
        let key = ((self.level(seg) - 1) as nat, self.labels@[seg].prefix * 1024 + d as nat);
        if self.dir@.contains_key(key) {
            let other = self.dir@[key];
            assert(self.seg_wf(seg));
            assert(self.seg_wf(other));
            assert(self.seg_wf(self.root as int));
            let up = self.labels@[other].parent;
            let at = self.labels@[other].digit;
            assert(self.seg_wf(up));
            assert(self.child_ok(up, at));
            assert(self.labels@[up].prefix == self.labels@[seg].prefix && at == d);
            assert(up == seg);
        }
    }

    /// Where a segment on the way to an index is missing, its slot is too.
    proof fn lemma_no_slot_below(&self, index: u64, level: nat)
        requires
            self.wf(),
            1 <= level <= self.spec_height(),
            !self.covered(index, level),
        ensures
            self.slot_at(index) is None,
        decreases level,
    {
        if level == 1 {
            self.law_segments_on_the_way(index, 1);
        } else {
            self.law_segments_on_the_way(index, (level - 1) as nat);
            self.lemma_no_slot_below(index, (level - 1) as nat);
        }
    }

    /// Puts a new root, one level taller, above the present one.
    fn add_root(&mut self, Ghost(index): Ghost<u64>)
        requires
            old(self).wf(),
            old(self).spec_height() < 7,
        ensures
            final(self).wf(),
            final(self).spec_height() == old(self).spec_height() + 1,
            final(self).grown_from(*old(self), index),
            final(self).segments@.len() == old(self).segments@.len() + 1,
            final(self).root == old(self).segments@.len(),
            forall|h: int|
                0 <= h < old(self).segments@.len() ==> #[trigger] final(self).segments@[h] == old(
                    self,
                ).segments@[h],
            forall|d: int|
                1 <= d < 1024 ==> (
                #[trigger] final(self).segments@[final(self).root as int].slots@[d]) == NULL,
    {
        let old_root = self.root;
        let height = if old_root == NULL {
            0
        } else {
            self.segments[old_root].height
        };
        let mut slots = vec![NULL; SEGMENT_SIZE];
        slots[0] = old_root;
        self.segments.push(Segment { slots, height: height + 1 });
        let count = self.segments.len();
        let handle = count - 1;
        self.root = handle;
        proof {
            let fresh = Label { prefix: 0, parent: 0, digit: 0 };
            let kept = if old_root == NULL {
                self.labels@
            } else {
                let was = self.labels@[old_root as int];
                self.labels@.update(
                    old_root as int,
                    Label { prefix: was.prefix, parent: handle as int, digit: 0 },
                )
            };
            self.labels = Ghost(kept.push(fresh));
            self.dir = Ghost(self.dir@.insert(((height + 1) as nat, 0nat), handle as int));
            lemma_prefix_of_zero((height + 1) as nat);
            let pre = *old(self);
            assert(!pre.dir@.contains_key(((height + 1) as nat, 0nat))) by {
                if pre.dir@.contains_key(((height + 1) as nat, 0nat)) {
                    assert(pre.seg_wf(pre.dir@[((height + 1) as nat, 0nat)]));
                }
            }
            assert forall|h: int| 0 <= h < self.segments@.len() implies #[trigger] self.seg_wf(
                h,
            ) by {
                if h < handle {
                    assert(pre.seg_wf(h));
                    assert(self.segments@[h] == pre.segments@[h]);
                    if h != old_root {
                        let up = pre.labels@[h].parent;
                        assert(self.segments@[up] == pre.segments@[up]);
                    }
                    if self.segments@[h].height >= 2 {
                        assert forall|d: int| 0 <= d < 1024 implies #[trigger] self.child_ok(
                            h,
                            d,
                        ) by {
                            assert(pre.child_ok(h, d));
                        }
                    }
                } else {
                    assert forall|d: int| 0 <= d < 1024 implies #[trigger] self.child_ok(
                        h,
                        d,
                    ) by {
                        if d == 0 && old_root != NULL {
                            assert(pre.seg_wf(old_root as int));
                        }
                    }
                }
            }
            assert forall|l: nat, p: nat| #[trigger]
                self.dir@.contains_key((l, p)) implies {
                &&& 0 <= self.dir@[(l, p)] < self.segments@.len()
                &&& self.level(self.dir@[(l, p)]) == l
                &&& self.labels@[self.dir@[(l, p)]].prefix == p
            } by {
                if (l, p) != ((height + 1) as nat, 0nat) {
                    assert(pre.dir@.contains_key((l, p)));
                }
            }
            assert(self.grown_from(pre, index)) by {
                assert forall|h: int| 0 <= h < pre.segments@.len() implies {
                    &&& (#[trigger] self.segments@[h]).height == pre.segments@[h].height
                    &&& self.labels@[h].prefix == pre.labels@[h].prefix
                    &&& pre.segments@[h].height == 1 ==> self.segments@[h].slots@
                        == pre.segments@[h].slots@
                } by {
                    assert(self.segments@[h] == pre.segments@[h]);
                }
                if old_root != NULL {
                    assert(pre.seg_wf(old_root as int));
                }
            }
        }
    }

    /// Hangs a new, empty segment into the empty slot `d` of segment `seg`.
    fn add_child(&mut self, seg: usize, d: usize, Ghost(index): Ghost<u64>) -> (child: usize)
        requires
            old(self).wf(),
            seg < old(self).segments@.len(),
            old(self).segments@[seg as int].height >= 2,
            d < 1024,
            old(self).segments@[seg as int].slots@[d as int] == NULL,
            old(self).labels@[seg as int].prefix == prefix_at(
                index as nat,
                old(self).segments@[seg as int].height as nat,
            ),
            d == prefix_at(index as nat, (old(self).segments@[seg as int].height - 1) as nat)
                % 1024,
        ensures
            final(self).wf(),
            final(self).grown_from(*old(self), index),
            final(self).spec_height() == old(self).spec_height(),
            child < final(self).segments@.len(),
            final(self).segments@[child as int].height == old(self).segments@[seg as int].height
                - 1,
            final(self).labels@[child as int].prefix == prefix_at(
                index as nat,
                (old(self).segments@[seg as int].height - 1) as nat,
            ),
            final(self).segments@.len() == old(self).segments@.len() + 1,
            child == old(self).segments@.len(),
            forall|h: int|
                0 <= h < old(self).segments@.len() && h != seg
                    ==> #[trigger] final(self).segments@[h] == old(self).segments@[h],
            forall|d: int|
                0 <= d < 1024 ==> #[trigger] final(self).segments@[child as int].slots@[d] == NULL,
            !old(self).covered(index, (old(self).segments@[seg as int].height - 1) as nat),
    {
        proof {
            assert(old(self).seg_wf(seg as int));
        }
        let height = self.segments[seg].height - 1;
        let slots = vec![NULL; SEGMENT_SIZE];
        self.segments.push(Segment { slots, height });
        let count = self.segments.len();
        let child = count - 1;
        self.segments[seg].slots[d] = child;
        proof {
            let pre = *old(self);
            let level = pre.segments@[seg as int].height as nat;
            let below = (level - 1) as nat;
            lemma_prefix_step(index as nat, below);
            let prefix = prefix_at(index as nat, below);
            assert(prefix == pre.labels@[seg as int].prefix * 1024 + d);
            let key = (below, prefix);
            pre.lemma_empty_slot(seg as int, d as int);
            self.labels = Ghost(
                self.labels@.push(
                    Label { prefix, parent: seg as int, digit: d as int },
                ),
            );
            self.dir = Ghost(self.dir@.insert(key, child as int));
            assert(self.segments@.len() == pre.segments@.len() + 1);
            assert forall|h: int| 0 <= h < pre.segments@.len() && h != seg implies
                #[trigger] self.segments@[h] == pre.segments@[h] by {}
            assert(self.segments@[seg as int].height == pre.segments@[seg as int].height);
            assert(self.segments@[seg as int].slots@ == pre.segments@[seg as int].slots@.update(
                d as int,
                child,
            ));
            assert forall|h: int| 0 <= h < self.segments@.len() implies #[trigger] self.seg_wf(
                h,
            ) by {
                if h < child {
                    assert(pre.seg_wf(h));
                    if h != pre.root {
                        let up = pre.labels@[h].parent;
                        let at = pre.labels@[h].digit;
                        assert(self.segments@[up].slots@[at] == h);
                    }
                    if self.segments@[h].height >= 2 {
                        assert forall|e: int| 0 <= e < 1024 implies #[trigger] self.child_ok(
                            h,
                            e,
                        ) by {
                            assert(pre.child_ok(h, e));
                        }
                    }
                } else {
                    assert(pre.seg_wf(pre.root as int));
                    if self.segments@[h].height >= 2 {
                        assert forall|e: int| 0 <= e < 1024 implies #[trigger] self.child_ok(
                            h,
                            e,
                        ) by {}
                    }
                }
            }
            assert forall|l: nat, p: nat| #[trigger]
                self.dir@.contains_key((l, p)) implies {
                &&& 0 <= self.dir@[(l, p)] < self.segments@.len()
                &&& self.level(self.dir@[(l, p)]) == l
                &&& self.labels@[self.dir@[(l, p)]].prefix == p
            } by {
                if (l, p) != key {
                    assert(pre.dir@.contains_key((l, p)));
                    let h = pre.dir@[(l, p)];
                    assert(self.segments@[h].height == pre.segments@[h].height);
                }
            }
            assert(self.grown_from(pre, index)) by {
                assert forall|h: int| 0 <= h < pre.segments@.len() implies {
                    &&& (#[trigger] self.segments@[h]).height == pre.segments@[h].height
                    &&& self.labels@[h].prefix == pre.labels@[h].prefix
                    &&& pre.segments@[h].height == 1 ==> self.segments@[h].slots@
                        == pre.segments@[h].slots@
                } by {}
                assert(prefix_at(index as nat, 1) == prefix_at((index / 1024) as nat, 0));
            }
        }
        child
    }

    /// The slot of `index`. Grows the tree until it is tall enough for the
    /// index, then walks down from the root, one digit of the index per level,
    /// and creates each segment that is missing on the way.
    ///
    /// Nothing that was there before moves or changes. The segments that
    /// exist afterwards are those that existed, the roots that were put on
    /// top, and those on the way to `index`; as many are new as there are new
    /// levels and segments missing on the way. So the slots that exist
    /// afterwards are those that existed, those that share the leaf segment
    /// of `index`, and, if the array was empty, those of the first segment.
    pub fn get(&mut self, index: u64) -> (slot: Slot)
        requires
            old(self).wf(),
        ensures
            final(self).wf(),
            final(self).slot_at(index) == Some(slot),
            final(self).word(slot) == old(self).value_at(index),
            final(self).extends(*old(self)),
            final(self).spec_height() == height_after(old(self).spec_height(), index),
            forall|i: u64| #[trigger]
                final(self).slot_at(i) is Some <==> old(self).slot_at(i) is Some || i / 1024
                    == index / 1024 || (old(self).spec_segment_count() == 0 && i < 1024),
            forall|i: u64, l: nat| #[trigger]
                final(self).covered(i, l) <==> {
                    ||| old(self).covered(i, l)
                    ||| 1 <= l <= final(self).spec_height() && prefix_at(i as nat, l) == prefix_at(
                        index as nat,
                        l,
                    )
                    ||| old(self).spec_height() < l <= final(self).spec_height() && prefix_at(
                        i as nat,
                        l,
                    ) == 0
                },
            final(self).spec_segment_count() == old(self).spec_segment_count()
                + (final(self).spec_height() - old(self).spec_height())
                + old(self).missing(index, final(self).spec_height()),
    {
        let ghost needed = levels_for(index as nat);
        proof {
            lemma_levels_bounded(index);
        }
        loop
            invariant_except_break
                self.wf(),
                self.grown_from(*old(self), index),
                needed == levels_for(index as nat),
                needed <= 7,
                self.spec_height() == old(self).spec_height() || self.spec_height() <= needed
                    || self.spec_height() <= 1,
            invariant
                self.segments@.len() == old(self).segments@.len() + self.spec_height() - old(
                    self,
                ).spec_height(),
                self.kept_below(*old(self), 7),
                self.fresh_labelled(*old(self), index),
                self.roots_above(*old(self)),
                self.spec_height() == old(self).spec_height() ==> self.root == old(self).root,
                self.spec_height() > old(self).spec_height() ==> self.fresh_root(*old(self)),
            ensures
                self.wf(),
                self.grown_from(*old(self), index),
                needed == levels_for(index as nat),
                self.root != NULL,
                self.spec_height() >= needed,
                self.spec_height() == height_after(old(self).spec_height(), index),
            decreases 8 - self.spec_height(),
        {
            let height = self.height();
            if must_grow(height, index) {
                let ghost before = *self;
                self.add_root(Ghost(index));
                proof {
                    Self::lemma_grown_transitive(*old(self), before, *self, index);
                    assert forall|h: int|
                        0 <= h < old(self).segments@.len() && old(self).segments@[h].height
                            <= 7 implies #[trigger] self.segments@[h].slots@ == old(
                        self,
                    ).segments@[h].slots@ by {
                        assert(self.segments@[h] == before.segments@[h]);
                    }
                    assert(self.seg_wf(self.root as int));
                    self.lemma_fresh_kept(before, *old(self), index);
                    assert forall|l: nat|
                        old(self).spec_height() < l
                            <= self.spec_height() implies #[trigger] self.dir@.contains_key(
                        (l, 0nat),
                    ) by {
                        if l < self.spec_height() {
                            assert(before.dir@.contains_key((l, 0nat)));
                        }
                    }
                }
            } else {
                proof {
                    assert(self.seg_wf(self.root as int));
                }
                break ;
            }
        }
        let mut seg = self.root;
        let mut level = self.segments[seg].height;
        let ghost top = level as nat;
        proof {
            lemma_levels_prefix(index as nat, level as nat);
            if seg < old(self).segments@.len() {
                assert(old(self).seg_wf(old(self).root as int));
            }
        }
        proof {
            assert(self.seg_wf(seg as int));
        }
        while level > 1
            invariant
                old(self).wf(),
                self.fresh_labelled(*old(self), index),
                self.roots_above(*old(self)),
                forall|l: nat| level <= l <= top ==> #[trigger] self.covered(index, l),
                top == self.spec_height(),
                level <= top,
                self.segments@.len() + old(self).missing(index, level as nat) == old(
                    self,
                ).segments@.len() + top - old(self).spec_height() + old(self).missing(index, top),
                self.kept_below(*old(self), level as nat),
                seg >= old(self).segments@.len() ==> forall|d: int|
                    0 <= d < 1024 && (level < top || d >= 1) ==> (
                    #[trigger] self.segments@[seg as int].slots@[d]) == NULL,
                seg >= old(self).segments@.len() && level == top ==> top > old(self).spec_height(),
                self.wf(),
                self.grown_from(*old(self), index),
                self.spec_height() == height_after(old(self).spec_height(), index),
                seg < self.segments@.len(),
                level == self.segments@[seg as int].height,
                1 <= level <= 7,
                self.labels@[seg as int].prefix == prefix_at(index as nat, level as nat),
            decreases level,
        {
            let d = digit(index, level);
            proof {
                assert(self.seg_wf(seg as int));
                assert(self.child_ok(seg as int, d as int));
                lemma_prefix_step(index as nat, (level - 1) as nat);
            }
            let word = self.segments[seg].slots[d];
            if word == NULL {
                let ghost before = *self;
                let ghost parent = seg;
                seg = self.add_child(seg, d, Ghost(index));
                proof {
                    Self::lemma_grown_transitive(*old(self), before, *self, index);
                    self.lemma_fresh_kept(before, *old(self), index);
                    assert(self.seg_wf(seg as int));
                    assert forall|l: nat| level - 1 <= l <= top implies #[trigger] self.covered(
                        index,
                        l,
                    ) by {
                        if l >= level {
                            assert(before.covered(index, l));
                            assert(before.dir@.contains_key((l, prefix_at(index as nat, l))));
                        }
                    }
                    assert forall|l: nat|
                        old(self).spec_height() < l
                            <= self.spec_height() implies #[trigger] self.dir@.contains_key(
                        (l, 0nat),
                    ) by {
                        assert(before.dir@.contains_key((l, 0nat)));
                    }
                    assert(before.dir@.contains_key(
                        ((level - 1) as nat, prefix_at(index as nat, (level - 1) as nat)),
                    ) || !old(self).covered(index, (level - 1) as nat));
                    assert forall|h: int|
                        0 <= h < old(self).segments@.len() && old(self).segments@[h].height
                            <= level - 1 implies #[trigger] self.segments@[h].slots@ == old(
                        self,
                    ).segments@[h].slots@ by {
                        assert(before.segments@[h].slots@ == old(self).segments@[h].slots@);
                        assert(h != parent);
                        assert(self.segments@[h] == before.segments@[h]);
                    }
                }
            } else {
                proof {
                    self.lemma_child_was_there(*old(self), index, seg, d, level as nat, top);
                    assert(self.seg_wf(word as int));
                }
                seg = word;
            }
            level = level - 1;
        }
        let offset = digit(index, 1);
        proof {
            assert(self.seg_wf(seg as int));
            assert(prefix_at(index as nat, 1) == prefix_at((index / 1024) as nat, 0));
            self.lemma_grown_extends(*old(self), index);
            assert(self.slot_at(index) is Some);
            assert(self.value_at(index) == old(self).value_at(index));
            self.lemma_covered_after(*old(self), index);
            assert forall|i: u64, l: nat|
                (1 <= l <= self.spec_height() && prefix_at(i as nat, l) == prefix_at(
                    index as nat,
                    l,
                )) || (old(self).spec_height() < l <= self.spec_height() && prefix_at(i as nat, l)
                    == 0) implies #[trigger] self.covered(i, l) by {
                if 1 <= l <= self.spec_height() && prefix_at(i as nat, l) == prefix_at(
                    index as nat,
                    l,
                ) {
                    assert(self.covered(index, l));
                } else {
                    assert(self.dir@.contains_key((l, 0nat)));
                }
            }
        }
        Slot { segment: seg, offset }
    }

    /// Whatever slots are asked for in between, the slot of an index is the
    /// one that was handed out for it first: if `first` was the slot of
    /// `index` in `earlier`, and `later` came of `earlier` by asking for
    /// slots, then a slot handed out for `index` in `later` is `first`.
    pub proof fn law_slot_is_stable(
        earlier: Self,
        later: Self,
        index: u64,
        first: Slot,
        again: Slot,
    )
        requires
            earlier.slot_at(index) == Some(first),
            later.extends(earlier),
            later.slot_at(index) == Some(again),
        ensures
            again == first,
            later.word(again) == earlier.word(first),
    {
        assert(earlier.slot_at(index) is Some);
        assert(earlier.valid_slot(first));
    }

    /// Asking for slots, and asking again, is asking for slots.
    pub proof fn law_extends_transitive(a: Self, b: Self, c: Self)
        requires
            b.extends(a),
            c.extends(b),
        ensures
            c.extends(a),
    {
        assert forall|i: u64| #[trigger] a.slot_at(i) is Some implies c.slot_at(i) == a.slot_at(
            i,
        ) by {
            assert(b.slot_at(i) is Some);
        }
        assert forall|i: u64| #[trigger] c.value_at(i) == a.value_at(i) by {
            assert(b.value_at(i) == a.value_at(i));
        }
        assert forall|i: u64, l: nat| #[trigger] a.covered(i, l) implies c.covered(i, l) by {
            assert(b.covered(i, l));
        }
        assert forall|s: Slot| a.valid_slot(s) implies #[trigger] c.word(s) == a.word(s) by {
            let i = choose|i: u64| a.slot_at(i) == Some(s);
            assert(a.slot_at(i) is Some);
            assert(b.slot_at(i) == Some(s));
            assert(b.valid_slot(s));
        }
    }

    /// What segments there can be on the way to an index: the one of height
    /// 1 is the one that holds its slot; above a segment there is its parent,
    /// up to the root; and the root is on the way exactly if the tree is tall
    /// enough for the index.
    pub proof fn law_segments_on_the_way(&self, index: u64, level: nat)
        requires
            self.wf(),
        ensures
            self.covered(index, 1) <==> self.slot_at(index) is Some,
            self.covered(index, level) ==> 1 <= level <= self.spec_height(),
            self.covered(index, level) && level < self.spec_height() ==> self.covered(
                index,
                level + 1,
            ),
            self.spec_height() >= 1 ==> (self.covered(index, self.spec_height()) <==> levels_for(
                index as nat,
            ) <= self.spec_height()),
    {
        assert(prefix_at(index as nat, 1) == prefix_at((index / 1024) as nat, 0));
        let key = (level, prefix_at(index as nat, level));
        if self.dir@.contains_key(key) {
            let h = self.dir@[key];
            assert(self.seg_wf(h));
            if level < self.spec_height() {
                let up = self.labels@[h].parent;
                assert(self.seg_wf(up));
                assert(self.child_ok(up, self.labels@[h].digit));
                lemma_prefix_step(index as nat, level);
            }
        }
        if self.spec_height() >= 1 {
            let top = self.spec_height();
            lemma_levels_prefix(index as nat, top);
            assert(self.seg_wf(self.root as int));
            let at = (top, prefix_at(index as nat, top));
            if self.dir@.contains_key(at) {
                let h = self.dir@[at];
                assert(self.seg_wf(h));
                if h != self.root {
                    assert(self.seg_wf(self.labels@[h].parent));
                }
            }
        }
    }

    /// Two indices never share a slot.
    pub proof fn lemma_slots_differ(&self, i: u64, j: u64)
        requires
            self.wf(),
            self.slot_at(i) is Some,
            self.slot_at(i) == self.slot_at(j),
        ensures
            i == j,
    {
        let ki = (1nat, (i / 1024) as nat);
        let kj = (1nat, (j / 1024) as nat);
        assert(self.dir@.contains_key(ki) && self.dir@.contains_key(kj));
        assert(self.labels@[self.dir@[ki]].prefix == (i / 1024) as nat);
        assert(self.labels@[self.dir@[kj]].prefix == (j / 1024) as nat);
    }

    /// The word in `slot`.
    pub fn load(&self, slot: Slot) -> (word: usize)
        requires
            self.wf(),
            self.valid_slot(slot),
        ensures
            word == self.word(slot),
    {
        proof {
            let i = choose|i: u64| self.slot_at(i) == Some(slot);
            let key = (1nat, (i / 1024) as nat);
            assert(self.dir@.contains_key(key));
            assert(self.seg_wf(self.dir@[key]));
        }
        self.segments[slot.segment].slots[slot.offset]
    }

    /// The word stored for `index`, `NULL` if none was. Creates nothing.
    pub fn peek(&self, index: u64) -> (word: usize)
        requires
            self.wf(),
        ensures
            word == self.value_at(index),
    {
        let height = self.height();
        if must_grow(height, index) {
            proof {
                if height >= 1 {
                    self.law_segments_on_the_way(index, height as nat);
                    self.lemma_no_slot_below(index, height as nat);
                } else if self.slot_at(index) is Some {
                    assert(self.dir@.contains_key((1nat, (index / 1024) as nat)));
                }
            }
            return NULL;
        }
        let mut seg = self.root;
        let mut level = height;
        proof {
            assert(self.seg_wf(seg as int));
            lemma_levels_prefix(index as nat, level as nat);
        }
        while level > 1
            invariant
                self.wf(),
                seg < self.segments@.len(),
                level == self.segments@[seg as int].height,
                1 <= level <= self.spec_height(),
                self.spec_height() <= 7,
                self.labels@[seg as int].prefix == prefix_at(index as nat, level as nat),
            decreases level,
        {
            let d = digit(index, level);
            proof {
                assert(self.seg_wf(seg as int));
                assert(self.child_ok(seg as int, d as int));
                lemma_prefix_step(index as nat, (level - 1) as nat);
            }
            let word = self.segments[seg].slots[d];
            if word == NULL {
                proof {
                    self.lemma_empty_slot(seg as int, d as int);
                    self.lemma_no_slot_below(index, (level - 1) as nat);
                }
                return NULL;
            }
            proof {
                assert(self.seg_wf(word as int));
            }
            seg = word;
            level = level - 1;
        }
        let offset = digit(index, 1);
        proof {
            assert(self.seg_wf(seg as int));
            assert(prefix_at(index as nat, 1) == prefix_at((index / 1024) as nat, 0));
        }
        self.segments[seg].slots[offset]
    }

    /// Puts `word` into `slot`. No other slot changes, and no slot moves.
    pub fn store(&mut self, slot: Slot, word: usize)
        requires
            old(self).wf(),
            old(self).valid_slot(slot),
        ensures
            final(self).wf(),
            final(self).spec_height() == old(self).spec_height(),
            final(self).spec_segment_count() == old(self).spec_segment_count(),
            forall|i: u64| #[trigger] final(self).slot_at(i) == old(self).slot_at(i),
            forall|i: u64, l: nat| #[trigger] final(self).covered(i, l) == old(self).covered(i, l),
            final(self).word(slot) == word,
            forall|s: Slot|
                s != slot && old(self).valid_slot(s) ==> #[trigger] final(self).word(s) == old(
                    self,
                ).word(s),
            forall|i: u64| #[trigger]
                final(self).value_at(i) == if old(self).slot_at(i) == Some(slot) {
                    word
                } else {
                    old(self).value_at(i)
                },
    {
        proof {
            let i = choose|i: u64| self.slot_at(i) == Some(slot);
            let key = (1nat, (i / 1024) as nat);
            assert(self.dir@.contains_key(key));
            assert(self.seg_wf(self.dir@[key]));
        }
        self.segments[slot.segment].slots[slot.offset] = word;
        proof {
            let pre = *old(self);
            let leaf = slot.segment as int;
            assert(pre.seg_wf(pre.root as int));
            assert forall|h: int| 0 <= h < self.segments@.len() && h != leaf implies
                #[trigger] self.segments@[h] == pre.segments@[h] by {}
            assert(self.segments@[leaf].height == 1);
            assert forall|h: int| 0 <= h < self.segments@.len() implies #[trigger] self.seg_wf(
                h,
            ) by {
                assert(pre.seg_wf(h));
                if h != pre.root {
                    assert(pre.seg_wf(pre.labels@[h].parent));
                }
                if self.segments@[h].height >= 2 {
                    assert forall|d: int| 0 <= d < 1024 implies #[trigger] self.child_ok(
                        h,
                        d,
                    ) by {
                        assert(pre.child_ok(h, d));
                    }
                }
            }
            assert forall|l: nat, p: nat| #[trigger]
                self.dir@.contains_key((l, p)) implies {
                &&& 0 <= self.dir@[(l, p)] < self.segments@.len()
                &&& self.level(self.dir@[(l, p)]) == l
                &&& self.labels@[self.dir@[(l, p)]].prefix == p
            } by {
                assert(pre.dir@.contains_key((l, p)));
            }
            assert forall|s: Slot| s != slot && pre.valid_slot(s) implies #[trigger] self.word(s)
                == pre.word(s) by {
                let i = choose|i: u64| pre.slot_at(i) == Some(s);
                let key = (1nat, (i / 1024) as nat);
                assert(pre.dir@.contains_key(key));
                assert(pre.seg_wf(pre.dir@[key]));
            }
        }
    }

    /// The height of segment `segment`: 1 if it holds the slots themselves.
    pub closed spec fn spec_segment_height(&self, segment: usize) -> nat {
        self.segments@[segment as int].height as nat
    }

    /// The root segment, if the array is not empty.
    pub closed spec fn spec_root(&self) -> Option<usize> {
        if self.root == NULL {
            None
        } else {
            Some(self.root)
        }
    }

    /// What the word at `offset` of segment `segment` is.
    pub closed spec fn spec_entry(&self, segment: usize, offset: usize) -> Entry {
        let word = self.segments@[segment as int].slots@[offset as int];
        if word == NULL {
            Entry::Empty
        } else if self.segments@[segment as int].height >= 2 {
            Entry::Child(word)
        } else {
            Entry::Leaf(word)
        }
    }

    /// The root segment, if the array is not empty.
    pub fn root(&self) -> (root: Option<usize>)
        requires
            self.wf(),
        ensures
            root == self.spec_root(),
            root is Some <==> self.spec_segment_count() > 0,
            root is Some <==> self.spec_height() >= 1,
            root is Some ==> root.unwrap() < self.spec_segment_count()
                && self.spec_segment_height(root.unwrap()) == self.spec_height(),
    {
        proof {
            if self.root != NULL {
                assert(self.seg_wf(self.root as int));
            }
        }
        if self.root == NULL {
            None
        } else {
            Some(self.root)
        }
    }

    /// The height of segment `segment`.
    pub fn segment_height(&self, segment: usize) -> (height: usize)
        requires
            self.wf(),
            segment < self.spec_segment_count(),
        ensures
            height == self.spec_segment_height(segment),
            1 <= height <= self.spec_height(),
    {
        proof {
            assert(self.seg_wf(segment as int));
        }
        self.segments[segment].height
    }

    /// What the word at `offset` of segment `segment` is: in a segment of
    /// height 1 a caller's word, in a taller one the handle of a child that
    /// is lower by one.
    pub fn entry(&self, segment: usize, offset: usize) -> (entry: Entry)
        requires
            self.wf(),
            segment < self.spec_segment_count(),
            offset < SEGMENT_SIZE,
        ensures
            entry == self.spec_entry(segment, offset),
            entry is Leaf ==> self.spec_segment_height(segment) == 1,
            entry matches Entry::Child(child) ==> child < self.spec_segment_count()
                && self.spec_segment_height(child) + 1 == self.spec_segment_height(segment),
            self.spec_segment_height(segment) == 1 ==> entry == (if self.word(
                Slot { segment, offset },
            ) == NULL {
                Entry::Empty
            } else {
                Entry::Leaf(self.word(Slot { segment, offset }))
            }),
    {
        proof {
            assert(self.seg_wf(segment as int));
            if self.segments@[segment as int].height >= 2 {
                assert(self.child_ok(segment as int, offset as int));
            }
        }
        let word = self.segments[segment].slots[offset];
        if word == NULL {
            Entry::Empty
        } else if self.segments[segment].height >= 2 {
            Entry::Child(word)
        } else {
            Entry::Leaf(word)
        }
    }

    spec fn under(&self, h: int, a: int) -> bool
        decreases self.level(a) - self.level(h),
    {
        &&& 0 <= h < self.segments@.len()
        &&& h != self.root
        &&& self.level(h) < self.level(a)
        &&& {
            let p = self.labels@[h].parent;
            p == a || (self.level(p) == self.level(h) + 1 && self.under(p, a))
        }
    }

    spec fn branch(&self, h: int, a: int) -> int
        decreases self.level(a) - self.level(h),
    {
        let p = self.labels@[h].parent;
        if self.level(h) < self.level(a) && p != a && self.level(p) == self.level(h) + 1 {
            self.branch(p, a)
        } else {
            h
        }
    }

    proof fn lemma_child(&self, h: int, d: int)
        requires
            self.wf(),
            0 <= h < self.segments@.len(),
            self.level(h) >= 2,
            0 <= d < 1024,
            self.segments@[h].slots@[d] != NULL,
        ensures
            ({
                let w = self.segments@[h].slots@[d] as int;
                &&& 0 <= w < self.segments@.len()
                &&& w != self.root
                &&& self.level(w) + 1 == self.level(h)
                &&& self.labels@[w].parent == h
                &&& self.labels@[w].digit == d
            }),
    {
        let w = self.segments@[h].slots@[d] as int;
        assert(self.seg_wf(h));
        assert(self.child_ok(h, d));
        assert(self.seg_wf(w));
        assert(self.seg_wf(self.root as int));
        let up = self.labels@[w].parent;
        let at = self.labels@[w].digit;
        assert(self.seg_wf(up));
        assert(self.child_ok(up, at));
    }

    proof fn lemma_under_root(&self, h: int)
        requires
            self.wf(),
            0 <= h < self.segments@.len(),
            h != self.root,
        ensures
            self.under(h, self.root as int),
        decreases self.level(self.root as int) - self.level(h),
    {
        assert(self.seg_wf(h));
        let p = self.labels@[h].parent;
        assert(self.seg_wf(p));
        if p != self.root {
            self.lemma_under_root(p);
        }
    }

    proof fn lemma_branch(&self, x: int, a: int)
        requires
            self.wf(),
            0 <= a < self.segments@.len(),
            self.under(x, a),
        ensures
            ({
                let c = self.branch(x, a);
                &&& 0 <= c < self.segments@.len()
                &&& c != self.root
                &&& self.labels@[c].parent == a
                &&& 0 <= self.labels@[c].digit < 1024
                &&& self.segments@[a].slots@[self.labels@[c].digit] == c
                &&& self.level(c) + 1 == self.level(a)
                &&& (x == c || self.under(x, c))
            }),
        decreases self.level(a) - self.level(x),
    {
        assert(self.seg_wf(x));
        let p = self.labels@[x].parent;
        if p != a {
            self.lemma_branch(p, a);
            let c = self.branch(p, a);
            assert(self.branch(x, a) == c);
            if p != c {
                self.lemma_climb(x, c);
            }
        }
    }

    proof fn lemma_climb(&self, x: int, c: int)
        requires
            self.wf(),
            0 <= x < self.segments@.len(),
            x != self.root,
            self.under(self.labels@[x].parent, c),
        ensures
            self.under(x, c),
    {
        assert(self.seg_wf(x));
    }

    proof fn lemma_under_parent(&self, x: int, c: int, a: int)
        requires
            self.wf(),
            0 <= c < self.segments@.len(),
            c != self.root,
            self.labels@[c].parent == a,
            x == c || self.under(x, c),
        ensures
            self.under(x, a),
            self.branch(x, a) == c,
        decreases self.level(c) - self.level(x),
    {
        assert(self.seg_wf(c));
        if x != c {
            assert(self.seg_wf(x));
            let p = self.labels@[x].parent;
            self.lemma_under_parent(p, c, a);
            if p == a {
                assert(self.seg_wf(p));
            }
        }
    }

    proof fn lemma_not_under_leaf(&self, x: int, a: int)
        requires
            self.wf(),
            0 <= a < self.segments@.len(),
            self.level(a) <= 1,
        ensures
            !self.under(x, a),
    {
        if 0 <= x < self.segments@.len() {
            assert(self.seg_wf(x));
        }
    }

    spec fn freed_through(&self, freed: Seq<usize>, before: Seq<usize>, seg: int, d: int) -> bool {
        &&& freed.no_duplicates()
        &&& before.len() <= freed.len()
        &&& freed.subrange(0, before.len() as int) == before
        &&& forall|x: usize| #[trigger]
            freed.contains(x) <==> before.contains(x) || (self.under(x as int, seg)
                && self.labels@[self.branch(x as int, seg)].digit < d)
    }

    spec fn ordered(&self, freed: Seq<usize>) -> bool {
        forall|i: int, j: int|
            0 <= i < freed.len() && 0 <= j < freed.len() && #[trigger] self.under(
                freed[j] as int,
                freed[i] as int,
            ) ==> j < i
    }

    spec fn clear_of(&self, freed: Seq<usize>, seg: int) -> bool {
        forall|y: usize| #[trigger] freed.contains(y) ==> y != seg && !self.under(seg, y as int)
    }

    /// Hands out, below segment `segment`, every segment of the subtree, each
    /// after those below it. Words of segments of height 1 are not looked at.
    fn release(&self, segment: usize, freed: &mut Vec<usize>)
        requires
            self.wf(),
            segment < self.segments@.len(),
            old(freed)@.no_duplicates(),
            forall|x: usize| #[trigger] old(freed)@.contains(x) ==> !self.under(
                x as int,
                segment as int,
            ),
            self.ordered(old(freed)@),
            self.clear_of(old(freed)@, segment as int),
        ensures
            self.freed_through(final(freed)@, old(freed)@, segment as int, 1024),
            self.ordered(final(freed)@),
        decreases self.segments@[segment as int].height,
    {
        proof {
            assert(self.seg_wf(segment as int));
        }
        let height = self.segments[segment].height;
        if height >= 2 {
            let mut d: usize = 0;
            proof {
                assert(freed@.subrange(0, freed@.len() as int) =~= freed@);
                assert forall|x: usize| self.under(x as int, segment as int) implies 0
                    <= self.labels@[self.branch(x as int, segment as int)].digit by {
                    self.lemma_branch(x as int, segment as int);
                }
            }
            while d < SEGMENT_SIZE
                invariant
                    self.wf(),
                    segment < self.segments@.len(),
                    self.segments@[segment as int].height == height,
                    height >= 2,
                    d <= 1024,
                    self.segments@[segment as int].slots@.len() == 1024,
                    forall|x: usize| #[trigger] old(freed)@.contains(x) ==> !self.under(
                        x as int,
                        segment as int,
                    ),
                    self.freed_through(freed@, old(freed)@, segment as int, d as int),
                    self.ordered(freed@),
                    self.clear_of(old(freed)@, segment as int),
                decreases 1024 - d,
            {
                let word = self.segments[segment].slots[d];
                let ghost start = freed@;
                if word != NULL {
                    proof {
                        self.lemma_child(segment as int, d as int);
                        self.lemma_under_parent(word as int, word as int, segment as int);
                        assert forall|y: usize| #[trigger] freed@.contains(y) implies y != word
                            && !self.under(word as int, y as int) by {
                            if old(freed)@.contains(y) {
                                assert(self.seg_wf(word as int));
                            }
                        }
                        assert forall|x: usize| #[trigger] freed@.contains(x) implies !self.under(
                            x as int,
                            word as int,
                        ) by {
                            if self.under(x as int, word as int) {
                                self.lemma_under_parent(x as int, word as int, segment as int);
                            }
                        }
                    }
                    self.release(word, freed);
                    let ghost below = freed@;
                    proof {
                        self.lemma_under_parent(word as int, word as int, segment as int);
                        if below.contains(word) {
                            if !start.contains(word) {
                                assert(self.under(word as int, word as int));
                            }
                        }
                    }
                    freed.push(word);
                    proof {
                        let now = freed@;
                        assert(now.subrange(0, below.len() as int) =~= below);
                        assert forall|i: int, j: int|
                            0 <= i < now.len() && 0 <= j < now.len() && #[trigger] self.under(
                                now[j] as int,
                                now[i] as int,
                            ) implies j < i by {
                            if i < below.len() && j < below.len() {
                                assert(below[i] == now[i] && below[j] == now[j]);
                            } else if j == below.len() {
                                if i < below.len() {
                                    assert(below[i] == now[i]);
                                    assert(below.contains(now[i]));
                                    if start.contains(now[i]) {
                                    } else {
                                        assert(self.under(now[i] as int, word as int));
                                    }
                                }
                            }
                        }
                        assert(now.subrange(0, old(freed)@.len() as int) =~= below.subrange(
                            0,
                            old(freed)@.len() as int,
                        ));
                        assert(below.subrange(0, old(freed)@.len() as int) =~= start.subrange(
                            0,
                            old(freed)@.len() as int,
                        ));
                        assert forall|i: int, j: int|
                            0 <= i < now.len() && 0 <= j < now.len() && i != j implies now[i]
                            != now[j] by {
                            if i == below.len() {
                                assert(below[j] == now[j]);
                                assert(below.contains(now[j]));
                            } else if j == below.len() {
                                assert(below[i] == now[i]);
                                assert(below.contains(now[i]));
                            } else {
                                assert(below[i] == now[i] && below[j] == now[j]);
                            }
                        }
                        assert forall|x: usize| #[trigger]
                            now.contains(x) <==> old(freed)@.contains(x) || (self.under(
                                x as int,
                                segment as int,
                            ) && self.labels@[self.branch(x as int, segment as int)].digit < d
                                + 1) by {
                            if now.contains(x) {
                                let i = choose|i: int| 0 <= i < now.len() && now[i] == x;
                                if i < below.len() {
                                    assert(below[i] == x);
                                    assert(below.contains(x));
                                    if !start.contains(x) {
                                        self.lemma_under_parent(
                                            x as int,
                                            word as int,
                                            segment as int,
                                        );
                                    }
                                }
                            }
                            if self.under(x as int, segment as int) && self.labels@[self.branch(
                                x as int,
                                segment as int,
                            )].digit == d {
                                self.lemma_branch(x as int, segment as int);
                                if x == word {
                                    assert(now[below.len() as int] == x);
                                } else {
                                    assert(self.under(x as int, word as int));
                                    self.lemma_branch(x as int, word as int);
                                    assert(below.contains(x));
                                    let i = choose|i: int| 0 <= i < below.len() && below[i] == x;
                                    assert(now[i] == x);
                                }
                            }
                            if start.contains(x) {
                                assert(below.contains(x));
                                let i = choose|i: int| 0 <= i < below.len() && below[i] == x;
                                assert(now[i] == x);
                            }
                        }
                    }
                } else {
                    proof {
                        assert forall|x: usize| #[trigger]
                            freed@.contains(x) <==> old(freed)@.contains(x) || (self.under(
                                x as int,
                                segment as int,
                            ) && self.labels@[self.branch(x as int, segment as int)].digit < d
                                + 1) by {
                            if self.under(x as int, segment as int) {
                                self.lemma_branch(x as int, segment as int);
                            }
                        }
                    }
                }
                d = d + 1;
            }
            proof {
                assert forall|x: usize| self.under(x as int, segment as int) implies 1024
                    > self.labels@[self.branch(x as int, segment as int)].digit by {
                    self.lemma_branch(x as int, segment as int);
                }
            }
        } else {
            proof {
                assert(freed@.subrange(0, freed@.len() as int) =~= freed@);
                assert forall|x: usize| !self.under(x as int, segment as int) by {
                    self.lemma_not_under_leaf(x as int, segment as int);
                }
            }
        }
    }

    /// Gives the array up and hands out the handles of its segments in the
    /// order in which they are let go: every segment once, each after those
    /// below it, the root last. The words in the slots are not looked at:
    /// what they refer to belongs to whoever stored them.
    pub fn teardown(self) -> (freed: Vec<usize>)
        requires
            self.wf(),
        ensures
            freed@.len() == self.spec_segment_count(),
            freed@.no_duplicates(),
            forall|h: usize| h < self.spec_segment_count() <==> #[trigger] freed@.contains(h),
            self.spec_root() is Some ==> freed@.last() == self.spec_root().unwrap(),
            forall|i: int, j: int, offset: usize|
                0 <= i < freed@.len() && 0 <= j < freed@.len() && offset < SEGMENT_SIZE
                    && #[trigger] self.spec_entry(freed@[i], offset) == Entry::Child(
                    #[trigger] freed@[j],
                ) ==> j < i,
    {
        let mut freed: Vec<usize> = Vec::new();
        if self.root != NULL {
            self.release(self.root, &mut freed);
            let ghost below = freed@;
            freed.push(self.root);
            proof {
                let now = freed@;
                let root = self.root;
                assert(now.subrange(0, below.len() as int) =~= below);
                assert(!below.contains(root));
                assert forall|i: int, j: int|
                    0 <= i < now.len() && 0 <= j < now.len() && i != j implies now[i]
                    != now[j] by {
                    if i == below.len() {
                        assert(below[j] == now[j]);
                        assert(below.contains(now[j]));
                    } else if j == below.len() {
                        assert(below[i] == now[i]);
                        assert(below.contains(now[i]));
                    } else {
                        assert(below[i] == now[i] && below[j] == now[j]);
                    }
                }
                assert forall|h: usize| h < self.spec_segment_count() <==> #[trigger] now.contains(
                    h,
                ) by {
                    if h < self.segments@.len() {
                        if h == root {
                            assert(now[below.len() as int] == h);
                        } else {
                            self.lemma_under_root(h as int);
                            self.lemma_branch(h as int, root as int);
                            assert(below.contains(h));
                            let i = choose|i: int| 0 <= i < below.len() && below[i] == h;
                            assert(now[i] == h);
                        }
                    }
                    if now.contains(h) {
                        let i = choose|i: int| 0 <= i < now.len() && now[i] == h;
                        if i < below.len() {
                            assert(below[i] == h);
                            assert(below.contains(h));
                        }
                    }
                }
                lemma_all_once(now, self.segments@.len());
                assert forall|i: int, j: int|
                    0 <= i < now.len() && 0 <= j < now.len() && #[trigger] self.under(
                        now[j] as int,
                        now[i] as int,
                    ) implies j < i by {
                    if i < below.len() && j < below.len() {
                        assert(below[i] == now[i] && below[j] == now[j]);
                    }
                }
                assert forall|i: int, j: int, offset: usize|
                    0 <= i < now.len() && 0 <= j < now.len() && offset < SEGMENT_SIZE
                        && #[trigger] self.spec_entry(now[i], offset) == Entry::Child(
                        #[trigger] now[j],
                    ) implies j < i by {
                    assert(now.contains(now[i]));
                    assert(now.contains(now[j]));
                    self.lemma_child(now[i] as int, offset as int);
                    self.lemma_under_parent(now[j] as int, now[j] as int, now[i] as int);
                }
            }
        }
        freed
    }
}

impl Default for GrowableArray {
    /// An empty array.
    fn default() -> (array: Self)
        ensures
            array.wf(),
            array.spec_height() == 0,
            array.spec_segment_count() == 0,
            forall|index: u64| array.slot_at(index) is None,
            forall|index: u64, level: nat| !array.covered(index, level),
    {
        GrowableArray::new()
    }
}

/// A sequence that holds each number below `n` once, and nothing else, has
/// length `n`.
pub proof fn lemma_all_once(s: Seq<usize>, n: nat)
    requires
        n <= usize::MAX,
        s.no_duplicates(),
        forall|x: usize| x < n <==> #[trigger] s.contains(x),
    ensures
        s.len() == n,
    decreases n,
{
    if n == 0 {
        if s.len() > 0 {
            assert(s.contains(s[0]));
        }
    } else {
        let top = (n - 1) as usize;
        assert(s.contains(top));
        let k = choose|k: int| 0 <= k < s.len() && s[k] == top;
        let rest = s.remove(k);
        assert forall|i: int, j: int|
            0 <= i < rest.len() && 0 <= j < rest.len() && i != j implies rest[i] != rest[j] by {
            let oi = if i < k {
                i
            } else {
                i + 1
            };
            let oj = if j < k {
                j
            } else {
                j + 1
            };
            assert(rest[i] == s[oi] && rest[j] == s[oj]);
        }
        assert forall|x: usize| x < (n - 1) as nat <==> #[trigger] rest.contains(x) by {
            if x < n - 1 {
                assert(s.contains(x));
                let i = choose|i: int| 0 <= i < s.len() && s[i] == x;
                assert(i != k);
                if i < k {
                    assert(rest[i] == x);
                } else {
                    assert(rest[i - 1] == x);
                }
            }
            if rest.contains(x) {
                let i = choose|i: int| 0 <= i < rest.len() && rest[i] == x;
                let oi = if i < k {
                    i
                } else {
                    i + 1
                };
                assert(s[oi] == x);
                assert(s.contains(x));
            }
        }
        lemma_all_once(rest, (n - 1) as nat);
    }
}

} // verus!
