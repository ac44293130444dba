//! Bit sets: dense bit maps over `0..n`, laid out in 64-bit blocks inside
//! the chosen arena.
//!
//! The member `v` is bit `v % 64` of block `v / 64`.  Operations past the
//! capacity are no-ops (`insert`, `remove`) or `false` (`contains`).

use crate::storage::{Backtrackable, NonBacktrackable, StorageMode};
use crate::trail::{
    builder_extends, lemma_arena_extends_agrees, sel_mem, trail_extends, Array, Trail,
    TrailBuilder, TrailView,
};
use vstd::prelude::*;
use vstd::std_specs::bits::{axiom_u64_leading_zeros, axiom_u64_trailing_zeros};

verus! {

/// A bit set stored in backtrackable storage on the trail.
pub type BacktrackableBitSet = BitSet<Backtrackable>;

/// A bit set stored in non-backtrackable storage on the trail.
pub type NonBacktrackableBitSet = BitSet<NonBacktrackable>;

/// A subset of `0..capacity` represented as a dense bit map.
pub struct BitSet<M> {
    blocks: Array<M, u64>,
    max: u64,
}

impl<M> Clone for BitSet<M> {
    fn clone(&self) -> (r: Self)
        ensures
            r == *self,
    {
        BitSet { blocks: self.blocks, max: self.max }
    }
}

impl<M> Copy for BitSet<M> {}

impl<M> BitSet<M> {
    /// The handle of the block array.
    pub closed spec fn spec_blocks(self) -> Array<M, u64> {
        self.blocks
    }

    /// The largest value the set can hold; the capacity is `spec_max() + 1`.
    pub closed spec fn spec_max(self) -> int {
        self.max as int
    }
}

/// Whether bit `v % 64` of block `v / 64` is set.
pub open spec fn bit_of(blocks: Seq<u64>, v: int) -> bool {
    0 <= v / 64 < blocks.len() && (blocks[v / 64] >> ((v % 64) as u64)) & 1u64 == 1u64
}

impl<M: StorageMode> BitSet<M> {
    /// The contents of the block array under the given trail view.
    pub open spec fn blocks_at(self, tv: TrailView) -> Seq<u64> {
        self.spec_blocks().view_at(tv)
    }

    /// Membership under the given trail view.
    pub open spec fn contains_at(self, tv: TrailView, v: int) -> bool {
        0 <= v <= self.spec_max() && bit_of(self.blocks_at(tv), v)
    }

    /// The block array has exactly enough blocks for `0..=max`.
    pub open spec fn handles_wf(self) -> bool {
        &&& 0 <= self.spec_max() < 0xffff_ffff_ffff_ffff
        &&& self.spec_blocks().spec_len() == self.spec_max() / 64 + 1
    }

    /// Well-formedness under a trail view: the block array fits its arena,
    /// has exactly `max / 64 + 1` blocks, and — for backtrackable storage —
    /// fits every saved snapshot as well.
    pub open spec fn wf_at(self, tv: TrailView) -> bool {
        &&& self.handles_wf()
        &&& self.spec_blocks().wf_at(tv)
        &&& (M::spec_backtrackable() ==> forall|k: int|
            0 <= k < tv.levels.len() ==> self.spec_blocks().wf_in(#[trigger] tv.levels[k]))
    }

    /// Well-formedness on a trail.
    pub open spec fn wf(self, t: Trail) -> bool {
        self.wf_at(t@)
    }

    /// Membership on a trail.
    pub open spec fn spec_contains(self, t: Trail, v: int) -> bool {
        self.contains_at(t@, v)
    }

    /// Bit-set index equivalence: membership is exactly the truth value of
    /// the representation bit, for every value within the capacity.
    pub proof fn lemma_contains_is_bit(self, t: Trail)
        requires
            self.wf(t),
        ensures
            forall|v: int|
                0 <= v <= self.spec_max() ==> (#[trigger] self.spec_contains(t, v) == bit_of(
                    self.blocks_at(t@),
                    v,
                )),
            forall|v: int| v > self.spec_max() ==> !self.spec_contains(t, v),
    {
    }

    /// Creates a new bit set holding all of `0..len`.
    pub fn new_full(builder: &mut TrailBuilder, len: u64) -> (r: Self)
        requires
            len > 0,
            sel_builder_room::<M>(old(builder)@, ((len - 1) / 64 + 1) as int),
        ensures
            r.spec_max() == len - 1,
            r.wf_at(
                (TrailView {
                    backtrackable: final(builder)@.backtrackable,
                    non_backtrackable: final(builder)@.non_backtrackable,
                    levels: Seq::empty(),
                }),
            ),
            forall|v: int|
                0 <= v < len ==> r.contains_at(
                    (TrailView {
                        backtrackable: final(builder)@.backtrackable,
                        non_backtrackable: final(builder)@.non_backtrackable,
                        levels: Seq::empty(),
                    }),
                    v,
                ),
            oth_arena_same::<M>(old(builder)@, final(builder)@),
            builder_extends(final(builder)@, old(builder)@),
            crate::trail::sel_builder::<M>(final(builder)@).len() == crate::trail::sel_builder::<
                M,
            >(old(builder)@).len() + (((len - 1) / 64 + 1) as int) * 8,
            r.spec_blocks().spec_offset() == crate::trail::sel_builder::<M>(
                old(builder)@,
            ).len(),
    {
        let max = len - 1;
        let num_blocks = max / 64 + 1;
        let mut vals: Vec<u64> = Vec::new();
        let mut i: u64 = 0;
        proof {
            assert(!0u64 == 0xffff_ffff_ffff_ffffu64) by (bit_vector);
        }
        while i < num_blocks
            invariant
                i <= num_blocks,
                vals@.len() == i,
                forall|k: int| 0 <= k < i ==> vals@[k] == 0xffff_ffff_ffff_ffffu64,
            decreases num_blocks - i,
        {
            vals.push(0xffff_ffff_ffff_ffffu64);
            i += 1;
        }
        let blocks = Array::<M, u64>::new(builder, &vals);
        let r = BitSet { blocks, max };
        proof {
            let tv = TrailView {
                backtrackable: final(builder)@.backtrackable,
                non_backtrackable: final(builder)@.non_backtrackable,
                levels: Seq::empty(),
            };
            assert forall|v: int| 0 <= v < len implies r.contains_at(tv, v) by {
                assert(0 <= v / 64 <= r.spec_max() / 64) by (nonlinear_arith)
                    requires
                        0 <= v <= r.spec_max(),
                ;
                assert(r.blocks_at(tv)[v / 64] == 0xffff_ffff_ffff_ffffu64);
                let j = (v % 64) as u64;
                assert(j < 64);
                assert((0xffff_ffff_ffff_ffffu64 >> j) & 1u64 == 1u64) by (bit_vector)
                    requires
                        j < 64,
                ;
            }
        }
        r
    }

    /// Creates a new empty bit set of capacity `len`.
    pub fn new_empty(builder: &mut TrailBuilder, len: u64) -> (r: Self)
        requires
            len > 0,
            sel_builder_room::<M>(old(builder)@, ((len - 1) / 64 + 1) as int),
        ensures
            r.spec_max() == len - 1,
            r.wf_at(
                (TrailView {
                    backtrackable: final(builder)@.backtrackable,
                    non_backtrackable: final(builder)@.non_backtrackable,
                    levels: Seq::empty(),
                }),
            ),
            forall|v: int|
                !r.contains_at(
                    (TrailView {
                        backtrackable: final(builder)@.backtrackable,
                        non_backtrackable: final(builder)@.non_backtrackable,
                        levels: Seq::empty(),
                    }),
                    v,
                ),
            oth_arena_same::<M>(old(builder)@, final(builder)@),
            builder_extends(final(builder)@, old(builder)@),
            crate::trail::sel_builder::<M>(final(builder)@).len() == crate::trail::sel_builder::<
                M,
            >(old(builder)@).len() + (((len - 1) / 64 + 1) as int) * 8,
            r.spec_blocks().spec_offset() == crate::trail::sel_builder::<M>(
                old(builder)@,
            ).len(),
    {
        let max = len - 1;
        let num_blocks = max / 64 + 1;
        let mut vals: Vec<u64> = Vec::new();
        let mut i: u64 = 0;
        while i < num_blocks
            invariant
                i <= num_blocks,
                vals@.len() == i,
                forall|k: int| 0 <= k < i ==> vals@[k] == 0u64,
            decreases num_blocks - i,
        {
            vals.push(0u64);
            i += 1;
        }
        let blocks = Array::<M, u64>::new(builder, &vals);
        let r = BitSet { blocks, max };
        proof {
            let tv = TrailView {
                backtrackable: final(builder)@.backtrackable,
                non_backtrackable: final(builder)@.non_backtrackable,
                levels: Seq::empty(),
            };
            assert forall|v: int| !r.contains_at(tv, v) by {
                if 0 <= v <= r.spec_max() {
                    assert(0 <= v / 64 <= r.spec_max() / 64) by (nonlinear_arith)
                        requires
                            0 <= v <= r.spec_max(),
                    ;
                    assert(r.blocks_at(tv)[v / 64] == 0u64);
                    let j = (v % 64) as u64;
                    assert((0u64 >> j) & 1u64 == 0u64) by (bit_vector);
                }
            }
        }
        r
    }

    /// Returns the capacity: members range over `0..capacity`.
    pub fn capacity(&self) -> (r: u64)
        requires
            self.handles_wf(),
        ensures
            r == self.spec_max() + 1,
    {
        self.max + 1
    }

    /// Zeroes all blocks: afterwards the set is empty.
    pub fn clear(&self, trail: &mut Trail)
        requires
            self.wf(*old(trail)),
        ensures
            self.wf(*final(trail)),
            forall|v: int| !self.spec_contains(*final(trail), v),
            final(trail)@.levels == old(trail)@.levels,
            sel_mem::<M>(final(trail)@).len() == sel_mem::<M>(old(trail)@).len(),
            oth_mem_same::<M>(old(trail)@, final(trail)@),
            forall|p: int|
                0 <= p < sel_mem::<M>(old(trail)@).len() && !(self.spec_blocks().spec_offset() <= p
                    < self.spec_blocks().spec_end()) ==> sel_mem::<M>(final(trail)@)[p]
                    == sel_mem::<M>(old(trail)@)[p],
    {
        let ghost t0 = *old(trail);
        let n = self.blocks.len();
        let mut i: usize = 0;
        while i < n
            invariant
                self.wf(*trail),
                n == self.spec_blocks().spec_len(),
                i <= n,
                forall|k: int| 0 <= k < i ==> self.blocks_at(trail@)[k] == 0u64,
                trail@.levels == t0@.levels,
                sel_mem::<M>(trail@).len() == sel_mem::<M>(t0@).len(),
                oth_mem_same::<M>(t0@, trail@),
                forall|p: int|
                    0 <= p < sel_mem::<M>(t0@).len() && !(self.spec_blocks().spec_offset() <= p
                        < self.spec_blocks().spec_end()) ==> sel_mem::<M>(trail@)[p] == sel_mem::<
                        M,
                    >(t0@)[p],
            decreases n - i,
        {
            proof {
                self.blocks.lemma_elem_bounds(i as int);
            }
            let ghost tp = *trail;
            self.blocks.set(trail, i, 0);
            proof {
                assert(self.blocks_at(trail@) =~= self.blocks_at(tp@).update(i as int, 0u64));
            }
            i += 1;
        }
        proof {
            assert forall|v: int| !self.spec_contains(*trail, v) by {
                if 0 <= v <= self.spec_max() {
                    assert(0 <= v / 64 < self.spec_blocks().spec_len()) by (nonlinear_arith)
                        requires
                            0 <= v <= self.spec_max(),
                            self.spec_blocks().spec_len() == self.spec_max() / 64 + 1,
                    ;
                    assert(self.blocks_at(trail@)[v / 64] == 0u64);
                    let j = (v % 64) as u64;
                    assert((0u64 >> j) & 1u64 == 0u64) by (bit_vector);
                }
            }
        }
    }

    /// Checks whether `value` is a member: false past the capacity, else
    /// the representation bit.
    pub fn contains(&self, trail: &Trail, value: u64) -> (r: bool)
        requires
            self.wf(*trail),
        ensures
            r == self.spec_contains(*trail, value as int),
    {
        if value > self.max {
            false
        } else {
            proof {
                lemma_block_index(value as int, self.spec_max());
            }
            let index = (value / 64) as usize;
            let block = self.blocks.get(trail, index);
            (block >> (value % 64)) & 1 == 1
        }
    }

    /// Inserts `value` into the set; a silent no-op past the capacity.
    pub fn insert(&self, trail: &mut Trail, value: u64)
        requires
            self.wf(*old(trail)),
        ensures
            self.wf(*final(trail)),
            forall|w: int|
                #[trigger] self.spec_contains(*final(trail), w) <==> (self.spec_contains(
                    *old(trail),
                    w,
                ) || (w == value as int && value as int <= self.spec_max())),
            final(trail)@.levels == old(trail)@.levels,
            sel_mem::<M>(final(trail)@).len() == sel_mem::<M>(old(trail)@).len(),
            oth_mem_same::<M>(old(trail)@, final(trail)@),
            forall|p: int|
                0 <= p < sel_mem::<M>(old(trail)@).len() && !(self.spec_blocks().spec_offset() <= p
                    < self.spec_blocks().spec_end()) ==> sel_mem::<M>(final(trail)@)[p]
                    == sel_mem::<M>(old(trail)@)[p],
    {
        let ghost t0 = *old(trail);
        if value <= self.max {
            proof {
                lemma_block_index(value as int, self.spec_max());
                self.blocks.lemma_elem_bounds((value / 64) as int);
            }
            let index = (value / 64) as usize;
            let block = self.blocks.get(trail, index);
            let k = value % 64;
            let new_block = block | (1u64 << k);
            self.blocks.set(trail, index, new_block);
            proof {
                lemma_set_bit(block, new_block, k);
                assert forall|w: int| #[trigger] self.contains_at(trail@, w) <==> (
                self.contains_at(t0@, w) || w == value as int) by {
                    if 0 <= w <= self.spec_max() {
                        lemma_block_index(w, self.spec_max());
                        if w / 64 == index as int {
                            assert(self.blocks_at(trail@)[w / 64] == new_block);
                            assert((w % 64) as u64 == k <==> w == value as int);
                        } else {
                            assert(self.blocks_at(trail@)[w / 64] == self.blocks_at(t0@)[w / 64]);
                        }
                    }
                }
            }
        }
    }

    /// Removes `value` from the set; a silent no-op past the capacity.
    pub fn remove(&self, trail: &mut Trail, value: u64)
        requires
            self.wf(*old(trail)),
        ensures
            self.wf(*final(trail)),
            forall|w: int|
                #[trigger] self.spec_contains(*final(trail), w) <==> (self.spec_contains(
                    *old(trail),
                    w,
                ) && w != value as int),
            final(trail)@.levels == old(trail)@.levels,
            sel_mem::<M>(final(trail)@).len() == sel_mem::<M>(old(trail)@).len(),
            oth_mem_same::<M>(old(trail)@, final(trail)@),
            forall|p: int|
                0 <= p < sel_mem::<M>(old(trail)@).len() && !(self.spec_blocks().spec_offset() <= p
                    < self.spec_blocks().spec_end()) ==> sel_mem::<M>(final(trail)@)[p]
                    == sel_mem::<M>(old(trail)@)[p],
    {
        let ghost t0 = *old(trail);
        if value <= self.max {
            proof {
                lemma_block_index(value as int, self.spec_max());
                self.blocks.lemma_elem_bounds((value / 64) as int);
            }
            let index = (value / 64) as usize;
            let block = self.blocks.get(trail, index);
            let k = value % 64;
            let new_block = block & !(1u64 << k);
            self.blocks.set(trail, index, new_block);
            proof {
                lemma_clear_bit(block, new_block, k);
                assert forall|w: int| #[trigger] self.contains_at(trail@, w) <==> (
                self.contains_at(t0@, w) && w != value as int) by {
                    if 0 <= w <= self.spec_max() {
                        lemma_block_index(w, self.spec_max());
                        if w / 64 == index as int {
                            assert(self.blocks_at(trail@)[w / 64] == new_block);
                            assert((w % 64) as u64 == k <==> w == value as int);
                        } else {
                            assert(self.blocks_at(trail@)[w / 64] == self.blocks_at(t0@)[w / 64]);
                        }
                    }
                }
            }
        } else {
            proof {
                assert forall|w: int| #[trigger] self.contains_at(t0@, w) <==> (self.contains_at(
                    t0@,
                    w,
                ) && w != value as int) by {}
            }
        }
    }
}

impl<M: StorageMode> BitSet<M> {
    /// Adding a level preserves well-formedness and membership.
    pub proof fn lemma_new_level_preserves_wf(self, before: Trail, after: Trail)
        requires
            self.wf(before),
            after@.backtrackable == before@.backtrackable,
            after@.non_backtrackable == before@.non_backtrackable,
            after@.levels == before@.levels.push(before@.backtrackable),
        ensures
            self.wf(after),
            forall|v: int|
                #[trigger] self.spec_contains(after, v) <==> self.spec_contains(before, v),
    {
        if M::spec_backtrackable() {
            assert forall|k: int|
                0 <= k < after@.levels.len() implies self.spec_blocks().wf_in(
                #[trigger] after@.levels[k],
            ) by {
                if k < before@.levels.len() {
                    assert(after@.levels[k] == before@.levels[k]);
                } else {
                    assert(after@.levels[k] == before@.backtrackable);
                    assert(sel_mem::<M>(before@) == before@.backtrackable);
                }
            }
        }
        assert(sel_mem::<M>(after@) == sel_mem::<M>(before@));
    }

    /// The bytes the bit set owns in its own arena: the block array's window.
    pub open spec fn owns_sel_byte(self, p: int) -> bool {
        self.spec_blocks().spec_offset() <= p < self.spec_blocks().spec_end()
    }

    /// Writes that leave the bit set's own bytes in place leave its
    /// well-formedness and membership untouched.
    pub proof fn lemma_frame(self, t1: Trail, t2: Trail)
        requires
            self.wf(t1),
            sel_mem::<M>(t2@).len() == sel_mem::<M>(t1@).len(),
            forall|p: int|
                0 <= p < sel_mem::<M>(t1@).len() && self.owns_sel_byte(p) ==> sel_mem::<M>(
                    t2@,
                )[p] == sel_mem::<M>(t1@)[p],
            t2@.levels == t1@.levels,
            t2@.backtrackable.len() == t1@.backtrackable.len(),
        ensures
            self.wf(t2),
            self.blocks_at(t2@) == self.blocks_at(t1@),
            forall|v: int| #[trigger] self.spec_contains(t2, v) <==> self.spec_contains(t1, v),
    {
        assert forall|j: int|
            self.spec_blocks().spec_offset() <= j
                < self.spec_blocks().spec_end() implies sel_mem::<M>(t1@)[j] == sel_mem::<M>(
            t2@,
        )[j] by {
            assert(self.owns_sel_byte(j));
        }
        self.spec_blocks().spec_pointer().lemma_frame(sel_mem::<M>(t1@), sel_mem::<M>(t2@));
        assert(self.blocks_at(t2@) == self.blocks_at(t1@));
    }

    /// Growing either arena by appending leaves the bit set's
    /// well-formedness and membership untouched.
    pub proof fn lemma_wf_extend(self, tv1: TrailView, tv2: TrailView)
        requires
            self.wf_at(tv1),
            trail_extends(tv2, tv1),
        ensures
            self.wf_at(tv2),
            self.blocks_at(tv2) == self.blocks_at(tv1),
            forall|v: int| #[trigger] self.contains_at(tv2, v) <==> self.contains_at(tv1, v),
    {
        lemma_arena_extends_agrees(tv2.non_backtrackable, tv1.non_backtrackable);
        lemma_arena_extends_agrees(tv2.backtrackable, tv1.backtrackable);
        if M::spec_backtrackable() {
            self.spec_blocks().spec_pointer().lemma_frame(tv1.backtrackable, tv2.backtrackable);
        } else {
            self.spec_blocks().spec_pointer().lemma_frame(
                tv1.non_backtrackable,
                tv2.non_backtrackable,
            );
        }
        assert(self.blocks_at(tv2) == self.blocks_at(tv1));
    }

    /// Backtracking restores the blocks to the newest snapshot, so
    /// membership is decided by the restored snapshot's bits.
    pub proof fn lemma_backtrack_restores_wf(self, before: Trail, after: Trail)
        requires
            self.wf(before),
            before@.levels.len() > 0,
            after@.backtrackable == before@.levels.last(),
            after@.non_backtrackable == before@.non_backtrackable,
            after@.levels == before@.levels.drop_last(),
        ensures
            self.wf(after),
    {
        if M::spec_backtrackable() {
            let last = before@.levels.len() - 1;
            assert(before@.levels[last] == before@.levels.last());
            assert(self.spec_blocks().wf_in(before@.levels[last]));
            assert forall|k: int|
                0 <= k < after@.levels.len() implies self.spec_blocks().wf_in(
                #[trigger] after@.levels[k],
            ) by {
                assert(after@.levels[k] == before@.levels[k]);
            }
        } else {
            assert(sel_mem::<M>(after@) == sel_mem::<M>(before@));
        }
    }
}

/// The builder arena selected by `M` has room for `num_blocks` more blocks.
pub open spec fn sel_builder_room<M: StorageMode>(b: crate::trail::TrailBuilderView, num_blocks: int) -> bool {
    crate::trail::sel_builder::<M>(b).len() + num_blocks * 8 <= usize::MAX
}

/// The builder arena not selected by `M` is unchanged.
pub open spec fn oth_arena_same<M: StorageMode>(
    b1: crate::trail::TrailBuilderView,
    b2: crate::trail::TrailBuilderView,
) -> bool {
    crate::trail::oth_builder::<M>(b2) == crate::trail::oth_builder::<M>(b1)
}

/// The trail arena not selected by `M` is unchanged.
pub open spec fn oth_mem_same<M: StorageMode>(t1: TrailView, t2: TrailView) -> bool {
    crate::trail::oth_mem::<M>(t2) == crate::trail::oth_mem::<M>(t1)
}

/// For `0 <= v <= max`, the block index `v / 64` is within the block array
/// and the bit index `v % 64` is within the block.
proof fn lemma_block_index(v: int, max: int)
    requires
        0 <= v <= max,
    ensures
        0 <= v / 64 <= max / 64,
        0 <= v % 64 < 64,
        v == 64 * (v / 64) + v % 64,
{
    assert(0 <= v / 64 <= max / 64 && 0 <= v % 64 < 64 && v == 64 * (v / 64) + v % 64)
        by (nonlinear_arith)
        requires
            0 <= v <= max,
    ;
}

/// Setting bit `k` of a block sets exactly that bit.
proof fn lemma_set_bit(old_block: u64, new_block: u64, k: u64)
    requires
        k < 64,
        new_block == old_block | (1u64 << k),
    ensures
        forall|j: u64|
            j < 64 ==> (((new_block >> j) & 1u64 == 1u64) <==> (((old_block >> j) & 1u64 == 1u64)
                || j == k)),
{
    assert(forall|j: u64|
        j < 64 ==> (((new_block >> j) & 1u64 == 1u64) <==> (((old_block >> j) & 1u64 == 1u64) || j
            == k))) by (bit_vector)
        requires
            k < 64,
            new_block == old_block | (1u64 << k),
    ;
}

/// Clearing bit `k` of a block clears exactly that bit.
proof fn lemma_clear_bit(old_block: u64, new_block: u64, k: u64)
    requires
        k < 64,
        new_block == old_block & !(1u64 << k),
    ensures
        forall|j: u64|
            j < 64 ==> (((new_block >> j) & 1u64 == 1u64) <==> (((old_block >> j) & 1u64 == 1u64)
                && j != k)),
{
    assert(forall|j: u64|
        j < 64 ==> (((new_block >> j) & 1u64 == 1u64) <==> (((old_block >> j) & 1u64 == 1u64) && j
            != k))) by (bit_vector)
        requires
            k < 64,
            new_block == old_block & !(1u64 << k),
    ;
}


/// The number of set bits of `x` with bit index in `[lo, hi)`.
pub open spec fn bits_in_range(x: u64, lo: int, hi: int) -> nat
    decreases hi - lo + 1,
{
    if hi <= lo {
        0
    } else {
        bits_in_range(x, lo, hi - 1) + (if (x >> ((hi - 1) as u64)) & 1u64 == 1u64 {
            1nat
        } else {
            0nat
        })
    }
}

/// Counting set bits is the same for two words that agree on the range.
proof fn lemma_bits_in_range_congruent(x: u64, y: u64, lo: int, hi: int)
    requires
        0 <= lo,
        hi <= 64,
        forall|j: u64| lo <= j < hi ==> ((x >> j) & 1u64) == ((y >> j) & 1u64),
    ensures
        bits_in_range(x, lo, hi) == bits_in_range(y, lo, hi),
    decreases hi - lo + 1,
{
    if hi > lo {
        lemma_bits_in_range_congruent(x, y, lo, hi - 1);
        assert(((x >> ((hi - 1) as u64)) & 1u64) == ((y >> ((hi - 1) as u64)) & 1u64));
    }
}

/// Splitting the bit range splits the count.
proof fn lemma_bits_in_range_split(x: u64, lo: int, mid: int, hi: int)
    requires
        lo <= mid <= hi,
    ensures
        bits_in_range(x, lo, hi) == bits_in_range(x, lo, mid) + bits_in_range(x, mid, hi),
    decreases hi - mid,
{
    if hi > mid {
        lemma_bits_in_range_split(x, lo, mid, hi - 1);
    }
}

/// A range of clear bits contributes no count.
proof fn lemma_bits_in_range_zero(x: u64, lo: int, hi: int)
    requires
        0 <= lo,
        hi <= 64,
        forall|j: u64| lo <= j < hi ==> ((x >> j) & 1u64) == 0u64,
    ensures
        bits_in_range(x, lo, hi) == 0,
    decreases hi - lo + 1,
{
    if hi > lo {
        lemma_bits_in_range_zero(x, lo, hi - 1);
        assert(((x >> ((hi - 1) as u64)) & 1u64) == 0u64);
    }
}

/// Masking with `!0 << a` keeps bits at or above `a` and clears the rest.
proof fn lemma_mask_low(x: u64, a: u64)
    requires
        a < 64,
    ensures
        forall|j: u64| j < a ==> (((x & (!0u64 << a)) >> j) & 1u64) == 0u64,
        forall|j: u64| a <= j < 64 ==> (((x & (!0u64 << a)) >> j) & 1u64) == ((x >> j) & 1u64),
{
    assert(forall|j: u64| j < a ==> (((x & (!0u64 << a)) >> j) & 1u64) == 0u64) by (bit_vector)
        requires
            a < 64,
    ;
    assert(forall|j: u64|
        a <= j < 64 ==> (((x & (!0u64 << a)) >> j) & 1u64) == ((x >> j) & 1u64)) by (bit_vector)
        requires
            a < 64,
    ;
}

/// Masking with `!0 >> (63 - c)` keeps bits at or below `c` and clears the rest.
proof fn lemma_mask_high(x: u64, c: u64)
    requires
        c < 64,
    ensures
        forall|j: u64|
            c < j < 64 ==> #[trigger] (((x & (!0u64 >> ((63 - c) as u64))) >> j) & 1u64) == 0u64,
        forall|j: u64|
            j <= c ==> #[trigger] (((x & (!0u64 >> ((63 - c) as u64))) >> j) & 1u64) == ((x >> j)
                & 1u64),
{
    assert(forall|j: u64|
        c < j < 64 ==> #[trigger] (((x & (!0u64 >> ((63 - c) as u64))) >> j) & 1u64) == 0u64)
        by (bit_vector)
        requires
            c < 64,
    ;
    assert(forall|j: u64|
        j <= c ==> #[trigger] (((x & (!0u64 >> ((63 - c) as u64))) >> j) & 1u64) == ((x >> j)
            & 1u64)) by (bit_vector)
        requires
            c < 64,
    ;
}

/// Counts the set bits of `x`.
fn popcount(x: u64) -> (r: u64)
    ensures
        r == bits_in_range(x, 0, 64),
        r <= 64,
{
    let mut r: u64 = 0;
    let mut j: u64 = 0;
    while j < 64
        invariant
            j <= 64,
            r == bits_in_range(x, 0, j as int),
            r <= j,
        decreases 64 - j,
    {
        proof {
            assert((x >> j) & 1u64 == 0u64 || (x >> j) & 1u64 == 1u64) by (bit_vector);
        }
        r += (x >> j) & 1;
        j += 1;
    }
    r
}

impl<M: StorageMode> BitSet<M> {
    /// The number of members with value in `[lo, hi]`.
    pub open spec fn spec_count(self, tv: TrailView, lo: int, hi: int) -> nat
        decreases hi - lo + 1,
    {
        if lo > hi {
            0
        } else {
            self.spec_count(tv, lo, hi - 1) + (if self.contains_at(tv, hi) {
                1nat
            } else {
                0nat
            })
        }
    }

    /// What `count_between` returns: the number of members in
    /// `[min, max]` clipped to the capacity, and `0` for an empty range.
    pub open spec fn spec_count_between(self, tv: TrailView, min: int, max: int) -> nat {
        if min <= max && min <= self.spec_max() {
            self.spec_count(
                tv,
                min,
                if max <= self.spec_max() {
                    max
                } else {
                    self.spec_max()
                },
            )
        } else {
            0
        }
    }

    /// A count over a value range is bounded by the range's width.
    proof fn lemma_spec_count_le(self, tv: TrailView, lo: int, hi: int)
        ensures
            self.spec_count(tv, lo, hi) <= (if lo > hi {
                0
            } else {
                hi - lo + 1
            }),
        decreases hi - lo + 1,
    {
        if lo <= hi {
            self.lemma_spec_count_le(tv, lo, hi - 1);
        }
    }

    /// Splitting the value range splits the count.
    proof fn lemma_spec_count_split(self, tv: TrailView, lo: int, mid: int, hi: int)
        requires
            lo <= mid <= hi + 1,
        ensures
            self.spec_count(tv, lo, hi) == self.spec_count(tv, lo, mid - 1) + self.spec_count(
                tv,
                mid,
                hi,
            ),
        decreases hi - mid + 1,
    {
        if hi >= mid {
            self.lemma_spec_count_split(tv, lo, mid, hi - 1);
        }
    }

    /// Within one block, the member count over `[64b + a, 64b + c - 1]`
    /// equals the count of set bits of the block in `[a, c)`.
    proof fn lemma_count_block(self, tv: TrailView, b: int, a: int, c: int)
        requires
            self.handles_wf(),
            0 <= b,
            0 <= a <= c <= 64,
            64 * b + c - 1 <= self.spec_max(),
        ensures
            self.spec_count(tv, 64 * b + a, 64 * b + c - 1) == bits_in_range(
                self.blocks_at(tv)[b],
                a,
                c,
            ),
        decreases c - a,
    {
        if c > a {
            self.lemma_count_block(tv, b, a, c - 1);
            let v = 64 * b + (c - 1);
            assert(0 <= v <= self.spec_max());
            assert(v / 64 == b && v % 64 == c - 1) by (nonlinear_arith)
                requires
                    0 <= b,
                    0 <= c - 1 < 64,
                    v == 64 * b + (c - 1),
            ;
            assert(0 <= b <= self.spec_max() / 64) by (nonlinear_arith)
                requires
                    0 <= 64 * b <= self.spec_max(),
            ;
            assert(self.contains_at(tv, v) == ((self.blocks_at(tv)[b] >> ((c - 1) as u64))
                & 1u64 == 1u64));
            self.lemma_spec_count_split(tv, 64 * b + a, v, v);
        }
    }

    /// Population count of a range: the number of members with value in
    /// `[min, min(max, capacity - 1)]`, and `0` when the range is empty.
    pub fn count_between(&self, trail: &Trail, min: u64, max: u64) -> (r: u64)
        requires
            self.wf(*trail),
        ensures
            r as nat == self.spec_count_between(trail@, min as int, max as int),
    {
        if min <= max && min <= self.max {
            let ghost tv = trail@;
            let max_c = if max < self.max {
                max
            } else {
                self.max
            };
            proof {
                lemma_block_index(min as int, self.spec_max());
                lemma_block_index(max_c as int, self.spec_max());
            }
            let min_block_index = (min / 64) as usize;
            let max_block_index = (max_c / 64) as usize;
            let min_offset = min % 64;
            let max_offset = max_c % 64;
            let min_mask = !0u64 << min_offset;
            let max_mask = !0u64 >> (63 - max_offset);
            proof {
                assert(min_block_index <= max_block_index) by (nonlinear_arith)
                    requires
                        min_block_index == min as int / 64,
                        max_block_index == max_c as int / 64,
                        min <= max_c,
                ;
            }
            if min_block_index == max_block_index {
                let mask = min_mask & max_mask;
                let block = self.blocks.get(trail, min_block_index);
                let cnt = popcount(block & mask);
                proof {
                    let a = min_offset as int;
                    let c = max_offset as int;
                    let bi = min_block_index as int;
                    assert(a <= c) by (nonlinear_arith)
                        requires
                            min as int / 64 == max_c as int / 64,
                            min <= max_c,
                            a == min as int % 64,
                            c == max_c as int % 64,
                            min as int == 64 * (min as int / 64) + a,
                            max_c as int == 64 * (max_c as int / 64) + c,
                    ;
                    lemma_mask_high(block, max_offset);
                    lemma_mask_low(block & max_mask, min_offset);
                    assert(block & (min_mask & max_mask) == block & max_mask & min_mask)
                        by (bit_vector);
                    lemma_bits_in_range_split(block & max_mask & min_mask, 0, a, 64);
                    lemma_bits_in_range_split(block & max_mask & min_mask, a, c + 1, 64);
                    lemma_bits_in_range_zero(block & max_mask & min_mask, 0, a);
                    assert forall|j: u64| c + 1 <= j < 64 implies (((block & max_mask & min_mask)
                        >> j) & 1u64) == 0u64 by {
                        assert((((block & max_mask) & min_mask) >> j) & 1u64 == ((block & max_mask)
                            >> j) & 1u64);
                        assert(((block & max_mask) >> j) & 1u64 == 0u64);
                    }
                    lemma_bits_in_range_zero(block & max_mask & min_mask, c + 1, 64);
                    assert forall|j: u64| a <= j < c + 1 implies (((block & max_mask & min_mask)
                        >> j) & 1u64) == ((block >> j) & 1u64) by {
                        assert((((block & max_mask) & min_mask) >> j) & 1u64 == ((block & max_mask)
                            >> j) & 1u64);
                        assert(((block & max_mask) >> j) & 1u64 == ((block >> j) & 1u64));
                    }
                    lemma_bits_in_range_congruent(block & max_mask & min_mask, block, a, c + 1);
                    self.lemma_count_block(tv, bi, a, c + 1);
                    assert(64 * bi + a == min as int);
                    assert(64 * bi + (c + 1) - 1 == max_c as int);
                }
                cnt
            } else {
                let min_block = self.blocks.get(trail, min_block_index);
                let min_count = popcount(min_block & min_mask);
                proof {
                    let a = min_offset as int;
                    let bi = min_block_index as int;
                    lemma_mask_low(min_block, min_offset);
                    lemma_bits_in_range_split(min_block & min_mask, 0, a, 64);
                    lemma_bits_in_range_zero(min_block & min_mask, 0, a);
                    lemma_bits_in_range_congruent(min_block & min_mask, min_block, a, 64);
                    assert(64 * bi + 64 - 1 < 64 * (max_block_index as int)) by (nonlinear_arith)
                        requires
                            bi < max_block_index as int,
                    ;
                    assert(64 * (max_block_index as int) <= max_c as int) by (nonlinear_arith)
                        requires
                            max_block_index as int == max_c as int / 64,
                            max_c as int == 64 * (max_c as int / 64) + max_c as int % 64,
                            0 <= max_c as int % 64,
                    ;
                    self.lemma_count_block(tv, bi, a, 64);
                    assert(64 * bi + a == min as int);
                }
                let mut tot = min_count;
                let mut i = min_block_index + 1;
                while i < max_block_index
                    invariant
                        self.wf(*trail),
                        tv == trail@,
                        min_block_index < max_block_index,
                        max_block_index as int <= self.spec_max() / 64,
                        min_block_index < i <= max_block_index,
                        64 * (max_block_index as int) <= max_c as int,
                        max_c <= self.spec_max(),
                        tot as nat == self.spec_count(tv, min as int, 64 * (i as int) - 1),
                        (min as int) < 64 * (i as int),
                    decreases max_block_index - i,
                {
                    proof {
                        assert(i as int <= self.spec_max() / 64);
                        assert(0 <= (i as int) < self.spec_blocks().spec_len());
                    }
                    let block = self.blocks.get(trail, i);
                    let cnt = popcount(block);
                    proof {
                        assert(64 * (i as int) + 64 - 1 <= 64 * (max_block_index as int) - 1)
                            by (nonlinear_arith)
                            requires
                                (i as int) < max_block_index as int,
                        ;
                        self.lemma_count_block(tv, i as int, 0, 64);
                        self.lemma_spec_count_split(
                            tv,
                            min as int,
                            64 * (i as int),
                            64 * (i as int) + 63,
                        );
                        self.lemma_spec_count_le(tv, min as int, 64 * (i as int) + 63);
                    }
                    tot += cnt;
                    i += 1;
                }
                let max_block = self.blocks.get(trail, max_block_index);
                let max_count = popcount(max_block & max_mask);
                proof {
                    let c = max_offset as int;
                    let bi = max_block_index as int;
                    lemma_mask_high(max_block, max_offset);
                    lemma_bits_in_range_split(max_block & max_mask, 0, c + 1, 64);
                    assert forall|j: u64| c + 1 <= j < 64 implies (((max_block & max_mask) >> j)
                        & 1u64) == 0u64 by {
                        assert(((max_block & max_mask) >> j) & 1u64 == 0u64);
                    }
                    lemma_bits_in_range_zero(max_block & max_mask, c + 1, 64);
                    lemma_bits_in_range_congruent(max_block & max_mask, max_block, 0, c + 1);
                    self.lemma_count_block(tv, bi, 0, c + 1);
                    assert(64 * bi + (c + 1) - 1 == max_c as int);
                    self.lemma_spec_count_split(tv, min as int, 64 * bi, max_c as int);
                    self.lemma_spec_count_le(tv, min as int, max_c as int);
                }
                tot + max_count
            }
        } else {
            0
        }
    }
}

impl<M: StorageMode> BitSet<M> {
    /// Returns the smallest member with value at least `value`, or `None`
    /// if no member lies in `[value, capacity - 1]`.
    pub fn next_above(&self, trail: &Trail, value: u64) -> (r: Option<u64>)
        requires
            self.wf(*trail),
        ensures
            match r {
                Some(w) => {
                    &&& value <= w <= self.spec_max()
                    &&& self.spec_contains(*trail, w as int)
                    &&& forall|u: int| value <= u < w ==> !self.spec_contains(*trail, u)
                },
                None => forall|u: int| u >= value ==> !self.spec_contains(*trail, u),
            },
        decreases self.spec_max() + 64 - value,
    {
        if value > self.max {
            None
        } else {
            proof {
                lemma_block_index(value as int, self.spec_max());
            }
            let block = value / 64;
            let offset = value % 64;
            let b = self.blocks.get(trail, (block as usize));
            let shifted = b >> offset;
            let to_skip = shifted.trailing_zeros() as u64;
            proof {
                axiom_u64_trailing_zeros(shifted);
            }
            if to_skip == 64 {
                proof {
                    assert(shifted == 0);
                    assert forall|u: int|
                        value <= u && u / 64 == block as int implies !self.spec_contains(
                        *trail,
                        u,
                    ) by {
                        if u <= self.spec_max() {
                            lemma_block_index(u, self.spec_max());
                            let j = (u % 64) as u64;
                            assert(u == 64 * (block as int) + j);
                            assert(j >= offset) by (nonlinear_arith)
                                requires
                                    64 * (block as int) + (j as int) >= 64 * (block as int) + (
                                    offset as int),
                            ;
                            assert((b >> offset) == 0u64 && offset <= j < 64 ==> (b >> j) & 1u64
                                == 0u64) by (bit_vector);
                        }
                    }
                }
                if block >= self.max / 64 {
                    proof {
                        assert forall|u: int| u >= value implies !self.spec_contains(*trail, u) by {
                            if u <= self.spec_max() {
                                lemma_block_index(u, self.spec_max());
                                assert(u / 64 <= self.spec_max() / 64);
                                assert(u / 64 >= value as int / 64) by (nonlinear_arith)
                                    requires
                                        u >= value as int,
                                ;
                                assert(u / 64 == block as int);
                            }
                        }
                    }
                    None
                } else {
                    proof {
                        assert((block + 1) * 64 <= self.spec_max()) by (nonlinear_arith)
                            requires
                                (block as int) < self.spec_max() / 64,
                                self.spec_max() == 64 * (self.spec_max() / 64) + self.spec_max()
                                    % 64,
                                0 <= self.spec_max() % 64,
                        ;
                        assert((block + 1) * 64 > value as int) by (nonlinear_arith)
                            requires
                                value as int == 64 * (block as int) + (offset as int),
                                0 <= (offset as int) < 64,
                        ;
                    }
                    let next_start = (block + 1) * 64;
                    let r = self.next_above(trail, next_start);
                    proof {
                        assert forall|u: int|
                            value <= u < next_start implies !self.spec_contains(*trail, u) by {
                            if u <= self.spec_max() {
                                lemma_block_index(u, self.spec_max());
                                assert(u / 64 == block as int) by (nonlinear_arith)
                                    requires
                                        64 * (block as int) <= u < 64 * (block as int + 1),
                                        u / 64 == (u - u % 64) / 64,
                                        u == 64 * (u / 64) + u % 64,
                                        0 <= u % 64 < 64,
                                ;
                            }
                        }
                    }
                    r
                }
            } else {
                proof {
                    assert((shifted >> to_skip) & 1u64 == 1u64);
                    assert(((b >> offset) >> to_skip) & 1u64 == 1u64 && offset < 64 && to_skip
                        < 64 ==> (offset as int) + (to_skip as int) < 64 && (b >> ((offset
                        + to_skip) as u64)) & 1u64 == 1u64) by (bit_vector);
                    assert forall|u: int|
                        value <= u < value + to_skip implies !self.spec_contains(*trail, u) by {
                        if u <= self.spec_max() {
                            lemma_block_index(u, self.spec_max());
                            let j = (u - 64 * (block as int)) as u64;
                            assert(u / 64 == block as int && u % 64 == j) by (nonlinear_arith)
                                requires
                                    64 * (block as int) <= u < 64 * (block as int) + 64,
                                    j == u - 64 * (block as int),
                                    u == 64 * (u / 64) + u % 64,
                                    0 <= u % 64 < 64,
                            ;
                            let d = (j - offset) as u64;
                            assert(d < to_skip);
                            assert((shifted >> d) & 1u64 == 0u64);
                            assert(((b >> offset) >> d) & 1u64 == 0u64 && offset < 64 && (d as int)
                                + (offset as int) < 64 ==> (b >> ((offset + d) as u64)) & 1u64
                                == 0u64) by (bit_vector);
                        }
                    }
                }
                if to_skip > self.max - value {
                    proof {
                        assert forall|u: int| u >= value implies !self.spec_contains(*trail, u) by {
                            if u < value + to_skip {
                            } else {
                                assert(u > self.spec_max());
                            }
                        }
                    }
                    None
                } else {
                    let w = value + to_skip;
                    proof {
                        assert(w as int / 64 == block as int && w as int % 64 == (offset + to_skip))
                            by (nonlinear_arith)
                            requires
                                w as int == 64 * (block as int) + (offset as int) + (to_skip as int),
                                0 <= (offset as int) + (to_skip as int) < 64,
                                0 <= block as int,
                        ;
                        assert(0 <= w as int / 64 <= self.spec_max() / 64) by (nonlinear_arith)
                            requires
                                0 <= (w as int) <= self.spec_max(),
                                w as int / 64 == (w as int - w as int % 64) / 64,
                                w as int == 64 * (w as int / 64) + w as int % 64,
                                0 <= w as int % 64 < 64,
                        ;
                    }
                    Some(w)
                }
            }
        }
    }

    /// Returns the largest member with value at most `min(value, capacity - 1)`,
    /// or `None` if no such member exists.
    pub fn next_below(&self, trail: &Trail, value: u64) -> (r: Option<u64>)
        requires
            self.wf(*trail),
        ensures
            match r {
                Some(w) => {
                    &&& w <= value
                    &&& w <= self.spec_max()
                    &&& self.spec_contains(*trail, w as int)
                    &&& forall|u: int| w < u <= value ==> !self.spec_contains(*trail, u)
                },
                None => forall|u: int| 0 <= u <= value ==> !self.spec_contains(*trail, u),
            },
        decreases value,
    {
        let capped = if value < self.max {
            value
        } else {
            self.max
        };
        proof {
            lemma_block_index(capped as int, self.spec_max());
        }
        let block = capped / 64;
        let offset = capped % 64;
        let b = self.blocks.get(trail, (block as usize));
        let shifted = b << (63 - offset);
        let to_skip = shifted.leading_zeros() as u64;
        proof {
            axiom_u64_leading_zeros(shifted);
        }
        if to_skip == 64 {
            proof {
                assert(shifted == 0);
                assert forall|u: int|
                    64 * (block as int) <= u <= capped implies !self.spec_contains(*trail, u) by {
                    lemma_block_index(u, self.spec_max());
                    let j = (u - 64 * (block as int)) as u64;
                    assert(u / 64 == block as int && u % 64 == j) by (nonlinear_arith)
                        requires
                            64 * (block as int) <= u < 64 * (block as int) + 64,
                            j == u - 64 * (block as int),
                            u == 64 * (u / 64) + u % 64,
                            0 <= u % 64 < 64,
                    ;
                    assert((b << ((63 - offset) as u64)) == 0u64 && j <= offset && offset < 64 ==> (
                    b >> j) & 1u64 == 0u64) by (bit_vector);
                }
                assert forall|u: int| capped < u <= value implies !self.spec_contains(*trail, u) by {
                    assert(u > self.spec_max());
                }
            }
            if block == 0 {
                None
            } else {
                proof {
                    assert(64 * (block as int) - 1 < capped as int);
                }
                let r = self.next_below(trail, block * 64 - 1);
                proof {
                    assert(block * 64 - 1 < capped);
                }
                r
            }
        } else {
            proof {
                assert(to_skip <= offset && (b >> ((offset - to_skip) as u64)) & 1u64 == 1u64) by {
                    assert((shifted >> ((63 - to_skip) as u64)) & 1u64 != 0u64);
                    assert(shifted == b << ((63 - offset) as u64) && ((shifted >> ((63 - to_skip)
                        as u64)) & 1u64 != 0u64) && to_skip < 64 && offset < 64 ==> to_skip
                        <= offset && (b >> ((offset - to_skip) as u64)) & 1u64 == 1u64)
                        by (bit_vector);
                }
                let w = capped as int - to_skip as int;
                assert(w / 64 == block as int && w % 64 == (offset - to_skip)) by (nonlinear_arith)
                    requires
                        w == 64 * (block as int) + (offset as int) - (to_skip as int),
                        0 <= (offset as int) - (to_skip as int) < 64,
                        0 <= block as int,
                ;
                assert(0 <= w / 64 <= self.spec_max() / 64) by (nonlinear_arith)
                    requires
                        0 <= w <= self.spec_max(),
                        w == 64 * (w / 64) + w % 64,
                        0 <= w % 64 < 64,
                ;
                assert forall|u: int|
                    w < u <= value implies !self.spec_contains(*trail, u) by {
                    if u <= capped as int {
                        lemma_block_index(u, self.spec_max());
                        let j = (u - 64 * (block as int)) as u64;
                        assert(u / 64 == block as int && u % 64 == j) by (nonlinear_arith)
                            requires
                                64 * (block as int) <= u < 64 * (block as int) + 64,
                                j == u - 64 * (block as int),
                                u == 64 * (u / 64) + u % 64,
                                0 <= u % 64 < 64,
                        ;
                        let d = (offset - j) as u64;
                        assert(d < to_skip);
                        assert((shifted >> ((63 - d) as u64)) & 1u64 == 0u64);
                        assert(shifted == b << ((63 - offset) as u64) && ((shifted >> ((63 - d)
                            as u64)) & 1u64 == 0u64) && d <= offset && offset < 64 ==> (b >> ((
                        offset - d) as u64)) & 1u64 == 0u64) by (bit_vector);
                    } else {
                        assert(u > self.spec_max());
                    }
                }
            }
            Some(capped - to_skip)
        }
    }
}

} // verus!
