//! Sparse sets: decreasing-only subsets of `0..n` with O(1) membership,
//! O(1) removal, and O(1) restore on backtrack.
//!
//! The representation keeps two permutation arrays in non-backtrackable
//! storage — `values`, whose first `len` slots hold the current members, and
//! `positions`, its inverse — and only the length `len` in the storage mode
//! `M`.  Removal swaps the removed member past the length and decrements it.
//! With `M = Backtrackable`, a backtrack restores only `len`: a member that
//! was removed at a deeper level was swapped past the old length, so
//! restoring the length re-exposes it.

use crate::codec::Bytes;
use crate::storage::{Backtrackable, NonBacktrackable, StorageMode};
use crate::trail::{
    builder_extends, lemma_arena_extends_agrees, lemma_arena_extends_trans, ranges_disjoint,
    sel_mem, trail_extends, NonBacktrackableArray, Trail, TrailBuilder, TrailView, Value,
};
use vstd::prelude::*;

verus! {

/// A sparse set whose length is stored in backtrackable memory.
pub type BacktrackableSparseSet = SparseSet<Backtrackable>;

/// A sparse set whose length is stored in non-backtrackable memory.
pub type NonBacktrackableSparseSet = SparseSet<NonBacktrackable>;

/// A backtrackable subset of `0..n` that can only shrink between levels.
pub struct SparseSet<M> {
    values: NonBacktrackableArray<usize>,
    positions: NonBacktrackableArray<usize>,
    len: Value<M, usize>,
}

impl<M> Clone for SparseSet<M> {
    fn clone(&self) -> (r: Self)
        ensures
            r == *self,
    {
        SparseSet { values: self.values, positions: self.positions, len: self.len }
    }
}

impl<M> Copy for SparseSet<M> {}

impl<M> PartialEq for SparseSet<M> {
    /// Two sparse sets are equal exactly when all three of their handles are
    /// equal.
    fn eq(&self, other: &Self) -> (r: bool) {
        self.values == other.values && self.positions == other.positions && self.len == other.len
    }
}

impl<M> vstd::std_specs::cmp::PartialEqSpecImpl for SparseSet<M> {
    open spec fn obeys_eq_spec() -> bool {
        true
    }

    open spec fn eq_spec(&self, other: &Self) -> bool {
        &&& self.spec_values().spec_offset() == other.spec_values().spec_offset()
        &&& self.spec_values().spec_len() == other.spec_values().spec_len()
        &&& self.spec_positions().spec_offset() == other.spec_positions().spec_offset()
        &&& self.spec_positions().spec_len() == other.spec_positions().spec_len()
        &&& self.spec_len_handle().spec_offset() == other.spec_len_handle().spec_offset()
    }
}

impl<M> Eq for SparseSet<M> {}

impl<M> SparseSet<M> {
    /// The handle of the `values` permutation array.
    pub closed spec fn spec_values(self) -> NonBacktrackableArray<usize> {
        self.values
    }

    /// The handle of the `positions` permutation array.
    pub closed spec fn spec_positions(self) -> NonBacktrackableArray<usize> {
        self.positions
    }

    /// The handle of the trailed length.
    pub closed spec fn spec_len_handle(self) -> Value<M, usize> {
        self.len
    }
}

impl<M: StorageMode> SparseSet<M> {
    /// The size `n` of the universe `0..n`.
    pub open spec fn spec_universe(self) -> int {
        self.spec_values().spec_len()
    }

    /// The contents of the `values` array under the given trail view.
    pub open spec fn values_at(self, tv: TrailView) -> Seq<usize> {
        self.spec_values().view_at(tv)
    }

    /// The contents of the `positions` array under the given trail view.
    pub open spec fn positions_at(self, tv: TrailView) -> Seq<usize> {
        self.spec_positions().view_at(tv)
    }

    /// The current length under the given trail view.
    pub open spec fn len_at(self, tv: TrailView) -> int {
        self.spec_len_handle().spec_get_at(tv) as int
    }

    /// Membership under the given trail view: `v` is a member exactly when
    /// it is in the universe and its position lies below the length.
    pub open spec fn contains_at(self, tv: TrailView, v: int) -> bool {
        0 <= v < self.spec_universe() && (self.positions_at(tv)[v] as int) < self.len_at(tv)
    }

    /// The three handles are mutually disjoint where they share an arena,
    /// and the two permutation arrays have the universe's length.
    pub open spec fn handles_wf(self) -> bool {
        &&& self.spec_positions().spec_len() == self.spec_universe()
        &&& ranges_disjoint(
            self.spec_values().spec_offset(),
            self.spec_values().spec_end(),
            self.spec_positions().spec_offset(),
            self.spec_positions().spec_end(),
        )
        &&& (!M::spec_backtrackable() ==> ranges_disjoint(
            self.spec_len_handle().spec_offset(),
            self.spec_len_handle().spec_offset() + <usize as Bytes>::spec_length(),
            self.spec_values().spec_offset(),
            self.spec_values().spec_end(),
        ) && ranges_disjoint(
            self.spec_len_handle().spec_offset(),
            self.spec_len_handle().spec_offset() + <usize as Bytes>::spec_length(),
            self.spec_positions().spec_offset(),
            self.spec_positions().spec_end(),
        ))
    }

    /// Well-formedness under a trail view: the handles fit their arenas and
    /// are disjoint, the length is at most `n`, `values` and `positions` are
    /// mutually inverse permutations of `0..n`, and — for a backtrackable
    /// length — every saved snapshot also holds a length of at most `n`.
    pub open spec fn wf_at(self, tv: TrailView) -> bool {
        let n = self.spec_universe();
        let vs = self.values_at(tv);
        let ps = self.positions_at(tv);
        &&& self.handles_wf()
        &&& self.spec_values().wf_at(tv)
        &&& self.spec_positions().wf_at(tv)
        &&& self.spec_len_handle().wf_at(tv)
        &&& 0 <= self.len_at(tv) <= n
        &&& (forall|i: int| 0 <= i < n ==> (#[trigger] vs[i] as int) < n)
        &&& (forall|i: int| 0 <= i < n ==> (#[trigger] ps[i] as int) < n)
        &&& (forall|i: int| 0 <= i < n ==> (#[trigger] ps[vs[i] as int] as int) == i)
        &&& (forall|v: int| 0 <= v < n ==> (#[trigger] vs[ps[v] as int] as int) == v)
        &&& (M::spec_backtrackable() ==> forall|k: int|
            0 <= k < tv.levels.len() ==> {
                &&& self.spec_len_handle().wf_in(#[trigger] tv.levels[k])
                &&& (self.spec_len_handle().get_in(tv.levels[k]) as int) <= n
            })
    }

    /// Well-formedness on a trail.
    pub open spec fn wf(self, t: Trail) -> bool {
        self.wf_at(t@)
    }

    /// Membership on a trail.
    pub open spec fn spec_contains(self, t: Trail, v: int) -> bool {
        self.contains_at(t@, v)
    }

    /// The current length on a trail.
    pub open spec fn spec_len(self, t: Trail) -> int {
        self.len_at(t@)
    }

    /// Sparse-set invariants: `values[positions[v]] == v` and
    /// `positions[values[i]] == i` for the whole universe, and membership is
    /// equivalent to `positions[v] < len`.
    pub proof fn lemma_wf_invariants(self, t: Trail)
        requires
            self.wf(t),
        ensures
            forall|v: int|
                0 <= v < self.spec_universe() ==> (#[trigger] self.values_at(t@)[self.positions_at(
                    t@,
                )[v] as int] as int) == v,
            forall|i: int|
                0 <= i < self.spec_universe() ==> (#[trigger] self.positions_at(t@)[self.values_at(
                    t@,
                )[i] as int] as int) == i,
            forall|v: int|
                #[trigger] self.spec_contains(t, v) <==> (0 <= v < self.spec_universe() && (
                self.positions_at(t@)[v] as int) < self.spec_len(t)),
    {
    }

    /// Creates a new `SparseSet` initialized with all of `0..len`:
    /// `values[i] == positions[i] == i` and the stored length is `len`.
    pub fn new_full(builder: &mut TrailBuilder, len: usize) -> (r: Self)
        requires
            old(builder)@.non_backtrackable.len() + 16 * len + 8 <= usize::MAX,
            old(builder)@.backtrackable.len() + 8 <= usize::MAX,
        ensures
            r.spec_universe() == len,
            r.wf_at(
                (TrailView {
                    backtrackable: final(builder)@.backtrackable,
                    non_backtrackable: final(builder)@.non_backtrackable,
                    levels: Seq::empty(),
                }),
            ),
            r.len_at(
                (TrailView {
                    backtrackable: final(builder)@.backtrackable,
                    non_backtrackable: final(builder)@.non_backtrackable,
                    levels: Seq::empty(),
                }),
            ) == len,
            forall|v: int|
                0 <= v < len ==> r.contains_at(
                    (TrailView {
                        backtrackable: final(builder)@.backtrackable,
                        non_backtrackable: final(builder)@.non_backtrackable,
                        levels: Seq::empty(),
                    }),
                    v,
                ),
            builder_extends(final(builder)@, old(builder)@),
            final(builder)@.non_backtrackable.len() == old(builder)@.non_backtrackable.len() + 16
                * len + (if M::spec_backtrackable() {
                0int
            } else {
                8int
            }),
            final(builder)@.backtrackable.len() == old(builder)@.backtrackable.len() + (
            if M::spec_backtrackable() {
                8int
            } else {
                0int
            }),
    {
        let mut identity: Vec<usize> = Vec::new();
        let mut i: usize = 0;
        while i < len
            invariant
                i <= len,
                identity@.len() == i,
                forall|k: int| 0 <= k < i ==> (#[trigger] identity@[k] as int) == k,
            decreases len - i,
        {
            identity.push(i);
            i += 1;
        }
        let ghost b0 = builder@;
        let values = NonBacktrackableArray::<usize>::new(builder, &identity);
        let ghost b1 = builder@;
        let positions = NonBacktrackableArray::<usize>::new(builder, &identity);
        let ghost b2 = builder@;
        let len_value = Value::<M, usize>::new(builder, len);
        let ghost b3 = builder@;
        let r = SparseSet { values, positions, len: len_value };
        proof {
            let tv = TrailView {
                backtrackable: b3.backtrackable,
                non_backtrackable: b3.non_backtrackable,
                levels: Seq::empty(),
            };
            let nbt1 = b1.non_backtrackable;
            let nbt2 = b2.non_backtrackable;
            let nbt3 = b3.non_backtrackable;
            // the second allocation appends, so the first array's bytes are kept
            assert forall|j: int| 0 <= j < nbt1.len() implies nbt1[j] == nbt2[j] by {
                assert(nbt2.subrange(0, nbt1.len() as int) == nbt1);
                assert(nbt1[j] == nbt2.subrange(0, nbt1.len() as int)[j]);
            }
            values.spec_pointer().lemma_frame(nbt1, nbt2);
            // allocating the length value leaves the arrays' bytes in place
            assert forall|j: int| 0 <= j < nbt2.len() implies nbt2[j] == nbt3[j] by {
                if M::spec_backtrackable() {
                    assert(nbt3 == nbt2);
                } else {
                    assert(nbt3 == nbt2 + len.to_bytes());
                    assert(nbt3[j] == (nbt2 + len.to_bytes())[j]);
                }
            }
            values.spec_pointer().lemma_frame(nbt2, nbt3);
            positions.spec_pointer().lemma_frame(nbt2, nbt3);
            assert(r.values_at(tv) == identity@);
            assert(r.positions_at(tv) == identity@);
            let n = len as int;
            assert forall|i: int| 0 <= i < n implies (#[trigger] r.positions_at(tv)[r.values_at(
                tv,
            )[i] as int] as int) == i by {
                assert(r.values_at(tv)[i] as int == i);
            }
            assert forall|v: int| 0 <= v < n implies (#[trigger] r.values_at(tv)[r.positions_at(
                tv,
            )[v] as int] as int) == v by {
                assert(r.positions_at(tv)[v] as int == v);
            }
            lemma_arena_extends_trans(b2.backtrackable, b1.backtrackable, b0.backtrackable);
            lemma_arena_extends_trans(b3.backtrackable, b2.backtrackable, b0.backtrackable);
            lemma_arena_extends_trans(
                b2.non_backtrackable,
                b1.non_backtrackable,
                b0.non_backtrackable,
            );
            lemma_arena_extends_trans(
                b3.non_backtrackable,
                b2.non_backtrackable,
                b0.non_backtrackable,
            );
        }
        r
    }

    /// Growing either arena by appending leaves the sparse set's
    /// well-formedness, contents, and membership untouched.
    pub proof fn lemma_wf_extend(self, tv1: TrailView, tv2: TrailView)
        requires
            self.wf_at(tv1),
            trail_extends(tv2, tv1),
        ensures
            self.wf_at(tv2),
            self.values_at(tv2) == self.values_at(tv1),
            self.positions_at(tv2) == self.positions_at(tv1),
            self.len_at(tv2) == self.len_at(tv1),
            forall|w: int| #[trigger] self.contains_at(tv2, w) <==> self.contains_at(tv1, w),
    {
        lemma_arena_extends_agrees(tv2.non_backtrackable, tv1.non_backtrackable);
        lemma_arena_extends_agrees(tv2.backtrackable, tv1.backtrackable);
        self.spec_values().spec_pointer().lemma_frame(
            tv1.non_backtrackable,
            tv2.non_backtrackable,
        );
        self.spec_positions().spec_pointer().lemma_frame(
            tv1.non_backtrackable,
            tv2.non_backtrackable,
        );
        if M::spec_backtrackable() {
            self.spec_len_handle().spec_pointer().lemma_frame(
                tv1.backtrackable,
                tv2.backtrackable,
            );
        } else {
            self.spec_len_handle().spec_pointer().lemma_frame(
                tv1.non_backtrackable,
                tv2.non_backtrackable,
            );
        }
        assert(self.values_at(tv2) == self.values_at(tv1));
        assert(self.positions_at(tv2) == self.positions_at(tv1));
        assert(self.len_at(tv2) == self.len_at(tv1));
    }

    /// The bytes of the `values` array's window.
    pub open spec fn owns_values_byte(self, p: int) -> bool {
        self.spec_values().spec_offset() <= p < self.spec_values().spec_end()
    }

    /// The bytes of the `positions` array's window.
    pub open spec fn owns_positions_byte(self, p: int) -> bool {
        self.spec_positions().spec_offset() <= p < self.spec_positions().spec_end()
    }

    /// The sparse set's own bytes in the non-backtrackable arena: the two
    /// permutation arrays, and the length when `M` is non-backtrackable.
    pub open spec fn owns_nbt_byte(self, p: int) -> bool {
        ||| self.spec_values().spec_offset() <= p < self.spec_values().spec_end()
        ||| self.spec_positions().spec_offset() <= p < self.spec_positions().spec_end()
        ||| (!M::spec_backtrackable() && self.spec_len_handle().spec_offset() <= p
            < self.spec_len_handle().spec_offset() + <usize as Bytes>::spec_length())
    }

    /// The sparse set's own bytes in the backtrackable arena: the length
    /// when `M` is backtrackable, and nothing else.
    pub open spec fn owns_bt_byte(self, p: int) -> bool {
        M::spec_backtrackable() && self.spec_len_handle().spec_offset() <= p
            < self.spec_len_handle().spec_offset() + <usize as Bytes>::spec_length()
    }

    /// Returns the number of elements currently in the set.
    pub fn len(&self, trail: &Trail) -> (r: usize)
        requires
            self.wf(*trail),
        ensures
            r as int == self.spec_len(*trail),
    {
        self.len.get(trail)
    }

    /// Checks whether the set is empty.
    pub fn is_empty(&self, trail: &Trail) -> (r: bool)
        requires
            self.wf(*trail),
        ensures
            r == (self.spec_len(*trail) == 0),
    {
        self.len.get(trail) == 0
    }

    /// Checks whether the set contains `val`: true exactly when `val` is in
    /// the universe and its position lies below the current length.
    pub fn contains(&self, trail: &Trail, val: usize) -> (r: bool)
        requires
            self.wf(*trail),
        ensures
            r == self.spec_contains(*trail, val as int),
    {
        val < self.positions.len() && self.positions.get(trail, val) < self.len.get(trail)
    }

    /// Returns the current elements of the set, in the order in which they
    /// lie in the `values` array (the order induced by prior removals).
    pub fn iter(&self, trail: &Trail) -> (r: Vec<usize>)
        requires
            self.wf(*trail),
        ensures
            r@ == self.values_at(trail@).take(self.spec_len(*trail)),
    {
        let n = self.len.get(trail);
        let mut out: Vec<usize> = Vec::new();
        let mut i: usize = 0;
        while i < n
            invariant
                self.wf(*trail),
                n as int == self.spec_len(*trail),
                i <= n,
                out@ == self.values_at(trail@).take(i as int),
            decreases n - i,
        {
            out.push(self.values.get(trail, i));
            proof {
                assert(out@ =~= self.values_at(trail@).take(i as int + 1));
            }
            i += 1;
        }
        out
    }

    /// Swaps the elements at positions `i` and `j` of the `values` array and
    /// fixes `positions` to match, preserving the inverse-permutation
    /// invariant and the stored length.
    fn swap(&self, trail: &mut Trail, i: usize, j: usize)
        requires
            self.wf(*old(trail)),
            i < self.spec_universe(),
            j < self.spec_universe(),
        ensures
            self.wf(*final(trail)),
            self.values_at(final(trail)@) == self.values_at(old(trail)@).update(
                i as int,
                self.values_at(old(trail)@)[j as int],
            ).update(j as int, self.values_at(old(trail)@)[i as int]),
            self.positions_at(final(trail)@) == self.positions_at(old(trail)@).update(
                self.values_at(old(trail)@)[i as int] as int,
                j,
            ).update(self.values_at(old(trail)@)[j as int] as int, i),
            self.len_at(final(trail)@) == self.len_at(old(trail)@),
            final(trail)@.levels == old(trail)@.levels,
            final(trail)@.backtrackable == old(trail)@.backtrackable,
            final(trail)@.non_backtrackable.len() == old(trail)@.non_backtrackable.len(),
            forall|p: int|
                0 <= p < old(trail)@.non_backtrackable.len() && !self.owns_nbt_byte(p)
                    ==> final(trail)@.non_backtrackable[p] == old(trail)@.non_backtrackable[p],
    {
        let ghost t0 = *old(trail);
        let val_i = self.values.get(trail, i);
        let val_j = self.values.get(trail, j);

        self.values.set(trail, i, val_j);
        let ghost t1 = *trail;
        self.values.set(trail, j, val_i);
        let ghost t2 = *trail;
        proof {
            self.values.lemma_elem_bounds(i as int);
            self.values.lemma_elem_bounds(j as int);
            assert forall|p: int|
                self.spec_positions().spec_offset() <= p
                    < self.spec_positions().spec_end() implies sel_mem::<NonBacktrackable>(t0@)[p]
                == sel_mem::<NonBacktrackable>(t2@)[p] by {
                assert(sel_mem::<NonBacktrackable>(t0@)[p] == sel_mem::<NonBacktrackable>(t1@)[p]);
                assert(sel_mem::<NonBacktrackable>(t1@)[p] == sel_mem::<NonBacktrackable>(t2@)[p]);
            }
            self.positions.lemma_depends_only_on_arena(t0, t2);
            assert forall|p: int|
                self.spec_len_handle().spec_offset() <= p < self.spec_len_handle().spec_offset()
                    + <usize as Bytes>::spec_length() implies sel_mem::<M>(t0@)[p] == sel_mem::<M>(
                t2@,
            )[p] by {
                if M::spec_backtrackable() {
                    assert(t0@.backtrackable == t1@.backtrackable);
                    assert(t1@.backtrackable == t2@.backtrackable);
                } else {
                    assert(sel_mem::<NonBacktrackable>(t0@)[p] == sel_mem::<NonBacktrackable>(
                        t1@,
                    )[p]);
                    assert(sel_mem::<NonBacktrackable>(t1@)[p] == sel_mem::<NonBacktrackable>(
                        t2@,
                    )[p]);
                }
            }
            self.spec_len_handle().lemma_depends_only_on_arena(t0, t2);
            assert(sel_mem::<NonBacktrackable>(t2@).len() == sel_mem::<NonBacktrackable>(
                t0@,
            ).len());
            assert(self.positions.wf_at(t2@));
            assert(val_i == self.values_at(t0@)[i as int]);
            assert(val_j == self.values_at(t0@)[j as int]);
            assert((self.values_at(t0@)[i as int] as int) < self.spec_universe());
            assert((self.values_at(t0@)[j as int] as int) < self.spec_universe());
        }
        self.positions.set(trail, val_i, j);
        let ghost t3 = *trail;
        proof {
            assert(sel_mem::<NonBacktrackable>(t3@).len() == sel_mem::<NonBacktrackable>(
                t2@,
            ).len());
            assert(self.positions.wf_at(t3@));
        }
        self.positions.set(trail, val_j, i);
        let ghost t4 = *trail;
        proof {
            self.positions.lemma_elem_bounds(val_i as int);
            self.positions.lemma_elem_bounds(val_j as int);
            assert forall|p: int|
                self.spec_values().spec_offset() <= p
                    < self.spec_values().spec_end() implies sel_mem::<NonBacktrackable>(t2@)[p]
                == sel_mem::<NonBacktrackable>(t4@)[p] by {
                assert(sel_mem::<NonBacktrackable>(t2@)[p] == sel_mem::<NonBacktrackable>(t3@)[p]);
                assert(sel_mem::<NonBacktrackable>(t3@)[p] == sel_mem::<NonBacktrackable>(t4@)[p]);
            }
            self.values.lemma_depends_only_on_arena(t2, t4);
            assert forall|p: int|
                self.spec_len_handle().spec_offset() <= p < self.spec_len_handle().spec_offset()
                    + <usize as Bytes>::spec_length() implies sel_mem::<M>(t2@)[p] == sel_mem::<M>(
                t4@,
            )[p] by {
                if M::spec_backtrackable() {
                    assert(t2@.backtrackable == t3@.backtrackable);
                    assert(t3@.backtrackable == t4@.backtrackable);
                } else {
                    assert(sel_mem::<NonBacktrackable>(t2@)[p] == sel_mem::<NonBacktrackable>(
                        t3@,
                    )[p]);
                    assert(sel_mem::<NonBacktrackable>(t3@)[p] == sel_mem::<NonBacktrackable>(
                        t4@,
                    )[p]);
                }
            }
            self.spec_len_handle().lemma_depends_only_on_arena(t2, t4);

            let n = self.spec_universe();
            let vs0 = self.values_at(t0@);
            let ps0 = self.positions_at(t0@);
            let vs = self.values_at(t4@);
            let ps = self.positions_at(t4@);
            assert(vs =~= vs0.update(i as int, vs0[j as int]).update(j as int, vs0[i as int]));
            assert(ps =~= ps0.update(vs0[i as int] as int, j).update(vs0[j as int] as int, i));
            assert forall|k: int| 0 <= k < n implies (#[trigger] ps[vs[k] as int] as int) == k by {
                assert(ps0[vs0[i as int] as int] as int == i as int);
                assert(ps0[vs0[j as int] as int] as int == j as int);
                assert(ps0[vs0[k] as int] as int == k);
                if k == i as int {
                    assert(vs[k] == vs0[j as int]);
                } else if k == j as int {
                    assert(vs[k] == vs0[i as int]);
                    assert(vs0[i as int] == vs0[j as int] ==> i as int == j as int);
                } else {
                    assert(vs[k] == vs0[k]);
                    assert(vs0[k] as int != vs0[i as int] as int);
                    assert(vs0[k] as int != vs0[j as int] as int);
                }
            }
            assert forall|v: int| 0 <= v < n implies (#[trigger] vs[ps[v] as int] as int) == v by {
                assert(ps0[vs0[i as int] as int] as int == i as int);
                assert(ps0[vs0[j as int] as int] as int == j as int);
                if v == vs0[i as int] as int {
                    assert(vs0[i as int] == vs0[j as int] ==> i as int == j as int);
                    assert(ps[v] as int == j as int || (i as int == j as int && ps[v] as int
                        == i as int));
                } else if v == vs0[j as int] as int {
                    assert(ps[v] as int == i as int);
                } else {
                    assert(ps[v] == ps0[v]);
                    assert(vs0[ps0[v] as int] as int == v);
                    assert(ps0[v] as int != i as int);
                    assert(ps0[v] as int != j as int);
                }
            }
        }
    }

    /// Removes `val` from the set if present: swaps it to just past the new
    /// length and decrements the length.  Removing an absent or out-of-range
    /// value is a no-op; removal is idempotent.
    pub fn remove(&self, trail: &mut Trail, val: usize)
        requires
            self.wf(*old(trail)),
        ensures
            self.wf(*final(trail)),
            forall|w: int|
                #[trigger] self.spec_contains(*final(trail), w) <==> (self.spec_contains(
                    *old(trail),
                    w,
                ) && w != val as int),
            self.spec_len(*final(trail)) == self.spec_len(*old(trail)) - (
            if self.spec_contains(*old(trail), val as int) {
                1int
            } else {
                0int
            }),
            final(trail)@.levels == old(trail)@.levels,
            final(trail)@.non_backtrackable.len() == old(trail)@.non_backtrackable.len(),
            final(trail)@.backtrackable.len() == old(trail)@.backtrackable.len(),
            forall|p: int|
                0 <= p < old(trail)@.non_backtrackable.len() && !self.owns_nbt_byte(p)
                    ==> final(trail)@.non_backtrackable[p] == old(trail)@.non_backtrackable[p],
            forall|p: int|
                0 <= p < old(trail)@.backtrackable.len() && !self.owns_bt_byte(p)
                    ==> final(trail)@.backtrackable[p] == old(trail)@.backtrackable[p],
    {
        let ghost t0 = *old(trail);
        if self.contains(trail, val) {
            let position = self.positions.get(trail, val);
            let size = self.len.get(trail);
            let new_size = size - 1;
            self.swap(trail, position, new_size);
            let ghost t1 = *trail;
            self.len.set(trail, new_size);
            let ghost t2 = *trail;
            proof {
                assert forall|p: int|
                    self.spec_values().spec_offset() <= p
                        < self.spec_values().spec_end() implies sel_mem::<NonBacktrackable>(
                    t1@,
                )[p] == sel_mem::<NonBacktrackable>(t2@)[p] by {
                    if M::spec_backtrackable() {
                        assert(t1@.non_backtrackable == t2@.non_backtrackable);
                    } else {
                        assert(sel_mem::<M>(t1@)[p] == sel_mem::<M>(t2@)[p]);
                    }
                }
                assert forall|p: int|
                    self.spec_positions().spec_offset() <= p
                        < self.spec_positions().spec_end() implies sel_mem::<NonBacktrackable>(
                    t1@,
                )[p] == sel_mem::<NonBacktrackable>(t2@)[p] by {
                    if M::spec_backtrackable() {
                        assert(t1@.non_backtrackable == t2@.non_backtrackable);
                    } else {
                        assert(sel_mem::<M>(t1@)[p] == sel_mem::<M>(t2@)[p]);
                    }
                }
                self.values.lemma_depends_only_on_arena(t1, t2);
                self.positions.lemma_depends_only_on_arena(t1, t2);
                let n = self.spec_universe();
                let vs0 = self.values_at(t0@);
                let ps0 = self.positions_at(t0@);
                let ps = self.positions_at(t2@);
                let u = vs0[new_size as int];
                assert(vs0[position as int] as int == val as int);
                assert(ps0[u as int] as int == new_size as int);
                assert forall|w: int| #[trigger] self.contains_at(t2@, w) <==> (self.contains_at(
                    t0@,
                    w,
                ) && w != val as int) by {
                    if 0 <= w < n {
                        if w == val as int {
                            assert(ps[w] as int == new_size as int);
                        } else if w == u as int {
                            assert(ps[w] as int == position as int);
                            assert(position as int != new_size as int);
                        } else {
                            assert(ps[w] == ps0[w]);
                            assert(ps0[w] as int != new_size as int || w == u as int);
                        }
                    }
                }
            }
        } else {
            proof {
                assert forall|w: int| #[trigger] self.contains_at(t0@, w) <==> (self.contains_at(
                    t0@,
                    w,
                ) && w != val as int) by {}
            }
        }
    }

    /// Keeps only the elements accepted by the predicate.  Positions are
    /// visited from the top down, so that after a rejection the indices
    /// still below the length hold elements not yet tested.
    pub fn filter<F: Fn(usize) -> bool>(&self, trail: &mut Trail, f: F)
        requires
            self.wf(*old(trail)),
            forall|x: usize|
                (x as int) < self.spec_universe() ==> #[trigger] call_requires(f, (x,)),
        ensures
            self.wf(*final(trail)),
            forall|w: int|
                #[trigger] self.spec_contains(*final(trail), w) ==> self.spec_contains(
                    *old(trail),
                    w,
                ),
            forall|w: int|
                #[trigger] self.spec_contains(*final(trail), w) ==> call_ensures(
                    f,
                    ((w as usize),),
                    true,
                ),
            forall|w: int|
                self.spec_contains(*old(trail), w) && !(#[trigger] self.spec_contains(
                    *final(trail),
                    w,
                )) ==> call_ensures(f, ((w as usize),), false),
            final(trail)@.levels == old(trail)@.levels,
            final(trail)@.non_backtrackable.len() == old(trail)@.non_backtrackable.len(),
            final(trail)@.backtrackable.len() == old(trail)@.backtrackable.len(),
            forall|p: int|
                0 <= p < old(trail)@.non_backtrackable.len() && !self.owns_nbt_byte(p)
                    ==> final(trail)@.non_backtrackable[p] == old(trail)@.non_backtrackable[p],
            forall|p: int|
                0 <= p < old(trail)@.backtrackable.len() && !self.owns_bt_byte(p)
                    ==> final(trail)@.backtrackable[p] == old(trail)@.backtrackable[p],
    {
        let ghost t0 = *old(trail);
        let mut position = self.len.get(trail);
        while position > 0
            invariant
                self.wf(*trail),
                forall|x: usize|
                    (x as int) < self.spec_universe() ==> #[trigger] call_requires(f, (x,)),
                position <= self.spec_len(*trail),
                self.spec_len(*trail) <= self.spec_len(t0),
                forall|w: int|
                    #[trigger] self.spec_contains(*trail, w) ==> self.spec_contains(t0, w),
                forall|w: int|
                    self.spec_contains(t0, w) && !(#[trigger] self.spec_contains(*trail, w))
                        ==> call_ensures(f, ((w as usize),), false),
                forall|w: int|
                    #[trigger] self.spec_contains(*trail, w) && position <= (self.positions_at(
                        trail@,
                    )[w] as int) ==> call_ensures(f, ((w as usize),), true),
                trail@.levels == t0@.levels,
                trail@.non_backtrackable.len() == t0@.non_backtrackable.len(),
                trail@.backtrackable.len() == t0@.backtrackable.len(),
                forall|p: int|
                    0 <= p < t0@.non_backtrackable.len() && !self.owns_nbt_byte(p)
                        ==> trail@.non_backtrackable[p] == t0@.non_backtrackable[p],
                forall|p: int|
                    0 <= p < t0@.backtrackable.len() && !self.owns_bt_byte(p)
                        ==> trail@.backtrackable[p] == t0@.backtrackable[p],
            decreases position,
        {
            position -= 1;
            let ghost ta = *trail;
            let val = self.values.get(trail, position);
            proof {
                assert(val == self.values_at(ta@)[position as int]);
                assert((self.values_at(ta@)[position as int] as int) < self.spec_universe());
                assert((self.positions_at(ta@)[val as int] as int) == position as int);
            }
            let keep = f(val);
            if !keep {
                let size = self.len.get(trail);
                let new_size = size - 1;
                self.swap(trail, position, new_size);
                let ghost tb = *trail;
                self.len.set(trail, new_size);
                let ghost tc = *trail;
                proof {
                    assert forall|p: int|
                        self.spec_values().spec_offset() <= p
                            < self.spec_values().spec_end() implies sel_mem::<NonBacktrackable>(
                        tb@,
                    )[p] == sel_mem::<NonBacktrackable>(tc@)[p] by {
                        if M::spec_backtrackable() {
                            assert(tb@.non_backtrackable == tc@.non_backtrackable);
                        } else {
                            assert(sel_mem::<M>(tb@)[p] == sel_mem::<M>(tc@)[p]);
                        }
                    }
                    assert forall|p: int|
                        self.spec_positions().spec_offset() <= p
                            < self.spec_positions().spec_end() implies sel_mem::<NonBacktrackable>(
                        tb@,
                    )[p] == sel_mem::<NonBacktrackable>(tc@)[p] by {
                        if M::spec_backtrackable() {
                            assert(tb@.non_backtrackable == tc@.non_backtrackable);
                        } else {
                            assert(sel_mem::<M>(tb@)[p] == sel_mem::<M>(tc@)[p]);
                        }
                    }
                    self.values.lemma_depends_only_on_arena(tb, tc);
                    self.positions.lemma_depends_only_on_arena(tb, tc);

                    let n = self.spec_universe();
                    let vsa = self.values_at(ta@);
                    let psa = self.positions_at(ta@);
                    let ps = self.positions_at(tc@);
                    let u = vsa[new_size as int];
                    assert(psa[u as int] as int == new_size as int);
                    assert forall|w: int| #[trigger] self.contains_at(tc@, w) <==> (
                    self.contains_at(ta@, w) && w != val as int) by {
                        if 0 <= w < n {
                            if w == val as int {
                                assert(ps[w] as int == new_size as int);
                            } else if w == u as int {
                                assert(ps[w] as int == position as int);
                                assert(position as int != new_size as int);
                            } else {
                                assert(ps[w] == psa[w]);
                                assert(psa[w] as int != new_size as int || w == u as int);
                            }
                        }
                    }
                    assert forall|w: int| #[trigger] self.spec_contains(tc, w) implies
                        self.spec_contains(t0, w) by {
                        assert(self.contains_at(tc@, w));
                        assert(self.contains_at(ta@, w));
                        assert(self.spec_contains(ta, w));
                    }
                    assert forall|w: int|
                        self.spec_contains(t0, w) && !(#[trigger] self.spec_contains(tc, w))
                            implies call_ensures(f, ((w as usize),), false) by {
                        if self.contains_at(ta@, w) {
                            assert(!self.contains_at(tc@, w));
                            assert(w == val as int);
                            assert((w as usize) == val);
                        } else {
                            assert(!self.spec_contains(ta, w));
                        }
                    }
                    assert forall|w: int|
                        #[trigger] self.spec_contains(tc, w) && position as int <= (
                        self.positions_at(tc@)[w] as int) implies call_ensures(
                        f,
                        ((w as usize),),
                        true,
                    ) by {
                        assert(self.contains_at(ta@, w) && w != val as int);
                        let psa_w = self.positions_at(ta@)[w] as int;
                        if w == u as int {
                            assert(psa_w == new_size as int);
                            assert(position as int != new_size as int);
                        } else {
                            assert(self.positions_at(tc@)[w] == self.positions_at(ta@)[w]);
                            assert((self.values_at(ta@)[psa_w] as int) == w);
                            assert(psa_w != position as int);
                        }
                        assert(position as int + 1 <= psa_w);
                        assert(self.spec_contains(ta, w));
                    }
                }
            } else {
                proof {
                    assert forall|w: int|
                        #[trigger] self.spec_contains(ta, w) && position as int <= (
                        self.positions_at(ta@)[w] as int) implies call_ensures(
                        f,
                        ((w as usize),),
                        true,
                    ) by {
                        let psa_w = self.positions_at(ta@)[w] as int;
                        if psa_w == position as int {
                            assert((self.values_at(ta@)[psa_w] as int) == w);
                            assert(w == val as int);
                            assert((w as usize) == val);
                        } else {
                            assert(position as int + 1 <= psa_w);
                        }
                    }
                }
            }
        }
    }

    /// Intersects the set with the given values: afterwards the set holds
    /// exactly its prior members that also occur in `vals`.  The input is
    /// first sorted and deduplicated, so repeated candidates are harmless.
    pub fn intersect(&self, trail: &mut Trail, vals: Vec<usize>)
        requires
            self.wf(*old(trail)),
        ensures
            self.wf(*final(trail)),
            forall|w: int|
                #[trigger] self.spec_contains(*final(trail), w) <==> (self.spec_contains(
                    *old(trail),
                    w,
                ) && vals@.contains(w as usize)),
            self.spec_len(*final(trail)) <= self.spec_len(*old(trail)),
            final(trail)@.levels == old(trail)@.levels,
            final(trail)@.non_backtrackable.len() == old(trail)@.non_backtrackable.len(),
            final(trail)@.backtrackable.len() == old(trail)@.backtrackable.len(),
            forall|p: int|
                0 <= p < old(trail)@.non_backtrackable.len() && !self.owns_nbt_byte(p)
                    ==> final(trail)@.non_backtrackable[p] == old(trail)@.non_backtrackable[p],
            forall|p: int|
                0 <= p < old(trail)@.backtrackable.len() && !self.owns_bt_byte(p)
                    ==> final(trail)@.backtrackable[p] == old(trail)@.backtrackable[p],
    {
        let ghost t0 = *old(trail);
        let candidates = sorted_unique(&vals);
        let k = candidates.len();
        let mut new_size: usize = 0;
        let mut idx: usize = 0;
        while idx < k
            invariant
                self.wf(*trail),
                k == candidates@.len(),
                idx <= k,
                forall|p2: int, q2: int|
                    0 <= p2 < q2 < candidates@.len() ==> candidates@[p2] < candidates@[q2],
                forall|x: usize| candidates@.contains(x) <==> vals@.contains(x),
                new_size as int <= self.spec_len(*trail),
                self.spec_len(*trail) == self.spec_len(t0),
                forall|w: int| #[trigger] self.spec_contains(*trail, w) <==> self.spec_contains(t0, w),
                forall|w: int|
                    0 <= w < self.spec_universe() ==> ((#[trigger] self.positions_at(trail@)[w]
                        as int) < new_size as int <==> (self.spec_contains(t0, w)
                        && candidates@.take(idx as int).contains(w as usize))),
                trail@.levels == t0@.levels,
                trail@.non_backtrackable.len() == t0@.non_backtrackable.len(),
                trail@.backtrackable.len() == t0@.backtrackable.len(),
                forall|p: int|
                    0 <= p < t0@.non_backtrackable.len() && !self.owns_nbt_byte(p)
                        ==> trail@.non_backtrackable[p] == t0@.non_backtrackable[p],
                forall|p: int|
                    0 <= p < t0@.backtrackable.len() && !self.owns_bt_byte(p)
                        ==> trail@.backtrackable[p] == t0@.backtrackable[p],
            decreases k - idx,
        {
            let v = candidates[idx];
            let ghost ta = *trail;
            proof {
                assert(candidates@.take(idx as int + 1) =~= candidates@.take(idx as int).push(
                    candidates@[idx as int],
                ));
            }
            if self.contains(trail, v) {
                let position = self.positions.get(trail, v);
                proof {
                    // v has not been committed yet: committed values are the
                    // candidates already seen, and they are all smaller
                    assert(candidates@.take(idx as int).contains(v) ==> exists|e: int|
                        0 <= e < idx && candidates@.take(idx as int)[e] == v);
                    if candidates@.take(idx as int).contains(v) {
                        let e = choose|e: int|
                            0 <= e < idx && candidates@.take(idx as int)[e] == v;
                        assert(candidates@[e] == v);
                        assert(candidates@[e] < candidates@[idx as int]);
                    }
                    assert(!candidates@.take(idx as int).contains(v));
                    assert(new_size as int <= (self.positions_at(ta@)[v as int] as int));
                }
                self.swap(trail, position, new_size);
                let ghost tb = *trail;
                proof {
                    let n = self.spec_universe();
                    let vsa = self.values_at(ta@);
                    let psa = self.positions_at(ta@);
                    let ps = self.positions_at(tb@);
                    let u = vsa[new_size as int];
                    assert(psa[u as int] as int == new_size as int);
                    assert(vsa[position as int] as int == v as int);
                    assert forall|w: int|
                        0 <= w < n implies ((#[trigger] ps[w] as int) < new_size as int + 1 <==> (
                        self.contains_at(t0@, w) && candidates@.take(idx as int + 1).contains(
                            w as usize,
                        ))) by {
                        lemma_take_one_more(candidates@, idx as int, w as usize);
                        if w == v as int {
                            assert(ps[w] as int == new_size as int);
                            assert(candidates@.take(idx as int + 1).contains(v));
                            assert(self.spec_contains(ta, w));
                            assert(self.spec_contains(t0, w));
                        } else if w == u as int {
                            assert(ps[w] as int == position as int);
                            assert(position as int >= new_size as int);
                            if position as int == new_size as int {
                                assert(u as int == v as int);
                            }
                            assert((psa[w] as int) == new_size as int);
                            assert(self.spec_contains(ta, w));
                            assert(self.spec_contains(t0, w));
                            assert(!candidates@.take(idx as int).contains(w as usize));
                            assert(!candidates@.take(idx as int + 1).contains(w as usize));
                            assert(position as int != new_size as int);
                        } else {
                            assert(ps[w] == psa[w]);
                            assert((vsa[psa[w] as int] as int) == w);
                            assert((psa[w] as int) != new_size as int);
                        }
                    }
                    // membership under the unchanged length is preserved by the swap
                    assert forall|w: int|
                        (#[trigger] self.contains_at(tb@, w) <==> self.contains_at(ta@, w)) by {
                        if 0 <= w < n {
                            if w == v as int {
                                assert(ps[w] as int == new_size as int);
                                assert(psa[w] as int == position as int);
                            } else if w == u as int {
                                assert(ps[w] as int == position as int);
                                assert(psa[w] as int == new_size as int);
                            } else {
                                assert(ps[w] == psa[w]);
                            }
                            assert((new_size as int) < self.len_at(ta@));
                            assert((position as int) < self.len_at(ta@));
                        }
                    }
                    assert forall|w: int|
                        (#[trigger] self.spec_contains(tb, w) <==> self.spec_contains(t0, w)) by {
                        assert(self.contains_at(tb@, w) <==> self.contains_at(ta@, w));
                        assert(self.spec_contains(ta, w) <==> self.spec_contains(t0, w));
                    }
                }
                new_size += 1;
            } else {
                proof {
                    assert forall|w: int|
                        0 <= w < self.spec_universe() implies ((#[trigger] self.positions_at(
                        ta@,
                    )[w] as int) < new_size as int <==> (self.contains_at(t0@, w)
                        && candidates@.take(idx as int + 1).contains(w as usize))) by {
                        lemma_take_one_more(candidates@, idx as int, w as usize);
                        assert(candidates@[idx as int] == v);
                        if w == v as int {
                            assert(!self.spec_contains(ta, w));
                            assert(!self.spec_contains(t0, w));
                            assert((self.positions_at(ta@)[w] as int) >= self.len_at(ta@));
                        } else {
                            assert(w == (w as usize) as int);
                            assert((w as usize) != v);
                            assert(candidates@.take(idx as int + 1).contains(w as usize)
                                <==> candidates@.take(idx as int).contains(w as usize));
                            assert(((self.positions_at(ta@)[w] as int) < new_size as int) <==> (
                            self.spec_contains(t0, w) && candidates@.take(idx as int).contains(
                                w as usize,
                            )));
                            assert(self.contains_at(t0@, w) == self.spec_contains(t0, w));
                        }
                    }
                }
            }
            idx += 1;
        }
        let ghost tl = *trail;
        self.len.set(trail, new_size);
        let ghost tf = *trail;
        proof {
            assert forall|p: int|
                self.spec_values().spec_offset() <= p
                    < self.spec_values().spec_end() implies sel_mem::<NonBacktrackable>(tl@)[p]
                == sel_mem::<NonBacktrackable>(tf@)[p] by {
                if M::spec_backtrackable() {
                    assert(tl@.non_backtrackable == tf@.non_backtrackable);
                } else {
                    assert(sel_mem::<M>(tl@)[p] == sel_mem::<M>(tf@)[p]);
                }
            }
            assert forall|p: int|
                self.spec_positions().spec_offset() <= p
                    < self.spec_positions().spec_end() implies sel_mem::<NonBacktrackable>(tl@)[p]
                == sel_mem::<NonBacktrackable>(tf@)[p] by {
                if M::spec_backtrackable() {
                    assert(tl@.non_backtrackable == tf@.non_backtrackable);
                } else {
                    assert(sel_mem::<M>(tl@)[p] == sel_mem::<M>(tf@)[p]);
                }
            }
            self.values.lemma_depends_only_on_arena(tl, tf);
            self.positions.lemma_depends_only_on_arena(tl, tf);
            assert forall|w: int| #[trigger] self.spec_contains(tf, w) <==> (self.spec_contains(
                t0,
                w,
            ) && vals@.contains(w as usize)) by {
                if 0 <= w < self.spec_universe() {
                    assert(self.positions_at(tf@)[w] == self.positions_at(tl@)[w]);
                    assert(candidates@.take(candidates@.len() as int) =~= candidates@);
                } else {
                    assert(!self.spec_contains(tf, w));
                    assert(!self.spec_contains(t0, w));
                }
            }
            assert(self.values_at(tf@) == self.values_at(tl@));
            assert(self.positions_at(tf@) == self.positions_at(tl@));
            assert(self.len_at(tf@) == new_size as int);
            assert(self.spec_values().wf_at(tf@));
            assert(self.spec_positions().wf_at(tf@));
            assert(self.spec_len_handle().wf_at(tf@));
            assert(tf@.levels == tl@.levels);
            assert(self.wf_at(tf@));
        }
    }

    /// Writes that leave the sparse set's own bytes in place leave its
    /// well-formedness, contents, and membership untouched.
    pub proof fn lemma_frame(self, t1: Trail, t2: Trail)
        requires
            self.wf(t1),
            t2@.non_backtrackable.len() == t1@.non_backtrackable.len(),
            t2@.backtrackable.len() == t1@.backtrackable.len(),
            forall|p: int|
                0 <= p < t1@.non_backtrackable.len() && self.owns_nbt_byte(p)
                    ==> t2@.non_backtrackable[p] == t1@.non_backtrackable[p],
            forall|p: int|
                0 <= p < t1@.backtrackable.len() && self.owns_bt_byte(p) ==> t2@.backtrackable[p]
                    == t1@.backtrackable[p],
            t2@.levels == t1@.levels,
        ensures
            self.wf(t2),
            self.values_at(t2@) == self.values_at(t1@),
            self.positions_at(t2@) == self.positions_at(t1@),
            self.spec_len(t2) == self.spec_len(t1),
            forall|w: int| #[trigger] self.spec_contains(t2, w) <==> self.spec_contains(t1, w),
    {
        assert forall|p: int|
            self.spec_values().spec_offset() <= p
                < self.spec_values().spec_end() implies t1@.non_backtrackable[p]
            == t2@.non_backtrackable[p] by {
            assert(self.owns_nbt_byte(p));
        }
        assert forall|p: int|
            self.spec_positions().spec_offset() <= p
                < self.spec_positions().spec_end() implies t1@.non_backtrackable[p]
            == t2@.non_backtrackable[p] by {
            assert(self.owns_nbt_byte(p));
        }
        self.spec_values().spec_pointer().lemma_frame(
            t1@.non_backtrackable,
            t2@.non_backtrackable,
        );
        self.spec_positions().spec_pointer().lemma_frame(
            t1@.non_backtrackable,
            t2@.non_backtrackable,
        );
        if M::spec_backtrackable() {
            assert forall|p: int|
                self.spec_len_handle().spec_offset() <= p < self.spec_len_handle().spec_offset()
                    + <usize as Bytes>::spec_length() implies t1@.backtrackable[p]
                == t2@.backtrackable[p] by {
                assert(self.owns_bt_byte(p));
            }
            self.spec_len_handle().spec_pointer().lemma_frame(
                t1@.backtrackable,
                t2@.backtrackable,
            );
        } else {
            assert forall|p: int|
                self.spec_len_handle().spec_offset() <= p < self.spec_len_handle().spec_offset()
                    + <usize as Bytes>::spec_length() implies t1@.non_backtrackable[p]
                == t2@.non_backtrackable[p] by {
                assert(self.owns_nbt_byte(p));
            }
            self.spec_len_handle().spec_pointer().lemma_frame(
                t1@.non_backtrackable,
                t2@.non_backtrackable,
            );
        }
        assert(self.values_at(t2@) == self.values_at(t1@));
        assert(self.positions_at(t2@) == self.positions_at(t1@));
        assert(self.len_at(t2@) == self.len_at(t1@));
    }

    /// Adding a level preserves well-formedness, membership, and length:
    /// the new snapshot is the current backtrackable arena, whose stored
    /// length is already within bounds.
    pub proof fn lemma_new_level_preserves_wf(self, before: Trail, after: Trail)
        requires
            self.wf(before),
            after@.backtrackable == before@.backtrackable,
            after@.non_backtrackable == before@.non_backtrackable,
            after@.levels == before@.levels.push(before@.backtrackable),
        ensures
            self.wf(after),
            forall|w: int|
                #[trigger] self.spec_contains(after, w) <==> self.spec_contains(before, w),
            self.spec_len(after) == self.spec_len(before),
    {
        if M::spec_backtrackable() {
            assert forall|k: int| 0 <= k < after@.levels.len() implies {
                &&& self.spec_len_handle().wf_in(#[trigger] after@.levels[k])
                &&& (self.spec_len_handle().get_in(after@.levels[k]) as int)
                    <= self.spec_universe()
            } by {
                if k < before@.levels.len() {
                    assert(after@.levels[k] == before@.levels[k]);
                } else {
                    assert(after@.levels[k] == before@.backtrackable);
                    assert(sel_mem::<M>(before@) == before@.backtrackable);
                }
            }
        }
        assert(sel_mem::<M>(after@) == sel_mem::<M>(before@));
        assert(self.values_at(after@) == self.values_at(before@));
        assert(self.positions_at(after@) == self.positions_at(before@));
        assert(self.wf_at(after@));
    }

    /// Backtracking restores the stored length from the newest snapshot
    /// while the permutation arrays keep their current contents, so
    /// membership is decided by the restored length alone.  A member removed
    /// at a deeper level was swapped past the restored length and is a
    /// member again.
    pub proof fn lemma_backtrack_restores_wf(self, before: Trail, after: Trail)
        requires
            self.wf(before),
            before@.levels.len() > 0,
            after@.backtrackable == before@.levels.last(),
            after@.non_backtrackable == before@.non_backtrackable,
            after@.levels == before@.levels.drop_last(),
        ensures
            self.wf(after),
            self.values_at(after@) == self.values_at(before@),
            self.positions_at(after@) == self.positions_at(before@),
            forall|w: int|
                #[trigger] self.spec_contains(after, w) <==> (0 <= w < self.spec_universe() && (
                self.positions_at(before@)[w] as int) < self.spec_len(after)),
    {
        assert(sel_mem::<NonBacktrackable>(after@) == sel_mem::<NonBacktrackable>(before@));
        if M::spec_backtrackable() {
            let last = before@.levels.len() - 1;
            assert(before@.levels[last] == before@.levels.last());
            assert(self.spec_len_handle().wf_in(before@.levels[last]));
            assert((self.spec_len_handle().get_in(before@.levels[last]) as int)
                <= self.spec_universe());
            assert forall|k: int| 0 <= k < after@.levels.len() implies {
                &&& self.spec_len_handle().wf_in(#[trigger] after@.levels[k])
                &&& (self.spec_len_handle().get_in(after@.levels[k]) as int)
                    <= self.spec_universe()
            } by {
                assert(after@.levels[k] == before@.levels[k]);
            }
            assert(sel_mem::<M>(after@) == before@.levels.last());
            assert(self.spec_len_handle().wf_at(after@));
            assert(self.len_at(after@) <= self.spec_universe());
        } else {
            assert(sel_mem::<M>(after@) == sel_mem::<M>(before@));
        }
        assert(self.values_at(after@) == self.values_at(before@));
        assert(self.positions_at(after@) == self.positions_at(before@));
        assert(self.wf_at(after@));
    }
}

/// Taking one more element of a sequence adds exactly that element to the
/// members of the prefix.
proof fn lemma_take_one_more(s: Seq<usize>, i: int, y: usize)
    requires
        0 <= i < s.len(),
    ensures
        s.take(i + 1).contains(y) <==> (s.take(i).contains(y) || s[i] == y),
{
    assert(s.take(i + 1) =~= s.take(i).push(s[i]));
    if s.take(i).contains(y) {
        let e = choose|e: int| 0 <= e < i && #[trigger] s.take(i)[e] == y;
        assert(s.take(i + 1)[e] == y);
    }
    if s[i] == y {
        assert(s.take(i + 1)[i] == y);
    }
    if s.take(i + 1).contains(y) {
        let e = choose|e: int| 0 <= e < i + 1 && #[trigger] s.take(i + 1)[e] == y;
        if e < i {
            assert(s.take(i)[e] == y);
        }
    }
}

/// Builds the strictly increasing sequence of the distinct values of
/// `vals`: the same member set, sorted, without duplicates.
fn sorted_unique(vals: &Vec<usize>) -> (r: Vec<usize>)
    ensures
        forall|p: int, q: int| 0 <= p < q < r@.len() ==> r@[p] < r@[q],
        forall|x: usize| r@.contains(x) <==> vals@.contains(x),
{
    let mut r: Vec<usize> = Vec::new();
    let mut i: usize = 0;
    while i < vals.len()
        invariant
            i <= vals@.len(),
            forall|p: int, q: int| 0 <= p < q < r@.len() ==> r@[p] < r@[q],
            forall|x: usize| r@.contains(x) <==> vals@.take(i as int).contains(x),
        decreases vals@.len() - i,
    {
        let x = vals[i];
        let mut j: usize = 0;
        let rl = r.len();
        while j < rl && r[j] < x
            invariant
                j <= rl,
                rl == r@.len(),
                forall|p: int, q: int| 0 <= p < q < r@.len() ==> r@[p] < r@[q],
                forall|p2: int| 0 <= p2 < j ==> r@[p2] < x,
            decreases rl - j,
        {
            j += 1;
        }
        let ghost rold = r@;
        let take_it = if j == r.len() {
            true
        } else {
            r[j] > x
        };
        if take_it {
            r.insert(j, x);
            proof {
                assert(r@ =~= rold.take(j as int) + seq![x] + rold.skip(j as int));
                assert forall|p: int, q: int| 0 <= p < q < r@.len() implies r@[p] < r@[q] by {
                    assert(forall|e: int| 0 <= e < j ==> r@[e] == rold[e]);
                    assert(r@[j as int] == x);
                    assert(forall|e: int| j < e < r@.len() ==> r@[e] == rold[e - 1]);
                    assert(j < r@.len() - 1 ==> x < rold[j as int]);
                }
                assert forall|y: usize|
                    (#[trigger] r@.contains(y) <==> (rold.contains(y) || y == x)) by {
                    if rold.contains(y) {
                        let e = choose|e: int| 0 <= e < rold.len() && #[trigger] rold[e] == y;
                        if e < j {
                            assert(r@[e] == y);
                        } else {
                            assert(r@[e + 1] == y);
                        }
                        assert(r@.contains(y));
                    }
                    if y == x {
                        assert(r@[j as int] == y);
                        assert(r@.contains(y));
                    }
                    if r@.contains(y) {
                        let e = choose|e: int| 0 <= e < r@.len() && #[trigger] r@[e] == y;
                        if e < j {
                            assert(rold[e] == y);
                            assert(rold.contains(y));
                        } else if e == j {
                            assert(y == x);
                        } else {
                            assert(rold[e - 1] == y);
                            assert(rold.contains(y));
                        }
                    }
                }
            }
        } else {
            proof {
                assert(r@[j as int] == x);
                assert forall|y: usize|
                    (#[trigger] r@.contains(y) <==> (rold.contains(y) || y == x)) by {
                    if y == x {
                        assert(r@[j as int] == y);
                        assert(r@.contains(y));
                    }
                }
            }
        }
        proof {
            assert forall|y: usize|
                (#[trigger] r@.contains(y) <==> vals@.take(i as int + 1).contains(y)) by {
                lemma_take_one_more(vals@, i as int, y);
            }
        }
        i += 1;
    }
    proof {
        assert(vals@.take(vals@.len() as int) =~= vals@);
    }
    r
}

} // verus!
