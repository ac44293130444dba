//! Linked lists: a doubly-linked-list arena whose nodes are dense indices
//! into three parallel arrays in the chosen arena.
//!
//! `prev` and `next` hold node indices, `data` holds the payload.  Initially
//! `prev[i] == next[i] == i`: every node is a singleton ring.  The global
//! invariant is that `next` induces a disjoint union of circular lists and
//! `prev` is its exact inverse.

use crate::codec::Bytes;
use crate::storage::{Backtrackable, NonBacktrackable, StorageMode};
use crate::trail::{
    builder_extends, lemma_arena_extends_agrees, lemma_arena_extends_trans, ranges_disjoint,
    sel_mem, trail_extends, Array, Trail, TrailBuilder, TrailView,
};
use vstd::arithmetic::mul::{
    lemma_mul_inequality, lemma_mul_is_commutative, lemma_mul_is_distributive_add,
    lemma_mul_nonnegative,
};
use vstd::prelude::*;

verus! {

/// A linked list arena stored on the trail in backtrackable memory.
pub type BacktrackableLinkedListArena<T> = LinkedListArena<Backtrackable, T>;

/// A linked list arena stored on the trail in non-backtrackable memory.
pub type NonBacktrackableLinkedListArena<T> = LinkedListArena<NonBacktrackable, T>;

/// A linked list node stored on the trail in backtrackable memory.
pub type BacktrackableLinkedListNode<T> = LinkedListNode<Backtrackable, T>;

/// A linked list node stored on the trail in non-backtrackable memory.
pub type NonBacktrackableLinkedListNode<T> = LinkedListNode<NonBacktrackable, T>;

/// An arena that holds linked list nodes.
pub struct LinkedListArena<M, T> {
    prev: Array<M, usize>,
    next: Array<M, usize>,
    data: Array<M, T>,
}

impl<M, T> Clone for LinkedListArena<M, T> {
    fn clone(&self) -> (r: Self)
        ensures
            r == *self,
    {
        LinkedListArena { prev: self.prev, next: self.next, data: self.data }
    }
}

impl<M, T> Copy for LinkedListArena<M, T> {}

/// A node in a linked list: an index plus the shared array handles.
pub struct LinkedListNode<M, T> {
    prev: Array<M, usize>,
    next: Array<M, usize>,
    data: Array<M, T>,
    index: usize,
}

impl<M, T> Clone for LinkedListNode<M, T> {
    fn clone(&self) -> (r: Self)
        ensures
            r == *self,
    {
        LinkedListNode { prev: self.prev, next: self.next, data: self.data, index: self.index }
    }
}

impl<M, T> Copy for LinkedListNode<M, T> {}

impl<M, T> PartialEq for LinkedListNode<M, T> {
    /// Two node handles are equal exactly when their indices are equal;
    /// handles from different arenas must not be mixed.
    fn eq(&self, other: &Self) -> (r: bool) {
        self.index == other.index
    }
}

impl<M, T> vstd::std_specs::cmp::PartialEqSpecImpl for LinkedListNode<M, T> {
    open spec fn obeys_eq_spec() -> bool {
        true
    }

    open spec fn eq_spec(&self, other: &Self) -> bool {
        self.spec_index() == other.spec_index()
    }
}

impl<M, T> Eq for LinkedListNode<M, T> {}

impl<M, T> LinkedListArena<M, T> {
    /// The handle of the `prev` index array.
    pub closed spec fn spec_prev(self) -> Array<M, usize> {
        self.prev
    }

    /// The handle of the `next` index array.
    pub closed spec fn spec_next(self) -> Array<M, usize> {
        self.next
    }

    /// The handle of the payload array.
    pub closed spec fn spec_data(self) -> Array<M, T> {
        self.data
    }
}

impl<M, T> LinkedListNode<M, T> {
    /// The index of this node in its arena.
    pub closed spec fn spec_index(self) -> int {
        self.index as int
    }

    /// The arena this node's handles came from.
    pub closed spec fn spec_arena(self) -> LinkedListArena<M, T> {
        (LinkedListArena { prev: self.prev, next: self.next, data: self.data })
    }

    /// The handle of the `prev` index array.
    pub closed spec fn spec_prev(self) -> Array<M, usize> {
        self.prev
    }

    /// The handle of the `next` index array.
    pub closed spec fn spec_next(self) -> Array<M, usize> {
        self.next
    }

    /// The handle of the payload array.
    pub closed spec fn spec_data(self) -> Array<M, T> {
        self.data
    }
}

impl<M: StorageMode, T: Bytes> LinkedListArena<M, T> {
    /// The number of nodes in the arena.
    pub open spec fn spec_size(self) -> int {
        self.spec_data().spec_len()
    }

    /// The contents of the `prev` array under the given trail view.
    pub open spec fn prev_at(self, tv: TrailView) -> Seq<usize> {
        self.spec_prev().view_at(tv)
    }

    /// The contents of the `next` array under the given trail view.
    pub open spec fn next_at(self, tv: TrailView) -> Seq<usize> {
        self.spec_next().view_at(tv)
    }

    /// The contents of the payload array under the given trail view.
    pub open spec fn data_at(self, tv: TrailView) -> Seq<T> {
        self.spec_data().view_at(tv)
    }

    /// The three arrays fit their arena, have the same length, and are
    /// mutually disjoint.
    pub open spec fn handles_ok_at(self, tv: TrailView) -> bool {
        &&& self.spec_prev().wf_at(tv)
        &&& self.spec_next().wf_at(tv)
        &&& self.spec_data().wf_at(tv)
        &&& self.spec_prev().spec_len() == self.spec_size()
        &&& self.spec_next().spec_len() == self.spec_size()
        &&& ranges_disjoint(
            self.spec_prev().spec_offset(),
            self.spec_prev().spec_end(),
            self.spec_next().spec_offset(),
            self.spec_next().spec_end(),
        )
        &&& ranges_disjoint(
            self.spec_prev().spec_offset(),
            self.spec_prev().spec_end(),
            self.spec_data().spec_offset(),
            self.spec_data().spec_end(),
        )
        &&& ranges_disjoint(
            self.spec_next().spec_offset(),
            self.spec_next().spec_end(),
            self.spec_data().spec_offset(),
            self.spec_data().spec_end(),
        )
    }

    /// Both index arrays hold node indices.
    pub open spec fn links_bounds_at(self, tv: TrailView) -> bool {
        let n = self.spec_size();
        let pv = self.prev_at(tv);
        let nv = self.next_at(tv);
        &&& (forall|i: int| 0 <= i < n ==> (#[trigger] pv[i] as int) < n)
        &&& (forall|i: int| 0 <= i < n ==> (#[trigger] nv[i] as int) < n)
    }

    /// The linked-list invariant: `prev` and `next` hold node indices and
    /// are mutually inverse, so `next` is a disjoint union of rings.
    pub open spec fn links_wf_at(self, tv: TrailView) -> bool {
        let n = self.spec_size();
        let pv = self.prev_at(tv);
        let nv = self.next_at(tv);
        &&& self.links_bounds_at(tv)
        &&& (forall|i: int| 0 <= i < n ==> (#[trigger] pv[nv[i] as int] as int) == i)
        &&& (forall|i: int| 0 <= i < n ==> (#[trigger] nv[pv[i] as int] as int) == i)
    }

    /// Well-formedness under a trail view.
    pub open spec fn wf_at(self, tv: TrailView) -> bool {
        self.handles_ok_at(tv) && self.links_wf_at(tv)
    }

    /// Well-formedness on a trail.
    pub open spec fn wf(self, t: Trail) -> bool {
        self.wf_at(t@)
    }

    /// Linked-list arena invariants: after any sequence of operations,
    /// `prev[next[i]] == i` and `next[prev[i]] == i` for every node.
    pub proof fn lemma_wf_rings(self, t: Trail)
        requires
            self.wf(t),
        ensures
            forall|i: int|
                0 <= i < self.spec_size() ==> (#[trigger] self.prev_at(t@)[self.next_at(
                    t@,
                )[i] as int] as int) == i,
            forall|i: int|
                0 <= i < self.spec_size() ==> (#[trigger] self.next_at(t@)[self.prev_at(
                    t@,
                )[i] as int] as int) == i,
    {
    }

    /// Creates a new linked list arena with the given payloads; every node
    /// starts linked to itself.
    pub fn new(builder: &mut TrailBuilder, data: Vec<T>) -> (r: Self)
        requires
            crate::trail::sel_builder::<M>(old(builder)@).len() + data@.len() * (16
                + T::spec_length()) <= usize::MAX,
        ensures
            r.spec_size() == data@.len(),
            r.wf_at(
                (TrailView {
                    backtrackable: final(builder)@.backtrackable,
                    non_backtrackable: final(builder)@.non_backtrackable,
                    levels: Seq::empty(),
                }),
            ),
            forall|i: int|
                0 <= i < data@.len() ==> (#[trigger] r.prev_at(
                    (TrailView {
                        backtrackable: final(builder)@.backtrackable,
                        non_backtrackable: final(builder)@.non_backtrackable,
                        levels: Seq::empty(),
                    }),
                )[i] as int) == i,
            forall|i: int|
                0 <= i < data@.len() ==> (#[trigger] r.next_at(
                    (TrailView {
                        backtrackable: final(builder)@.backtrackable,
                        non_backtrackable: final(builder)@.non_backtrackable,
                        levels: Seq::empty(),
                    }),
                )[i] as int) == i,
            r.data_at(
                (TrailView {
                    backtrackable: final(builder)@.backtrackable,
                    non_backtrackable: final(builder)@.non_backtrackable,
                    levels: Seq::empty(),
                }),
            ) == data@,
            crate::trail::oth_builder::<M>(final(builder)@) == crate::trail::oth_builder::<M>(
                old(builder)@,
            ),
            builder_extends(final(builder)@, old(builder)@),
            crate::trail::sel_builder::<M>(final(builder)@).len() == crate::trail::sel_builder::<
                M,
            >(old(builder)@).len() + data@.len() * (16 + T::spec_length()),
            crate::trail::oth_builder::<M>(final(builder)@).len() == crate::trail::oth_builder::<
                M,
            >(old(builder)@).len(),
    {
        let n = data.len();
        let mut identity: Vec<usize> = Vec::new();
        let mut i: usize = 0;
        while i < n
            invariant
                i <= n,
                identity@.len() == i,
                forall|k: int| 0 <= k < i ==> (#[trigger] identity@[k] as int) == k,
            decreases n - i,
        {
            identity.push(i);
            i += 1;
        }
        let ghost b0 = builder@;
        proof {
            let nn = data@.len() as int;
            let l = T::spec_length() as int;
            lemma_mul_is_distributive_add(nn, 16, l);
            lemma_mul_is_commutative(nn, 16);
            lemma_mul_is_commutative(nn, l);
            lemma_mul_is_commutative(nn, 8);
            lemma_mul_inequality(8, 16, nn);
            lemma_mul_nonnegative(nn, l);
        }
        let prev = Array::<M, usize>::new(builder, &identity);
        let ghost b1 = builder@;
        let next = Array::<M, usize>::new(builder, &identity);
        let ghost b2 = builder@;
        let data_arr = Array::<M, T>::new(builder, &data);
        let ghost b3 = builder@;
        let r = LinkedListArena { prev, next, data: data_arr };
        proof {
            let tv = TrailView {
                backtrackable: b3.backtrackable,
                non_backtrackable: b3.non_backtrackable,
                levels: Seq::empty(),
            };
            let s1 = crate::trail::sel_builder::<M>(b1);
            let s2 = crate::trail::sel_builder::<M>(b2);
            let s3 = crate::trail::sel_builder::<M>(b3);
            assert forall|j: int| 0 <= j < s1.len() implies s1[j] == s2[j] by {
                assert(s2.subrange(0, s1.len() as int) == s1);
                assert(s1[j] == s2.subrange(0, s1.len() as int)[j]);
            }
            assert forall|j: int| 0 <= j < s2.len() implies s2[j] == s3[j] by {
                assert(s3.subrange(0, s2.len() as int) == s2);
                assert(s2[j] == s3.subrange(0, s2.len() as int)[j]);
            }
            prev.spec_pointer().lemma_frame(s1, s2);
            prev.spec_pointer().lemma_frame(s2, s3);
            next.spec_pointer().lemma_frame(s2, s3);
            assert(r.prev_at(tv) == identity@);
            assert(r.next_at(tv) == identity@);
            assert(r.data_at(tv) == data@);
            lemma_arena_extends_trans(b2.backtrackable, b1.backtrackable, b0.backtrackable);
            lemma_arena_extends_trans(b3.backtrackable, b2.backtrackable, b0.backtrackable);
            lemma_arena_extends_trans(
                b2.non_backtrackable,
                b1.non_backtrackable,
                b0.non_backtrackable,
            );
            lemma_arena_extends_trans(
                b3.non_backtrackable,
                b2.non_backtrackable,
                b0.non_backtrackable,
            );
        }
        r
    }

    /// Growing either arena by appending leaves the arena's
    /// well-formedness, links, and payloads untouched.
    pub proof fn lemma_wf_extend(self, tv1: TrailView, tv2: TrailView)
        requires
            self.wf_at(tv1),
            trail_extends(tv2, tv1),
        ensures
            self.wf_at(tv2),
            self.prev_at(tv2) == self.prev_at(tv1),
            self.next_at(tv2) == self.next_at(tv1),
            self.data_at(tv2) == self.data_at(tv1),
    {
        lemma_arena_extends_agrees(tv2.non_backtrackable, tv1.non_backtrackable);
        lemma_arena_extends_agrees(tv2.backtrackable, tv1.backtrackable);
        if M::spec_backtrackable() {
            self.spec_prev().spec_pointer().lemma_frame(tv1.backtrackable, tv2.backtrackable);
            self.spec_next().spec_pointer().lemma_frame(tv1.backtrackable, tv2.backtrackable);
            self.spec_data().spec_pointer().lemma_frame(tv1.backtrackable, tv2.backtrackable);
        } else {
            self.spec_prev().spec_pointer().lemma_frame(
                tv1.non_backtrackable,
                tv2.non_backtrackable,
            );
            self.spec_next().spec_pointer().lemma_frame(
                tv1.non_backtrackable,
                tv2.non_backtrackable,
            );
            self.spec_data().spec_pointer().lemma_frame(
                tv1.non_backtrackable,
                tv2.non_backtrackable,
            );
        }
        assert(self.prev_at(tv2) == self.prev_at(tv1));
        assert(self.next_at(tv2) == self.next_at(tv1));
        assert(self.data_at(tv2) == self.data_at(tv1));
    }

    /// Returns the `i`th node of the arena.
    pub fn node(&self, i: usize) -> (r: LinkedListNode<M, T>)
        requires
            i < self.spec_size(),
        ensures
            r.spec_arena() == *self,
            r.spec_index() == i,
    {
        LinkedListNode { prev: self.prev, next: self.next, data: self.data, index: i }
    }

    /// Returns the number of nodes in the arena.
    pub fn size(&self) -> (r: usize)
        ensures
            r == self.spec_size(),
    {
        self.data.len()
    }
}

impl<M: StorageMode, T: Bytes> LinkedListNode<M, T> {
    /// Well-formedness: the arena's invariant holds and this node's index
    /// is in range.
    pub open spec fn wf_at(self, tv: TrailView) -> bool {
        self.spec_arena().wf_at(tv) && 0 <= self.spec_index() < self.spec_arena().spec_size()
    }

    /// Well-formedness on a trail.
    pub open spec fn wf(self, t: Trail) -> bool {
        self.wf_at(t@)
    }

    /// This node and `other` carry the same array handles.
    pub open spec fn same_arena(self, other: Self) -> bool {
        self.spec_arena() == other.spec_arena()
    }

    /// Returns the data stored at this node.
    pub fn data(&self, trail: &Trail) -> (r: T)
        requires
            self.wf(*trail),
        ensures
            r == self.spec_arena().data_at(trail@)[self.spec_index()],
    {
        self.data.get(trail, self.index)
    }

    /// Sets the data stored at this node; the links are untouched.
    pub fn set_data(&self, trail: &mut Trail, new_data: T)
        requires
            self.wf(*old(trail)),
        ensures
            self.wf(*final(trail)),
            self.spec_arena().data_at(final(trail)@) == self.spec_arena().data_at(
                old(trail)@,
            ).update(self.spec_index(), new_data),
            self.spec_arena().prev_at(final(trail)@) == self.spec_arena().prev_at(old(trail)@),
            self.spec_arena().next_at(final(trail)@) == self.spec_arena().next_at(old(trail)@),
            final(trail)@.levels == old(trail)@.levels,
            sel_mem::<M>(final(trail)@).len() == sel_mem::<M>(old(trail)@).len(),
            crate::trail::oth_mem::<M>(final(trail)@) == crate::trail::oth_mem::<M>(old(trail)@),
    {
        let ghost t0 = *old(trail);
        self.data.set(trail, self.index, new_data);
        let ghost t1 = *trail;
        proof {
            self.data.lemma_elem_bounds(self.spec_index());
            assert forall|p: int|
                self.spec_prev().spec_offset() <= p
                    < self.spec_prev().spec_end() implies sel_mem::<M>(t0@)[p] == sel_mem::<M>(
                t1@,
            )[p] by {}
            self.prev.lemma_depends_only_on_arena(t0, t1);
            assert forall|p: int|
                self.spec_next().spec_offset() <= p
                    < self.spec_next().spec_end() implies sel_mem::<M>(t0@)[p] == sel_mem::<M>(
                t1@,
            )[p] by {}
            self.next.lemma_depends_only_on_arena(t0, t1);
            assert(self.spec_arena().prev_at(t1@) == self.spec_arena().prev_at(t0@));
            assert(self.spec_arena().next_at(t1@) == self.spec_arena().next_at(t0@));
        }
    }

    /// Returns the node this node links forward to.
    pub fn next(&self, trail: &Trail) -> (r: LinkedListNode<M, T>)
        requires
            self.spec_arena().handles_ok_at(trail@),
            self.spec_arena().links_bounds_at(trail@),
            0 <= self.spec_index() < self.spec_arena().spec_size(),
        ensures
            r.spec_arena() == self.spec_arena(),
            r.spec_index() == self.spec_arena().next_at(trail@)[self.spec_index()] as int,
            0 <= r.spec_index() < self.spec_arena().spec_size(),
    {
        let i = self.next.get(trail, self.index);
        let r = LinkedListNode { prev: self.prev, next: self.next, data: self.data, index: i };
        proof {
            assert(r.spec_arena() == self.spec_arena());
            assert((self.spec_arena().next_at(trail@)[self.spec_index()] as int)
                < self.spec_arena().spec_size());
        }
        r
    }

    /// Returns the node this node links backward to.
    pub fn prev(&self, trail: &Trail) -> (r: LinkedListNode<M, T>)
        requires
            self.spec_arena().handles_ok_at(trail@),
            self.spec_arena().links_bounds_at(trail@),
            0 <= self.spec_index() < self.spec_arena().spec_size(),
        ensures
            r.spec_arena() == self.spec_arena(),
            r.spec_index() == self.spec_arena().prev_at(trail@)[self.spec_index()] as int,
            0 <= r.spec_index() < self.spec_arena().spec_size(),
    {
        let i = self.prev.get(trail, self.index);
        let r = LinkedListNode { prev: self.prev, next: self.next, data: self.data, index: i };
        proof {
            assert(r.spec_arena() == self.spec_arena());
            assert((self.spec_arena().prev_at(trail@)[self.spec_index()] as int)
                < self.spec_arena().spec_size());
        }
        r
    }

    /// Sets this node's forward link to `other`; the `prev` and payload
    /// arrays are untouched.  The list invariant may be broken in between
    /// two such writes; callers restore it.
    fn set_next(&self, trail: &mut Trail, other: LinkedListNode<M, T>)
        requires
            self.spec_arena().handles_ok_at(old(trail)@),
            0 <= self.spec_index() < self.spec_arena().spec_size(),
            0 <= other.spec_index() < self.spec_arena().spec_size(),
        ensures
            self.spec_arena().handles_ok_at(final(trail)@),
            self.spec_arena().links_bounds_at(old(trail)@) ==> self.spec_arena().links_bounds_at(
                final(trail)@,
            ),
            self.spec_arena().next_at(final(trail)@) == self.spec_arena().next_at(
                old(trail)@,
            ).update(self.spec_index(), (other.spec_index() as usize)),
            self.spec_arena().prev_at(final(trail)@) == self.spec_arena().prev_at(old(trail)@),
            self.spec_arena().data_at(final(trail)@) == self.spec_arena().data_at(old(trail)@),
            final(trail)@.levels == old(trail)@.levels,
            sel_mem::<M>(final(trail)@).len() == sel_mem::<M>(old(trail)@).len(),
            crate::trail::oth_mem::<M>(final(trail)@) == crate::trail::oth_mem::<M>(old(trail)@),
    {
        let ghost t0 = *old(trail);
        self.next.set(trail, self.index, other.index);
        let ghost t1 = *trail;
        proof {
            self.next.lemma_elem_bounds(self.spec_index());
            assert forall|p: int|
                self.spec_prev().spec_offset() <= p
                    < self.spec_prev().spec_end() implies sel_mem::<M>(t0@)[p] == sel_mem::<M>(
                t1@,
            )[p] by {}
            self.prev.lemma_depends_only_on_arena(t0, t1);
            assert forall|p: int|
                self.spec_data().spec_offset() <= p
                    < self.spec_data().spec_end() implies sel_mem::<M>(t0@)[p] == sel_mem::<M>(
                t1@,
            )[p] by {}
            self.data.lemma_depends_only_on_arena(t0, t1);
            if self.spec_arena().links_bounds_at(t0@) {
                let n = self.spec_arena().spec_size();
                let nvnew = self.spec_arena().next_at(t1@);
                let nvold = self.spec_arena().next_at(t0@);
                assert forall|i: int| 0 <= i < n implies (#[trigger] nvnew[i] as int) < n by {
                    if i != self.spec_index() {
                        assert(nvnew[i] == nvold[i]);
                        assert((nvold[i] as int) < n);
                    } else {
                        assert(nvnew[i] == (other.spec_index() as usize));
                    }
                }
                let pvnew = self.spec_arena().prev_at(t1@);
                let pvold = self.spec_arena().prev_at(t0@);
                assert forall|i: int| 0 <= i < n implies (#[trigger] pvnew[i] as int) < n by {
                    assert(pvnew == pvold);
                    assert((pvold[i] as int) < n);
                }
                assert(self.spec_arena().links_bounds_at(t1@));
            }
        }
    }

    /// Sets this node's backward link to `other`; the `next` and payload
    /// arrays are untouched.
    fn set_prev(&self, trail: &mut Trail, other: LinkedListNode<M, T>)
        requires
            self.spec_arena().handles_ok_at(old(trail)@),
            0 <= self.spec_index() < self.spec_arena().spec_size(),
            0 <= other.spec_index() < self.spec_arena().spec_size(),
        ensures
            self.spec_arena().handles_ok_at(final(trail)@),
            self.spec_arena().links_bounds_at(old(trail)@) ==> self.spec_arena().links_bounds_at(
                final(trail)@,
            ),
            self.spec_arena().prev_at(final(trail)@) == self.spec_arena().prev_at(
                old(trail)@,
            ).update(self.spec_index(), (other.spec_index() as usize)),
            self.spec_arena().next_at(final(trail)@) == self.spec_arena().next_at(old(trail)@),
            self.spec_arena().data_at(final(trail)@) == self.spec_arena().data_at(old(trail)@),
            final(trail)@.levels == old(trail)@.levels,
            sel_mem::<M>(final(trail)@).len() == sel_mem::<M>(old(trail)@).len(),
            crate::trail::oth_mem::<M>(final(trail)@) == crate::trail::oth_mem::<M>(old(trail)@),
    {
        let ghost t0 = *old(trail);
        self.prev.set(trail, self.index, other.index);
        let ghost t1 = *trail;
        proof {
            self.prev.lemma_elem_bounds(self.spec_index());
            assert forall|p: int|
                self.spec_next().spec_offset() <= p
                    < self.spec_next().spec_end() implies sel_mem::<M>(t0@)[p] == sel_mem::<M>(
                t1@,
            )[p] by {}
            self.next.lemma_depends_only_on_arena(t0, t1);
            assert forall|p: int|
                self.spec_data().spec_offset() <= p
                    < self.spec_data().spec_end() implies sel_mem::<M>(t0@)[p] == sel_mem::<M>(
                t1@,
            )[p] by {}
            self.data.lemma_depends_only_on_arena(t0, t1);
            if self.spec_arena().links_bounds_at(t0@) {
                let n = self.spec_arena().spec_size();
                let pvnew = self.spec_arena().prev_at(t1@);
                let pvold = self.spec_arena().prev_at(t0@);
                assert forall|i: int| 0 <= i < n implies (#[trigger] pvnew[i] as int) < n by {
                    if i != self.spec_index() {
                        assert(pvnew[i] == pvold[i]);
                        assert((pvold[i] as int) < n);
                    } else {
                        assert(pvnew[i] == (other.spec_index() as usize));
                    }
                }
                let nvnew = self.spec_arena().next_at(t1@);
                let nvold = self.spec_arena().next_at(t0@);
                assert forall|i: int| 0 <= i < n implies (#[trigger] nvnew[i] as int) < n by {
                    assert(nvnew == nvold);
                    assert((nvold[i] as int) < n);
                }
                assert(self.spec_arena().links_bounds_at(t1@));
            }
        }
    }
}

impl<M: StorageMode, T: Bytes> LinkedListNode<M, T> {
    /// Splices this node out of its current ring, leaving it as a singleton
    /// ring; on a singleton node this has no effect.
    pub fn unlink(&self, trail: &mut Trail)
        requires
            self.wf(*old(trail)),
        ensures
            self.wf(*final(trail)),
            ({
                let (pv2, nv2) = spec_unlink(
                    self.spec_arena().prev_at(old(trail)@),
                    self.spec_arena().next_at(old(trail)@),
                    self.spec_index(),
                );
                self.spec_arena().prev_at(final(trail)@) == pv2 && self.spec_arena().next_at(
                    final(trail)@,
                ) == nv2
            }),
            self.spec_arena().data_at(final(trail)@) == self.spec_arena().data_at(old(trail)@),
            final(trail)@.levels == old(trail)@.levels,
            sel_mem::<M>(final(trail)@).len() == sel_mem::<M>(old(trail)@).len(),
            crate::trail::oth_mem::<M>(final(trail)@) == crate::trail::oth_mem::<M>(old(trail)@),
    {
        let ghost t0 = *old(trail);
        let ghost arena = self.spec_arena();
        let p = self.prev(trail);
        let nnode = self.next(trail);
        p.set_next(trail, nnode);
        nnode.set_prev(trail, p);
        self.set_prev(trail, *self);
        self.set_next(trail, *self);
        proof {
            let n = arena.spec_size();
            let pv = arena.prev_at(t0@);
            let nv = arena.next_at(t0@);
            let x = self.spec_index();
            let pi = pv[x] as int;
            let nx = nv[x] as int;
            let pv2 = arena.prev_at(final(trail)@);
            let nv2 = arena.next_at(final(trail)@);
            assert(nv[pi] as int == x);
            assert(pv[nx] as int == x);
            assert(pv2 =~= pv.update(nx, pv[x]).update(x, (x as usize)));
            assert(nv2 =~= nv.update(pi, nv[x]).update(x, (x as usize)));
            assert forall|i: int| 0 <= i < n implies (#[trigger] pv2[nv2[i] as int] as int)
                == i by {
                assert(pv[nv[i] as int] as int == i);
                assert(nv[pv[i] as int] as int == i);
                if i == x {
                } else if i == pi {
                    assert(nv2[i] as int == nx || (pi == x && i == x));
                    if nx == x {
                        assert(pv[nv[x] as int] as int == x);
                    }
                } else {
                    assert(nv2[i] == nv[i]);
                    assert(nv[i] as int != nv[x] as int || i == x);
                    assert(nv[i] as int != x || i == pi);
                }
            }
            assert forall|i: int| 0 <= i < n implies (#[trigger] nv2[pv2[i] as int] as int)
                == i by {
                assert(pv[nv[i] as int] as int == i);
                assert(nv[pv[i] as int] as int == i);
                if i == x {
                } else if i == nx {
                    assert(pv2[i] as int == pi || (nx == x && i == x));
                    if pi == x {
                        assert(nv[pv[x] as int] as int == x);
                    }
                } else {
                    assert(pv2[i] == pv[i]);
                    assert(pv[i] as int != pv[x] as int || i == x);
                    assert(pv[i] as int != x || i == nx);
                }
            }
        }
    }
}

impl<M: StorageMode, T: Bytes> LinkedListNode<M, T> {
    /// Unlinks this node from its current ring and splices it in
    /// immediately after `node`; with `node == self` this is a no-op.
    pub fn insert_after(&self, trail: &mut Trail, node: LinkedListNode<M, T>)
        requires
            self.wf(*old(trail)),
            node.spec_arena() == self.spec_arena(),
            0 <= node.spec_index() < self.spec_arena().spec_size(),
        ensures
            self.wf(*final(trail)),
            self.spec_index() == node.spec_index() ==> *final(trail) == *old(trail),
            self.spec_index() != node.spec_index() ==> ({
                let (pv3, nv3) = spec_insert_after(
                    self.spec_arena().prev_at(old(trail)@),
                    self.spec_arena().next_at(old(trail)@),
                    self.spec_index(),
                    node.spec_index(),
                );
                self.spec_arena().prev_at(final(trail)@) == pv3 && self.spec_arena().next_at(
                    final(trail)@,
                ) == nv3
            }),
            self.spec_arena().data_at(final(trail)@) == self.spec_arena().data_at(old(trail)@),
            final(trail)@.levels == old(trail)@.levels,
            sel_mem::<M>(final(trail)@).len() == sel_mem::<M>(old(trail)@).len(),
            crate::trail::oth_mem::<M>(final(trail)@) == crate::trail::oth_mem::<M>(old(trail)@),
    {
        if self.index == node.index {
            return;
        }
        let ghost t0 = *old(trail);
        let ghost arena = self.spec_arena();
        let p = self.prev(trail);
        let nnode = self.next(trail);
        p.set_next(trail, nnode);
        nnode.set_prev(trail, p);
        let na = node.next(trail);
        self.set_next(trail, na);
        na.set_prev(trail, *self);
        node.set_next(trail, *self);
        self.set_prev(trail, node);
        proof {
            let n = arena.spec_size();
            let pv = arena.prev_at(t0@);
            let nv = arena.next_at(t0@);
            let x = self.spec_index();
            let a = node.spec_index();
            let pi = pv[x] as int;
            let nx = nv[x] as int;
            let nv1 = nv.update(pi, nv[x]);
            let pv1 = pv.update(nx, pv[x]);
            let nai = nv1[a] as int;
            let pv3 = arena.prev_at(final(trail)@);
            let nv3 = arena.next_at(final(trail)@);
            assert(nv[pi] as int == x);
            assert(pv[nx] as int == x);
            assert(pv3 =~= pv1.update(nai, (x as usize)).update(x, (a as usize)));
            assert(nv3 =~= nv1.update(x, nv1[a]).update(a, (x as usize)));
            // the anchor's successor is never the moved node itself
            assert(nai != x) by {
                if a == pi {
                    assert(nai == nx);
                    if nx == x {
                        assert(pv[nv[x] as int] as int == x);
                    }
                } else {
                    assert(nai == nv[a] as int);
                    if nv[a] as int == x {
                        assert(pv[nv[a] as int] as int == a);
                    }
                }
            }
            assert forall|i: int| 0 <= i < n implies (#[trigger] pv3[nv3[i] as int] as int)
                == i by {
                assert(pv[nv[i] as int] as int == i);
                assert(nv[pv[i] as int] as int == i);
                assert(pv[nv[a] as int] as int == a);
                assert(pv[nv[x] as int] as int == x);
                assert(nv[pv[x] as int] as int == x);
                if i == a {
                } else if i == x {
                } else if i == pi {
                    assert(nv3[i] as int == nx);
                    assert(nx != x);
                    if nx == nai {
                        assert(a != pi ==> nv[a] as int == nv[x] as int);
                    }
                } else {
                    assert(nv3[i] == nv[i]);
                    assert(nv[i] as int != x || i == pi);
                    assert(nv[i] as int != nv[x] as int || i == x);
                    assert(nv[i] as int != nv[a] as int || i == a);
                }
            }
            assert forall|i: int| 0 <= i < n implies (#[trigger] nv3[pv3[i] as int] as int)
                == i by {
                assert(pv[nv[i] as int] as int == i);
                assert(nv[pv[i] as int] as int == i);
                assert(nv[pv[i] as int] as int == i);
                assert(pv[nv[a] as int] as int == a);
                assert(pv[nv[x] as int] as int == x);
                assert(nv[pv[x] as int] as int == x);
                assert(nv[pv[i] as int] as int == i);
                if i == x {
                } else if i == nai {
                } else if i == nx {
                    assert(nx != x && nx != nai);
                    assert(pv3[i] as int == pi);
                    assert(pi != x);
                    if pi == a {
                        assert(nai == nx);
                    }
                } else {
                    assert(pv3[i] == pv[i]);
                    assert(pv[i] as int != x || i == nx);
                    assert(pv[i] as int != pv[x] as int || i == x);
                    assert(pv[i] as int != a || i == nv[a] as int);
                    assert(a != pi ==> (i == nv[a] as int ==> i == nai));
                    assert(a == pi ==> (pv[i] as int != a || i == x));
                }
            }
        }
    }

    /// Unlinks this node from its current ring and splices it in
    /// immediately before `node`; with `node == self` this is a no-op.
    pub fn insert_before(&self, trail: &mut Trail, node: LinkedListNode<M, T>)
        requires
            self.wf(*old(trail)),
            node.spec_arena() == self.spec_arena(),
            0 <= node.spec_index() < self.spec_arena().spec_size(),
        ensures
            self.wf(*final(trail)),
            self.spec_index() == node.spec_index() ==> *final(trail) == *old(trail),
            self.spec_index() != node.spec_index() ==> ({
                let (pv3, nv3) = spec_insert_before(
                    self.spec_arena().prev_at(old(trail)@),
                    self.spec_arena().next_at(old(trail)@),
                    self.spec_index(),
                    node.spec_index(),
                );
                self.spec_arena().prev_at(final(trail)@) == pv3 && self.spec_arena().next_at(
                    final(trail)@,
                ) == nv3
            }),
            self.spec_arena().data_at(final(trail)@) == self.spec_arena().data_at(old(trail)@),
            final(trail)@.levels == old(trail)@.levels,
            sel_mem::<M>(final(trail)@).len() == sel_mem::<M>(old(trail)@).len(),
            crate::trail::oth_mem::<M>(final(trail)@) == crate::trail::oth_mem::<M>(old(trail)@),
    {
        if self.index == node.index {
            return;
        }
        let ghost t0 = *old(trail);
        let ghost arena = self.spec_arena();
        let p = self.prev(trail);
        let nnode = self.next(trail);
        p.set_next(trail, nnode);
        nnode.set_prev(trail, p);
        let pa = node.prev(trail);
        pa.set_next(trail, *self);
        self.set_prev(trail, pa);
        self.set_next(trail, node);
        node.set_prev(trail, *self);
        proof {
            let n = arena.spec_size();
            let pv = arena.prev_at(t0@);
            let nv = arena.next_at(t0@);
            let x = self.spec_index();
            let a = node.spec_index();
            let pi = pv[x] as int;
            let nx = nv[x] as int;
            let nv1 = nv.update(pi, nv[x]);
            let pv1 = pv.update(nx, pv[x]);
            let pai = pv1[a] as int;
            let pv3 = arena.prev_at(final(trail)@);
            let nv3 = arena.next_at(final(trail)@);
            assert(nv[pi] as int == x);
            assert(pv[nx] as int == x);
            assert(pv3 =~= pv1.update(x, pv1[a]).update(a, (x as usize)));
            assert(nv3 =~= nv1.update(pai, (x as usize)).update(x, (a as usize)));
            // the anchor's predecessor is never the moved node itself
            assert(pai != x) by {
                if a == nx {
                    assert(pai == pi);
                    if pi == x {
                        assert(nv[pv[x] as int] as int == x);
                    }
                } else {
                    assert(pai == pv[a] as int);
                    if pv[a] as int == x {
                        assert(nv[pv[a] as int] as int == a);
                    }
                }
            }
            assert forall|i: int| 0 <= i < n implies (#[trigger] nv3[pv3[i] as int] as int)
                == i by {
                assert(pv[nv[i] as int] as int == i);
                assert(nv[pv[i] as int] as int == i);
                assert(nv[pv[a] as int] as int == a);
                assert(nv[pv[x] as int] as int == x);
                assert(pv[nv[x] as int] as int == x);
                if i == a {
                } else if i == x {
                } else if i == nx {
                    assert(pv3[i] as int == pi);
                    assert(pi != x);
                    if pi == pai {
                        assert(a != nx ==> pv[a] as int == pv[x] as int);
                    }
                } else {
                    assert(pv3[i] == pv[i]);
                    assert(pv[i] as int != x || i == nx);
                    assert(pv[i] as int != pv[x] as int || i == x);
                    assert(pv[i] as int != pv[a] as int || i == a);
                }
            }
            assert forall|i: int| 0 <= i < n implies (#[trigger] pv3[nv3[i] as int] as int)
                == i by {
                assert(pv[nv[i] as int] as int == i);
                assert(nv[pv[i] as int] as int == i);
                assert(nv[pv[a] as int] as int == a);
                assert(nv[pv[x] as int] as int == x);
                assert(pv[nv[x] as int] as int == x);
                if i == x {
                } else if i == pai {
                } else if i == pi {
                    assert(pi != x && pi != pai);
                    assert(nv3[i] as int == nx);
                    assert(nx != x);
                    if nx == a {
                        assert(pai == pi);
                    }
                } else {
                    assert(nv3[i] == nv[i]);
                    assert(nv[i] as int != x || i == pi);
                    assert(nv[i] as int != nv[x] as int || i == x);
                    assert(nv[i] as int != a || i == pv[a] as int);
                    assert(a != nx ==> (i == pv[a] as int ==> i == pai));
                    assert(a == nx ==> (nv[i] as int != a || i == x));
                }
            }
        }
    }
}

/// The `prev` and `next` maps after unlinking node `x`: its neighbors are
/// joined and `x` becomes a singleton ring.
pub open spec fn spec_unlink(pv: Seq<usize>, nv: Seq<usize>, x: int) -> (Seq<usize>, Seq<usize>) {
    let p = pv[x];
    let nx = nv[x];
    (pv.update(nx as int, p).update(x, (x as usize)), nv.update(p as int, nx).update(
        x,
        (x as usize),
    ))
}

/// The `prev` and `next` maps after unlinking node `x` and splicing it in
/// immediately after anchor `a`.
pub open spec fn spec_insert_after(pv: Seq<usize>, nv: Seq<usize>, x: int, a: int) -> (
    Seq<usize>,
    Seq<usize>,
) {
    let p = pv[x];
    let nx = nv[x];
    let nv1 = nv.update(p as int, nx);
    let pv1 = pv.update(nx as int, p);
    let na = nv1[a];
    (pv1.update(na as int, (x as usize)).update(x, (a as usize)), nv1.update(
        x,
        na,
    ).update(a, (x as usize)))
}

/// The `prev` and `next` maps after unlinking node `x` and splicing it in
/// immediately before anchor `a`.
pub open spec fn spec_insert_before(pv: Seq<usize>, nv: Seq<usize>, x: int, a: int) -> (
    Seq<usize>,
    Seq<usize>,
) {
    let p = pv[x];
    let nx = nv[x];
    let nv1 = nv.update(p as int, nx);
    let pv1 = pv.update(nx as int, p);
    let pa = pv1[a];
    (pv1.update(x, pa).update(a, (x as usize)), nv1.update(pa as int, (x as usize)).update(
        x,
        (a as usize),
    ))
}

} // verus!
