//! The trail: two arenas plus a snapshot stack, and the typed handles
//! [`Value`] and [`Array`] that live on it.
//!
//! `Trail::new_level` pushes a deep clone of the backtrackable arena onto an
//! internal stack; `Trail::backtrack` pops the most recent clone and makes it
//! the current backtrackable arena.  The non-backtrackable arena is never
//! cloned or restored.  A `Value` or `Array` is usable only with the `Trail`
//! built from the `TrailBuilder` that created it.

use crate::codec::{splice, Bytes};
use crate::mem::{ArrayPointer, Memory, MemoryBuilder, Pointer};
use crate::storage::{Backtrackable, NonBacktrackable, StorageMode};
use core::marker::PhantomData;
use vstd::prelude::*;

verus! {

/// The mathematical content of a [`TrailBuilder`]: the bytes of its two
/// growing arenas.
pub struct TrailBuilderView {
    pub backtrackable: Seq<u8>,
    pub non_backtrackable: Seq<u8>,
}

/// The mathematical content of a [`Trail`]: the bytes of its two arenas and
/// the stack of saved backtrackable-arena snapshots.
pub struct TrailView {
    pub backtrackable: Seq<u8>,
    pub non_backtrackable: Seq<u8>,
    pub levels: Seq<Seq<u8>>,
}

/// The builder arena selected by storage mode `M`.
pub open spec fn sel_builder<M: StorageMode>(b: TrailBuilderView) -> Seq<u8> {
    if M::spec_backtrackable() {
        b.backtrackable
    } else {
        b.non_backtrackable
    }
}

/// The builder arena *not* selected by storage mode `M`.
pub open spec fn oth_builder<M: StorageMode>(b: TrailBuilderView) -> Seq<u8> {
    if M::spec_backtrackable() {
        b.non_backtrackable
    } else {
        b.backtrackable
    }
}

/// The trail arena selected by storage mode `M`.
pub open spec fn sel_mem<M: StorageMode>(t: TrailView) -> Seq<u8> {
    if M::spec_backtrackable() {
        t.backtrackable
    } else {
        t.non_backtrackable
    }
}

/// The trail arena *not* selected by storage mode `M`.
pub open spec fn oth_mem<M: StorageMode>(t: TrailView) -> Seq<u8> {
    if M::spec_backtrackable() {
        t.non_backtrackable
    } else {
        t.backtrackable
    }
}

/// `grown` holds `base` as a prefix: allocation only appends.
pub open spec fn arena_extends(grown: Seq<u8>, base: Seq<u8>) -> bool {
    base.len() <= grown.len() && grown.subrange(0, base.len() as int) == base
}

/// Both builder arenas of `b2` hold those of `b1` as prefixes.
pub open spec fn builder_extends(b2: TrailBuilderView, b1: TrailBuilderView) -> bool {
    arena_extends(b2.backtrackable, b1.backtrackable) && arena_extends(
        b2.non_backtrackable,
        b1.non_backtrackable,
    )
}

/// Both arenas of `tv2` hold those of `tv1` as prefixes, and the snapshot
/// stacks agree.
pub open spec fn trail_extends(tv2: TrailView, tv1: TrailView) -> bool {
    &&& arena_extends(tv2.backtrackable, tv1.backtrackable)
    &&& arena_extends(tv2.non_backtrackable, tv1.non_backtrackable)
    &&& tv2.levels == tv1.levels
}

/// Extension is transitive.
pub proof fn lemma_arena_extends_trans(s3: Seq<u8>, s2: Seq<u8>, s1: Seq<u8>)
    requires
        arena_extends(s2, s1),
        arena_extends(s3, s2),
    ensures
        arena_extends(s3, s1),
{
    assert forall|j: int| 0 <= j < s1.len() implies s3.subrange(0, s1.len() as int)[j]
        == s1[j] by {
        assert(s1[j] == s2.subrange(0, s1.len() as int)[j]);
        assert(s2[j] == s3.subrange(0, s2.len() as int)[j]);
    }
    assert(s3.subrange(0, s1.len() as int) =~= s1);
}

/// An extended arena agrees with the base arena on every base position.
pub proof fn lemma_arena_extends_agrees(grown: Seq<u8>, base: Seq<u8>)
    requires
        arena_extends(grown, base),
    ensures
        forall|j: int| 0 <= j < base.len() ==> grown[j] == #[trigger] base[j],
{
    assert forall|j: int| 0 <= j < base.len() implies grown[j] == base[j] by {
        assert(base[j] == grown.subrange(0, base.len() as int)[j]);
    }
}

/// Whether the half-open byte ranges `[lo1, hi1)` and `[lo2, hi2)` have no
/// position in common.
pub open spec fn ranges_disjoint(lo1: int, hi1: int, lo2: int, hi2: int) -> bool {
    hi1 <= lo2 || hi2 <= lo1
}

/// The trail: a backtrackable arena, a non-backtrackable arena, and a stack
/// of saved snapshots of the backtrackable arena.
pub struct Trail {
    pub(crate) backtrackable_mem: Memory,
    pub(crate) non_backtrackable_mem: Memory,
    pub(crate) trail: Vec<Memory>,
}

impl View for Trail {
    type V = TrailView;

    closed spec fn view(&self) -> TrailView {
        TrailView {
            backtrackable: self.backtrackable_mem@,
            non_backtrackable: self.non_backtrackable_mem@,
            levels: self.trail@.map_values(|m: Memory| m@),
        }
    }
}

/// Within the crate, the parts of a trail's view are the views of its fields.
pub(crate) broadcast proof fn lemma_trail_view_parts(t: &Trail)
    ensures
        (#[trigger] t@).backtrackable == t.backtrackable_mem@,
        t@.non_backtrackable == t.non_backtrackable_mem@,
        t@.levels == t.trail@.map_values(|m: Memory| m@),
{
}

/// Within the crate, the parts of a trail builder's view are the views of
/// its fields.
pub(crate) broadcast proof fn lemma_trail_builder_view_parts(b: &TrailBuilder)
    ensures
        (#[trigger] b@).backtrackable == b.backtrackable_mem@,
        b@.non_backtrackable == b.non_backtrackable_mem@,
{
}

impl Trail {
    /// Adds a new level to the trail: pushes a deep clone of the current
    /// backtrackable arena onto the snapshot stack.  Both arenas keep their
    /// contents.
    pub fn new_level(&mut self)
        ensures
            final(self)@.levels == old(self)@.levels.push(old(self)@.backtrackable),
            final(self)@.backtrackable == old(self)@.backtrackable,
            final(self)@.non_backtrackable == old(self)@.non_backtrackable,
    {
        let snapshot = self.backtrackable_mem.clone();
        self.trail.push(snapshot);
        proof {
            assert(final(self)@.levels =~= old(self)@.levels.push(old(self)@.backtrackable));
        }
    }

    /// Backtracks the trail to the most recent level: pops the top snapshot
    /// and makes it the current backtrackable arena.  The non-backtrackable
    /// arena is untouched.  On an empty stack this is a no-op.
    pub fn backtrack(&mut self)
        ensures
            old(self)@.levels.len() == 0 ==> final(self)@ == old(self)@,
            old(self)@.levels.len() > 0 ==> {
                &&& final(self)@.backtrackable == old(self)@.levels.last()
                &&& final(self)@.levels == old(self)@.levels.drop_last()
                &&& final(self)@.non_backtrackable == old(self)@.non_backtrackable
            },
    {
        match self.trail.pop() {
            Some(prev) => {
                self.backtrackable_mem = prev;
                proof {
                    assert(final(self)@.levels =~= old(self)@.levels.drop_last());
                }
            },
            None => {
                proof {
                    assert(final(self)@.levels =~= old(self)@.levels);
                }
            },
        }
    }

    /// Returns the length of the snapshot stack: it grows by one on each
    /// `new_level` and shrinks by one on each non-empty `backtrack`.
    pub fn trail_len(&self) -> (r: usize)
        ensures
            r == self@.levels.len(),
    {
        self.trail.len()
    }

    /// Checks whether the snapshot stack is empty.
    pub fn is_trail_empty(&self) -> (r: bool)
        ensures
            r == (self@.levels.len() == 0),
    {
        self.trail.is_empty()
    }
}

/// A builder to create a [`Trail`]: one growing arena per storage mode.
#[derive(Debug, Default)]
pub struct TrailBuilder {
    pub(crate) backtrackable_mem: MemoryBuilder,
    pub(crate) non_backtrackable_mem: MemoryBuilder,
}

impl View for TrailBuilder {
    type V = TrailBuilderView;

    closed spec fn view(&self) -> TrailBuilderView {
        TrailBuilderView {
            backtrackable: self.backtrackable_mem@,
            non_backtrackable: self.non_backtrackable_mem@,
        }
    }
}

impl TrailBuilder {
    /// Creates a new empty `TrailBuilder`.
    pub fn new() -> (r: Self)
        ensures
            r@.backtrackable == Seq::<u8>::empty(),
            r@.non_backtrackable == Seq::<u8>::empty(),
    {
        Self { backtrackable_mem: MemoryBuilder::new(), non_backtrackable_mem: MemoryBuilder::new() }
    }

    /// Consumes the `TrailBuilder` to create a `Trail` with the built arenas
    /// and an empty snapshot stack.  All handles created from this builder
    /// are usable with the resulting trail.
    pub fn finish(self) -> (r: Trail)
        ensures
            r@.backtrackable == self@.backtrackable,
            r@.non_backtrackable == self@.non_backtrackable,
            r@.levels == Seq::<Seq<u8>>::empty(),
    {
        let t = Trail {
            backtrackable_mem: self.backtrackable_mem.finish(),
            non_backtrackable_mem: self.non_backtrackable_mem.finish(),
            trail: Vec::new(),
        };
        proof {
            assert(t@.levels =~= Seq::<Seq<u8>>::empty());
        }
        t
    }
}

/// A reference to a value of type `T` stored on the trail in the arena
/// selected by the storage mode `M`.
pub struct Value<M, T> {
    pointer: Pointer<T>,
    phantom: PhantomData<M>,
}

impl<M, T> Clone for Value<M, T> {
    fn clone(&self) -> (r: Self)
        ensures
            r == *self,
    {
        Value { pointer: self.pointer, phantom: PhantomData }
    }
}

impl<M, T> Copy for Value<M, T> {}

impl<M, T> PartialEq for Value<M, T> {
    /// Two values are equal exactly when their pointers are equal.
    fn eq(&self, other: &Self) -> (r: bool) {
        self.pointer == other.pointer
    }
}

impl<M, T> vstd::std_specs::cmp::PartialEqSpecImpl for Value<M, T> {
    open spec fn obeys_eq_spec() -> bool {
        true
    }

    open spec fn eq_spec(&self, other: &Self) -> bool {
        self.spec_offset() == other.spec_offset()
    }
}

impl<M, T> Eq for Value<M, T> {}

impl<M, T> Value<M, T> {
    /// The underlying pointer handle.
    pub closed spec fn spec_pointer(self) -> Pointer<T> {
        self.pointer
    }

    /// The byte offset of this value within its arena.
    pub open spec fn spec_offset(self) -> int {
        self.spec_pointer().spec_offset()
    }
}

impl<M: StorageMode, T: Bytes> Value<M, T> {
    /// The handle's byte window lies inside the given byte sequence.
    pub open spec fn wf_in(self, mem: Seq<u8>) -> bool {
        &&& 0 <= self.spec_offset()
        &&& self.spec_offset() + T::spec_length() <= mem.len()
    }

    /// The value stored at this handle's window of the given byte sequence.
    pub open spec fn get_in(self, mem: Seq<u8>) -> T {
        T::from_bytes(mem.subrange(self.spec_offset(), self.spec_offset() + T::spec_length()))
    }

    /// The handle's byte window lies inside its arena.
    pub open spec fn wf_at(self, tv: TrailView) -> bool {
        self.wf_in(sel_mem::<M>(tv))
    }

    /// The value currently stored, as a function of the trail's view.
    pub open spec fn spec_get_at(self, tv: TrailView) -> T {
        self.get_in(sel_mem::<M>(tv))
    }

    /// The handle's byte window lies inside its arena.
    pub open spec fn wf(self, t: Trail) -> bool {
        self.wf_at(t@)
    }

    /// The value currently stored on the trail.
    pub open spec fn spec_get(self, t: Trail) -> T {
        self.spec_get_at(t@)
    }

    /// The stored value depends only on the bytes of its window in its own
    /// arena: any two trails agreeing there agree on the value.
    pub proof fn lemma_depends_only_on_arena(self, t1: Trail, t2: Trail)
        requires
            self.wf(t1),
            self.wf(t2),
            forall|j: int|
                self.spec_offset() <= j < self.spec_offset() + T::spec_length() ==> sel_mem::<M>(
                    t1@,
                )[j] == sel_mem::<M>(t2@)[j],
        ensures
            self.spec_get(t1) == self.spec_get(t2),
    {
        self.pointer.lemma_frame(sel_mem::<M>(t1@), sel_mem::<M>(t2@));
    }

    /// Creates a new `Value` holding `val`, allocated at the end of the
    /// arena selected by `M`.  It is usable with the trail the builder yields.
    pub fn new(builder: &mut TrailBuilder, val: T) -> (r: Self)
        requires
            sel_builder::<M>(old(builder)@).len() + T::spec_length() <= usize::MAX,
        ensures
            r.spec_offset() == sel_builder::<M>(old(builder)@).len(),
            sel_builder::<M>(final(builder)@) == sel_builder::<M>(old(builder)@) + val.to_bytes(),
            sel_builder::<M>(final(builder)@).len() == sel_builder::<M>(old(builder)@).len()
                + T::spec_length(),
            oth_builder::<M>(final(builder)@) == oth_builder::<M>(old(builder)@),
            r.wf_in(sel_builder::<M>(final(builder)@)),
            r.get_in(sel_builder::<M>(final(builder)@)) == val,
            builder_extends(final(builder)@, old(builder)@),
    {
        proof {
            val.lemma_round_trip();
        }
        let pointer = Pointer::new(M::builder_mut(builder), val);
        proof {
            assert(sel_builder::<M>(final(builder)@).subrange(
                0,
                sel_builder::<M>(old(builder)@).len() as int,
            ) =~= sel_builder::<M>(old(builder)@));
            assert(oth_builder::<M>(final(builder)@).subrange(
                0,
                oth_builder::<M>(old(builder)@).len() as int,
            ) =~= oth_builder::<M>(old(builder)@));
        }
        Value { pointer, phantom: PhantomData }
    }

    /// Gets the value from the trail.
    pub fn get(self, trail: &Trail) -> (r: T)
        requires
            self.wf(*trail),
        ensures
            r == self.spec_get(*trail),
    {
        self.pointer.get(M::memory(trail))
    }

    /// Sets the value on the trail.  Only this handle's byte window in its
    /// own arena changes; the other arena and the snapshot stack are
    /// untouched.
    pub fn set(self, trail: &mut Trail, new_val: T)
        requires
            self.wf(*old(trail)),
        ensures
            self.wf(*final(trail)),
            self.spec_get(*final(trail)) == new_val,
            sel_mem::<M>(final(trail)@) == splice(
                sel_mem::<M>(old(trail)@),
                self.spec_offset(),
                new_val.to_bytes(),
            ),
            sel_mem::<M>(final(trail)@).len() == sel_mem::<M>(old(trail)@).len(),
            forall|p: int|
                0 <= p < sel_mem::<M>(old(trail)@).len() && !(self.spec_offset() <= p
                    < self.spec_offset() + T::spec_length()) ==> sel_mem::<M>(final(trail)@)[p]
                    == sel_mem::<M>(old(trail)@)[p],
            oth_mem::<M>(final(trail)@) == oth_mem::<M>(old(trail)@),
            final(trail)@.levels == old(trail)@.levels,
    {
        self.pointer.set(M::memory_mut(trail), new_val);
    }

    /// Updates the value on the trail using the given function; equivalent
    /// to `set(trail, f(get(trail)))`.
    pub fn update<F: FnOnce(T) -> T>(self, trail: &mut Trail, f: F)
        requires
            self.wf(*old(trail)),
            call_requires(f, (self.spec_get(*old(trail)),)),
        ensures
            self.wf(*final(trail)),
            exists|v: T|
                {
                    &&& #[trigger] call_ensures(f, (self.spec_get(*old(trail)),), v)
                    &&& self.spec_get(*final(trail)) == v
                    &&& sel_mem::<M>(final(trail)@) == splice(
                        sel_mem::<M>(old(trail)@),
                        self.spec_offset(),
                        v.to_bytes(),
                    )
                },
            sel_mem::<M>(final(trail)@).len() == sel_mem::<M>(old(trail)@).len(),
            oth_mem::<M>(final(trail)@) == oth_mem::<M>(old(trail)@),
            final(trail)@.levels == old(trail)@.levels,
    {
        let cur = self.get(trail);
        let next = f(cur);
        self.set(trail, next);
    }
}

/// A reference to a fixed-length array of values of type `T` stored on the
/// trail in the arena selected by the storage mode `M`.
pub struct Array<M, T> {
    pointer: ArrayPointer<T>,
    phantom: PhantomData<M>,
}

impl<M, T> Clone for Array<M, T> {
    fn clone(&self) -> (r: Self)
        ensures
            r == *self,
    {
        Array { pointer: self.pointer, phantom: PhantomData }
    }
}

impl<M, T> Copy for Array<M, T> {}

impl<M, T> PartialEq for Array<M, T> {
    /// Two arrays are equal exactly when their pointers are equal.
    fn eq(&self, other: &Self) -> (r: bool) {
        self.pointer == other.pointer
    }
}

impl<M, T> vstd::std_specs::cmp::PartialEqSpecImpl for Array<M, T> {
    open spec fn obeys_eq_spec() -> bool {
        true
    }

    open spec fn eq_spec(&self, other: &Self) -> bool {
        self.spec_offset() == other.spec_offset() && self.spec_len() == other.spec_len()
    }
}

impl<M, T> Eq for Array<M, T> {}

impl<M, T> Array<M, T> {
    /// The underlying array pointer handle.
    pub closed spec fn spec_pointer(self) -> ArrayPointer<T> {
        self.pointer
    }

    /// The byte offset where the array starts within its arena.
    pub open spec fn spec_offset(self) -> int {
        self.spec_pointer().spec_offset()
    }

    /// The number of elements in the array.
    pub open spec fn spec_len(self) -> int {
        self.spec_pointer().spec_len()
    }
}

impl<M: StorageMode, T: Bytes> Array<M, T> {
    /// The byte offset where element `i` starts within the arena.
    pub open spec fn elem_start(self, i: int) -> int {
        self.spec_offset() + i * T::spec_length()
    }

    /// The byte offset just past the last element.
    pub open spec fn spec_end(self) -> int {
        self.elem_start(self.spec_len())
    }

    /// The handle's byte window lies inside the given byte sequence.
    pub open spec fn wf_in(self, mem: Seq<u8>) -> bool {
        self.spec_pointer().wf(mem)
    }

    /// The elements stored in this handle's window of the given byte sequence.
    pub open spec fn elems_in(self, mem: Seq<u8>) -> Seq<T> {
        self.spec_pointer().view_in(mem)
    }

    /// The handle's byte window lies inside its arena.
    pub open spec fn wf_at(self, tv: TrailView) -> bool {
        self.wf_in(sel_mem::<M>(tv))
    }

    /// The stored elements, as a function of the trail's view.
    pub open spec fn view_at(self, tv: TrailView) -> Seq<T> {
        self.elems_in(sel_mem::<M>(tv))
    }

    /// The handle's byte window lies inside its arena.
    pub open spec fn wf(self, t: Trail) -> bool {
        self.wf_at(t@)
    }

    /// The sequence of values currently stored in the array on the trail.
    pub open spec fn view(self, t: Trail) -> Seq<T> {
        self.view_at(t@)
    }

    /// Element `i`'s byte window lies between the array's start and end.
    pub proof fn lemma_elem_bounds(self, i: int)
        requires
            0 <= i < self.spec_len(),
        ensures
            self.spec_offset() <= self.elem_start(i),
            self.elem_start(i) + T::spec_length() == self.elem_start(i + 1),
            self.elem_start(i + 1) <= self.spec_end(),
    {
        self.spec_pointer().lemma_elem_bounds(i);
    }

    /// The stored elements depend only on the bytes of the array's window in
    /// its own arena: any two trails agreeing there agree on the contents.
    pub proof fn lemma_depends_only_on_arena(self, t1: Trail, t2: Trail)
        requires
            self.wf(t1),
            self.wf(t2),
            forall|j: int|
                self.spec_offset() <= j < self.spec_end() ==> sel_mem::<M>(t1@)[j] == sel_mem::<M>(
                    t2@,
                )[j],
        ensures
            self.view(t1) == self.view(t2),
    {
        self.pointer.lemma_frame(sel_mem::<M>(t1@), sel_mem::<M>(t2@));
    }

    /// Creates a new `Array` holding the given values, allocated at the end
    /// of the arena selected by `M`.
    pub fn new(builder: &mut TrailBuilder, vals: &Vec<T>) -> (r: Self)
        requires
            sel_builder::<M>(old(builder)@).len() + vals@.len() * T::spec_length() <= usize::MAX,
        ensures
            r.spec_offset() == sel_builder::<M>(old(builder)@).len(),
            r.spec_len() == vals@.len(),
            sel_builder::<M>(final(builder)@).len() == sel_builder::<M>(old(builder)@).len()
                + vals@.len() * T::spec_length(),
            sel_builder::<M>(final(builder)@).subrange(
                0,
                sel_builder::<M>(old(builder)@).len() as int,
            ) == sel_builder::<M>(old(builder)@),
            r.wf_in(sel_builder::<M>(final(builder)@)),
            r.elems_in(sel_builder::<M>(final(builder)@)) == vals@,
            oth_builder::<M>(final(builder)@) == oth_builder::<M>(old(builder)@),
            builder_extends(final(builder)@, old(builder)@),
    {
        let pointer = ArrayPointer::new(M::builder_mut(builder), vals);
        proof {
            assert(oth_builder::<M>(final(builder)@).subrange(
                0,
                oth_builder::<M>(old(builder)@).len() as int,
            ) =~= oth_builder::<M>(old(builder)@));
        }
        Array { pointer, phantom: PhantomData }
    }

    /// Returns the length of the array; constant over the array's lifetime.
    pub fn len(&self) -> (r: usize)
        ensures
            r == self.spec_len(),
    {
        self.pointer.len()
    }

    /// Checks whether the length of the array is zero.
    pub fn is_empty(&self) -> (r: bool)
        ensures
            r == (self.spec_len() == 0),
    {
        self.pointer.is_empty()
    }

    /// Returns an iterator over the elements of the array, starting at the
    /// first element.
    pub fn iter(&self, _trail: &Trail) -> (r: ArrayIter<M, T>)
        ensures
            r.spec_array() == *self,
            r.spec_index() == 0,
    {
        ArrayIter { array: *self, index: 0 }
    }

    /// Gets the value of the array at index `i` from the trail.
    pub fn get(&self, trail: &Trail, i: usize) -> (r: T)
        requires
            self.wf(*trail),
            i < self.spec_len(),
        ensures
            r == self.view(*trail)[i as int],
    {
        self.pointer.get(M::memory(trail), i)
    }

    /// Sets the value of the array at index `i` on the trail.  Only element
    /// `i`'s byte window in the array's own arena changes; the other arena
    /// and the snapshot stack are untouched.
    pub fn set(&self, trail: &mut Trail, i: usize, new_val: T)
        requires
            self.wf(*old(trail)),
            i < self.spec_len(),
        ensures
            self.wf(*final(trail)),
            self.view(*final(trail)) == self.view(*old(trail)).update(i as int, new_val),
            sel_mem::<M>(final(trail)@).len() == sel_mem::<M>(old(trail)@).len(),
            forall|p: int|
                0 <= p < sel_mem::<M>(old(trail)@).len() && !(self.elem_start(i as int) <= p
                    < self.elem_start(i as int + 1)) ==> sel_mem::<M>(final(trail)@)[p]
                    == sel_mem::<M>(old(trail)@)[p],
            oth_mem::<M>(final(trail)@) == oth_mem::<M>(old(trail)@),
            final(trail)@.levels == old(trail)@.levels,
    {
        self.pointer.set(M::memory_mut(trail), i, new_val);
    }

    /// Updates the value of the array at index `i` using the given function;
    /// equivalent to `set(trail, i, f(get(trail, i)))`.
    pub fn update<F: FnOnce(T) -> T>(&self, trail: &mut Trail, i: usize, f: F)
        requires
            self.wf(*old(trail)),
            i < self.spec_len(),
            call_requires(f, (self.view(*old(trail))[i as int],)),
        ensures
            self.wf(*final(trail)),
            exists|v: T|
                {
                    &&& #[trigger] call_ensures(f, (self.view(*old(trail))[i as int],), v)
                    &&& self.view(*final(trail)) == self.view(*old(trail)).update(i as int, v)
                },
            sel_mem::<M>(final(trail)@).len() == sel_mem::<M>(old(trail)@).len(),
            forall|p: int|
                0 <= p < sel_mem::<M>(old(trail)@).len() && !(self.elem_start(i as int) <= p
                    < self.elem_start(i as int + 1)) ==> sel_mem::<M>(final(trail)@)[p]
                    == sel_mem::<M>(old(trail)@)[p],
            oth_mem::<M>(final(trail)@) == oth_mem::<M>(old(trail)@),
            final(trail)@.levels == old(trail)@.levels,
    {
        let cur = self.get(trail, i);
        let next = f(cur);
        self.set(trail, i, next);
    }

    /// Swaps the values at indices `i` and `j` of the array on the trail;
    /// correct also when `i == j`.
    pub fn swap(&self, trail: &mut Trail, i: usize, j: usize)
        requires
            self.wf(*old(trail)),
            i < self.spec_len(),
            j < self.spec_len(),
        ensures
            self.wf(*final(trail)),
            self.view(*final(trail)) == self.view(*old(trail)).update(
                i as int,
                self.view(*old(trail))[j as int],
            ).update(j as int, self.view(*old(trail))[i as int]),
            sel_mem::<M>(final(trail)@).len() == sel_mem::<M>(old(trail)@).len(),
            forall|p: int|
                0 <= p < sel_mem::<M>(old(trail)@).len() && !(self.spec_offset() <= p
                    < self.spec_end()) ==> sel_mem::<M>(final(trail)@)[p] == sel_mem::<M>(
                    old(trail)@,
                )[p],
            oth_mem::<M>(final(trail)@) == oth_mem::<M>(old(trail)@),
            final(trail)@.levels == old(trail)@.levels,
    {
        self.pointer.swap(M::memory_mut(trail), i, j);
    }
}

/// An iterator over the values of an [`Array`]: single-pass and finite.
pub struct ArrayIter<M, T> {
    array: Array<M, T>,
    index: usize,
}

impl<M: StorageMode, T: Bytes> ArrayIter<M, T> {
    /// The index of the next element to yield.
    pub closed spec fn spec_index(self) -> int {
        self.index as int
    }

    /// The array being iterated over.
    pub closed spec fn spec_array(self) -> Array<M, T> {
        self.array
    }

    /// Yields the next element of the array, or `None` past the end.
    pub fn next(&mut self, trail: &Trail) -> (r: Option<T>)
        requires
            old(self).spec_array().wf(*trail),
        ensures
            final(self).spec_array() == old(self).spec_array(),
            old(self).spec_index() < old(self).spec_array().spec_len() ==> {
                &&& r == Some(old(self).spec_array().view(*trail)[old(self).spec_index()])
                &&& final(self).spec_index() == old(self).spec_index() + 1
            },
            old(self).spec_index() >= old(self).spec_array().spec_len() ==> {
                &&& r == None::<T>
                &&& final(self).spec_index() == old(self).spec_index()
            },
    {
        if self.index >= self.array.len() {
            None
        } else {
            let to_ret = Some(self.array.get(trail, self.index));
            self.index += 1;
            to_ret
        }
    }
}

/// Snapshot/restore law, backtrackable side: after a backtrack, every
/// backtrackable value reads as it did in the restored snapshot — that is,
/// as it did when that level was created, whatever was written in between.
pub proof fn lemma_backtrack_restores_value<T: Bytes>(
    v: Value<Backtrackable, T>,
    before: Trail,
    after: Trail,
)
    requires
        before@.levels.len() > 0,
        after@.backtrackable == before@.levels.last(),
        v.wf_in(before@.levels.last()),
    ensures
        v.wf(after),
        v.spec_get(after) == v.get_in(before@.levels.last()),
{
}

/// Snapshot/restore law, non-backtrackable side: a backtrack never touches
/// the non-backtrackable arena, so a non-backtrackable value keeps whatever
/// was last written to it.
pub proof fn lemma_backtrack_keeps_stable_value<T: Bytes>(
    v: Value<NonBacktrackable, T>,
    before: Trail,
    after: Trail,
)
    requires
        after@.non_backtrackable == before@.non_backtrackable,
        v.wf(before),
    ensures
        v.wf(after),
        v.spec_get(after) == v.spec_get(before),
{
}

/// A value stored on the trail in backtrackable memory.
pub type BacktrackableValue<T> = Value<Backtrackable, T>;

/// A value stored on the trail in non-backtrackable memory.
pub type NonBacktrackableValue<T> = Value<NonBacktrackable, T>;

/// A fixed-length array stored on the trail in backtrackable memory.
pub type BacktrackableArray<T> = Array<Backtrackable, T>;

/// A fixed-length array stored on the trail in non-backtrackable memory.
pub type NonBacktrackableArray<T> = Array<NonBacktrackable, T>;

} // verus!
