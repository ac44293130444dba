//! Low-level memory management: byte arenas and typed offset handles.
//!
//! A [`MemoryBuilder`] is an append-only byte buffer; finishing it yields a
//! fixed-size [`Memory`] arena.  [`Pointer`] and [`ArrayPointer`] are small
//! copyable handles holding a byte offset (and, for arrays, a length in
//! elements); they serialize values in and out of the arena through the
//! byte codec.
//!
//! A handle is only meaningful together with the `Memory` built from the
//! `MemoryBuilder` that created it (or a clone of that `Memory`); its
//! well-formedness condition `wf` captures that the handle's byte window
//! lies inside the arena.

use crate::codec::{splice, Bytes};
use core::marker::PhantomData;
use vstd::arithmetic::mul::{
    lemma_mul_inequality, lemma_mul_is_distributive_add_other_way, lemma_mul_nonnegative,
};
use vstd::prelude::*;

verus! {

/// A fixed-size chunk of bytes, read and written through pointer handles.
///
/// Arena equality is byte equality.
#[derive(Debug, PartialEq, Eq)]
pub struct Memory {
    pub(crate) bytes: Vec<u8>,
}

impl View for Memory {
    type V = Seq<u8>;

    closed spec fn view(&self) -> Seq<u8> {
        self.bytes@
    }
}

impl Clone for Memory {
    /// Deep byte copy.
    fn clone(&self) -> (r: Self)
        ensures
            r@ == self@,
    {
        let bytes = self.bytes.clone();
        proof {
            assert forall|i: int| 0 <= i < self.bytes@.len() implies bytes@[i]
                == self.bytes@[i] by {
                assert(vstd::pervasive::cloned::<u8>(self.bytes@[i], bytes@[i]));
            }
            assert(bytes@ =~= self.bytes@);
        }
        Memory { bytes }
    }
}

/// A growable chunk of bytes that can be built into a [`Memory`].
///
/// Values and arrays are not added directly; the `new` constructors of
/// [`Pointer`] and [`ArrayPointer`] take `&mut MemoryBuilder` and allocate
/// at the end of the buffer.  [`MemoryBuilder::finish`] freezes the layout.
#[derive(Debug, Default, PartialEq, Eq)]
pub struct MemoryBuilder {
    pub(crate) bytes: Vec<u8>,
}

impl View for MemoryBuilder {
    type V = Seq<u8>;

    closed spec fn view(&self) -> Seq<u8> {
        self.bytes@
    }
}

impl MemoryBuilder {
    /// Creates a new empty `MemoryBuilder`.
    pub fn new() -> (r: Self)
        ensures
            r@ == Seq::<u8>::empty(),
    {
        Self { bytes: Vec::new() }
    }

    /// Consumes the `MemoryBuilder` to create a `Memory` holding the same bytes.
    pub fn finish(self) -> (r: Memory)
        ensures
            r@ == self@,
    {
        Memory { bytes: self.bytes }
    }
}

/// A reference to a single value of type `T` in memory: a byte offset plus
/// a phantom type tag.  Copying a pointer is a pure data copy.
pub struct Pointer<T> {
    offset: usize,
    phantom: PhantomData<T>,
}

impl<T> Pointer<T> {
    /// The byte offset of the value this handle refers to.
    pub closed spec fn spec_offset(self) -> int {
        self.offset as int
    }
}

impl<T> Clone for Pointer<T> {
    fn clone(&self) -> (r: Self)
        ensures
            r == *self,
    {
        Pointer { offset: self.offset, phantom: PhantomData }
    }
}

impl<T> Copy for Pointer<T> {}

impl<T> PartialEq for Pointer<T> {
    /// Two pointers are equal exactly when their offsets are equal.
    fn eq(&self, other: &Self) -> (r: bool) {
        self.offset == other.offset
    }
}

impl<T> vstd::std_specs::cmp::PartialEqSpecImpl for Pointer<T> {
    open spec fn obeys_eq_spec() -> bool {
        true
    }

    open spec fn eq_spec(&self, other: &Self) -> bool {
        self.spec_offset() == other.spec_offset()
    }
}

impl<T> Eq for Pointer<T> {}

impl<T: Bytes> Pointer<T> {
    /// The handle's byte window lies inside the arena.
    pub open spec fn wf(self, mem: Seq<u8>) -> bool {
        &&& 0 <= self.spec_offset()
        &&& self.spec_offset() + T::spec_length() <= mem.len()
    }

    /// The value currently stored at this handle in the arena.
    pub open spec fn spec_get(self, mem: Seq<u8>) -> T {
        T::from_bytes(mem.subrange(self.spec_offset(), self.spec_offset() + T::spec_length()))
    }

    /// The stored value depends only on the bytes of the handle's window.
    pub proof fn lemma_frame(self, m1: Seq<u8>, m2: Seq<u8>)
        requires
            self.wf(m1),
            self.wf(m2),
            forall|j: int|
                self.spec_offset() <= j < self.spec_offset() + T::spec_length() ==> m1[j] == m2[j],
        ensures
            self.spec_get(m1) == self.spec_get(m2),
    {
        assert(m1.subrange(self.spec_offset(), self.spec_offset() + T::spec_length())
            =~= m2.subrange(self.spec_offset(), self.spec_offset() + T::spec_length()));
    }

    /// Creates a new pointer to the given value, allocated at the end of the
    /// builder.  The pointer is usable with the `Memory` the builder yields.
    pub fn new(builder: &mut MemoryBuilder, val: T) -> (r: Self)
        requires
            old(builder)@.len() + T::spec_length() <= usize::MAX,
        ensures
            r.spec_offset() == old(builder)@.len(),
            final(builder)@ == old(builder)@ + val.to_bytes(),
            r.wf(final(builder)@),
            r.spec_get(final(builder)@) == val,
    {
        proof {
            val.lemma_round_trip();
        }
        let offset = builder.bytes.len();
        let len_t = T::length();
        let mut k: usize = 0;
        while k < len_t
            invariant
                k <= len_t,
                len_t == T::spec_length(),
                offset == old(builder)@.len(),
                offset + len_t <= usize::MAX,
                builder.bytes@ == old(builder)@ + Seq::new(k as nat, |x: int| 0u8),
            decreases len_t - k,
        {
            builder.bytes.push(0);
            proof {
                assert(builder.bytes@ =~= old(builder)@ + Seq::new((k + 1) as nat, |x: int| 0u8));
            }
            k += 1;
        }
        val.write_bytes(&mut builder.bytes, offset);
        proof {
            assert(builder.bytes@ =~= old(builder)@ + val.to_bytes());
            let m = builder.bytes@;
            assert(m.subrange(offset as int, offset + T::spec_length()) =~= val.to_bytes());
        }
        Pointer { offset, phantom: PhantomData }
    }

    /// Gets the value of the pointer from memory.
    pub fn get(self, memory: &Memory) -> (r: T)
        requires
            self.wf(memory@),
        ensures
            r == self.spec_get(memory@),
    {
        let m = memory.bytes.len();
        T::read_bytes(&memory.bytes, self.offset)
    }

    /// Sets the value of the pointer in memory.  Only the handle's own byte
    /// window changes, and reading the handle afterwards yields `val`.
    pub fn set(self, memory: &mut Memory, val: T)
        requires
            self.wf(old(memory)@),
        ensures
            final(memory)@ == splice(old(memory)@, self.spec_offset(), val.to_bytes()),
            final(memory)@.len() == old(memory)@.len(),
            self.spec_get(final(memory)@) == val,
            forall|p: int|
                0 <= p < old(memory)@.len() && !(self.spec_offset() <= p < self.spec_offset()
                    + T::spec_length()) ==> final(memory)@[p] == old(memory)@[p],
    {
        proof {
            val.lemma_round_trip();
        }
        let m = memory.bytes.len();
        val.write_bytes(&mut memory.bytes, self.offset);
        proof {
            let mv = memory.bytes@;
            assert(mv.subrange(self.spec_offset(), self.spec_offset() + T::spec_length())
                =~= val.to_bytes());
        }
    }

    /// Updates the value in memory using the given function; equivalent to
    /// `set(memory, f(get(memory)))`.
    pub fn update<F: FnOnce(T) -> T>(self, memory: &mut Memory, f: F)
        requires
            self.wf(old(memory)@),
            call_requires(f, (self.spec_get(old(memory)@),)),
        ensures
            exists|v: T|
                {
                    &&& #[trigger] call_ensures(f, (self.spec_get(old(memory)@),), v)
                    &&& final(memory)@ == splice(old(memory)@, self.spec_offset(), v.to_bytes())
                    &&& self.spec_get(final(memory)@) == v
                },
    {
        let cur = self.get(memory);
        let next = f(cur);
        self.set(memory, next);
    }
}

/// A reference to a fixed-length array of values of type `T` in memory:
/// a byte offset, a length in elements, and a phantom type tag.
pub struct ArrayPointer<T> {
    offset: usize,
    len: usize,
    phantom: PhantomData<T>,
}

impl<T> ArrayPointer<T> {
    /// The byte offset where the array starts.
    pub closed spec fn spec_offset(self) -> int {
        self.offset as int
    }

    /// The number of elements in the array.
    pub closed spec fn spec_len(self) -> int {
        self.len as int
    }
}

impl<T> Clone for ArrayPointer<T> {
    fn clone(&self) -> (r: Self)
        ensures
            r == *self,
    {
        ArrayPointer { offset: self.offset, len: self.len, phantom: PhantomData }
    }
}

impl<T> Copy for ArrayPointer<T> {}

impl<T> PartialEq for ArrayPointer<T> {
    /// Two array pointers are equal exactly when their offsets and lengths are equal.
    fn eq(&self, other: &Self) -> (r: bool) {
        self.offset == other.offset && self.len == other.len
    }
}

impl<T> vstd::std_specs::cmp::PartialEqSpecImpl for ArrayPointer<T> {
    open spec fn obeys_eq_spec() -> bool {
        true
    }

    open spec fn eq_spec(&self, other: &Self) -> bool {
        self.spec_offset() == other.spec_offset() && self.spec_len() == other.spec_len()
    }
}

impl<T> Eq for ArrayPointer<T> {}

impl<T: Bytes> ArrayPointer<T> {
    /// The byte offset where element `i` starts.
    pub open spec fn elem_start(self, i: int) -> int {
        self.spec_offset() + i * T::spec_length()
    }

    /// The byte offset just past the last element.
    pub open spec fn spec_end(self) -> int {
        self.elem_start(self.spec_len())
    }

    /// The handle's byte window lies inside the arena.
    pub open spec fn wf(self, mem: Seq<u8>) -> bool {
        &&& 0 <= self.spec_offset()
        &&& 0 <= self.spec_len() <= usize::MAX
        &&& self.spec_end() <= mem.len()
    }

    /// The sequence of values currently stored in the array.
    pub open spec fn view_in(self, mem: Seq<u8>) -> Seq<T> {
        Seq::new(
            self.spec_len() as nat,
            |i: int| T::from_bytes(mem.subrange(self.elem_start(i), self.elem_start(i + 1))),
        )
    }

    /// Element `i`'s byte window lies between the array's start and end.
    pub proof fn lemma_elem_bounds(self, i: int)
        requires
            0 <= i < self.spec_len(),
        ensures
            self.spec_offset() <= self.elem_start(i),
            self.elem_start(i) + T::spec_length() == self.elem_start(i + 1),
            self.elem_start(i + 1) <= self.spec_end(),
    {
        let l = T::spec_length() as int;
        lemma_mul_nonnegative(i, l);
        lemma_mul_is_distributive_add_other_way(l, i, 1);
        lemma_mul_inequality(i + 1, self.spec_len(), l);
    }

    /// The stored elements depend only on the bytes of the array's window.
    pub proof fn lemma_frame(self, m1: Seq<u8>, m2: Seq<u8>)
        requires
            self.wf(m1),
            self.wf(m2),
            forall|j: int| self.spec_offset() <= j < self.spec_end() ==> m1[j] == m2[j],
        ensures
            self.view_in(m1) == self.view_in(m2),
    {
        assert forall|i: int| 0 <= i < self.spec_len() implies self.view_in(m1)[i]
            == self.view_in(m2)[i] by {
            self.lemma_elem_bounds(i);
            assert(m1.subrange(self.elem_start(i), self.elem_start(i + 1))
                =~= m2.subrange(self.elem_start(i), self.elem_start(i + 1)));
        }
        assert(self.view_in(m1) =~= self.view_in(m2));
    }

    /// Creates a new pointer to the given array of values, allocated at the
    /// end of the builder.
    pub fn new(builder: &mut MemoryBuilder, vals: &Vec<T>) -> (r: Self)
        requires
            old(builder)@.len() + vals@.len() * T::spec_length() <= usize::MAX,
        ensures
            r.spec_offset() == old(builder)@.len(),
            r.spec_len() == vals@.len(),
            final(builder)@.len() == old(builder)@.len() + vals@.len() * T::spec_length(),
            final(builder)@.subrange(0, old(builder)@.len() as int) == old(builder)@,
            r.wf(final(builder)@),
            r.view_in(final(builder)@) == vals@,
    {
        let offset = builder.bytes.len();
        let len_t = T::length();
        let n = vals.len();
        proof {
            lemma_mul_nonnegative(n as int, len_t as int);
        }
        let total = n * len_t;

        let mut k: usize = 0;
        while k < total
            invariant
                k <= total,
                offset == old(builder)@.len(),
                offset + total <= usize::MAX,
                builder.bytes@ == old(builder)@ + Seq::new(k as nat, |x: int| 0u8),
            decreases total - k,
        {
            builder.bytes.push(0);
            proof {
                assert(builder.bytes@ =~= old(builder)@ + Seq::new((k + 1) as nat, |x: int| 0u8));
            }
            k += 1;
        }

        let ghost r0 = ArrayPointer::<T> { offset, len: n, phantom: PhantomData };
        let mut val_offset = offset;
        let mut j: usize = 0;
        while j < n
            invariant
                j <= n,
                n == vals@.len(),
                len_t == T::spec_length(),
                offset == old(builder)@.len(),
                offset + n * (len_t as int) <= usize::MAX,
                val_offset == offset + j * (len_t as int),
                r0 == (ArrayPointer::<T> { offset, len: n, phantom: PhantomData }),
                builder.bytes@.len() == offset + n * (len_t as int),
                builder.bytes@.subrange(0, offset as int) == old(builder)@,
                forall|i: int|
                    0 <= i < j ==> r0.view_in(builder.bytes@)[i] == vals@[i],
            decreases n - j,
        {
            proof {
                r0.lemma_elem_bounds(j as int);
                vals@[j as int].lemma_round_trip();
            }
            let ghost before = builder.bytes@;
            vals[j].write_bytes(&mut builder.bytes, val_offset);
            proof {
                let after = builder.bytes@;
                let tb = vals@[j as int].to_bytes();
                assert(after.subrange(r0.elem_start(j as int), r0.elem_start(j as int + 1))
                    =~= tb);
                assert(after.subrange(0, offset as int) =~= before.subrange(0, offset as int));
                assert forall|i: int| 0 <= i < j implies r0.view_in(after)[i] == vals@[i] by {
                    r0.lemma_elem_bounds(i);
                    lemma_mul_inequality(i + 1, j as int, len_t as int);
                    assert(after.subrange(r0.elem_start(i), r0.elem_start(i + 1))
                        =~= before.subrange(r0.elem_start(i), r0.elem_start(i + 1)));
                    assert(r0.view_in(before)[i] == vals@[i]);
                }
                assert(r0.view_in(after)[j as int] == vals@[j as int]);
            }
            val_offset += len_t;
            j += 1;
        }
        proof {
            assert(r0.view_in(builder.bytes@) =~= vals@);
        }
        ArrayPointer { offset, len: n, phantom: PhantomData }
    }

    /// Returns the length of the array; constant over the array's lifetime.
    pub fn len(&self) -> (r: usize)
        ensures
            r == self.spec_len(),
    {
        self.len
    }

    /// Checks whether the length of the array is zero.
    pub fn is_empty(&self) -> (r: bool)
        ensures
            r == (self.spec_len() == 0),
    {
        self.len == 0
    }

    /// Gets the value at index `i` of the array from memory.
    pub fn get(&self, memory: &Memory, i: usize) -> (r: T)
        requires
            self.wf(memory@),
            i < self.spec_len(),
        ensures
            r == self.view_in(memory@)[i as int],
    {
        proof {
            self.lemma_elem_bounds(i as int);
        }
        let m = memory.bytes.len();
        let len_t = T::length();
        let mem_offset = self.offset + i * len_t;
        T::read_bytes(&memory.bytes, mem_offset)
    }

    /// Sets the value at index `i` of the array in memory.  Only element
    /// `i`'s byte window changes.
    pub fn set(&self, memory: &mut Memory, i: usize, val: T)
        requires
            self.wf(old(memory)@),
            i < self.spec_len(),
        ensures
            final(memory)@.len() == old(memory)@.len(),
            self.view_in(final(memory)@) == self.view_in(old(memory)@).update(i as int, val),
            forall|p: int|
                0 <= p < old(memory)@.len() && !(self.elem_start(i as int) <= p < self.elem_start(
                    i as int + 1,
                )) ==> final(memory)@[p] == old(memory)@[p],
    {
        proof {
            self.lemma_elem_bounds(i as int);
            val.lemma_round_trip();
        }
        let m = memory.bytes.len();
        let len_t = T::length();
        let mem_offset = self.offset + i * len_t;
        val.write_bytes(&mut memory.bytes, mem_offset);
        proof {
            let mv = memory.bytes@;
            let ov = old(memory)@;
            assert(mv.subrange(self.elem_start(i as int), self.elem_start(i as int + 1))
                =~= val.to_bytes());
            assert forall|k: int|
                0 <= k < self.spec_len() && k != i implies self.view_in(mv)[k] == self.view_in(
                ov,
            )[k] by {
                self.lemma_elem_bounds(k);
                if k < i {
                    lemma_mul_inequality(k + 1, i as int, T::spec_length() as int);
                } else {
                    lemma_mul_inequality(i as int + 1, k, T::spec_length() as int);
                }
                assert(mv.subrange(self.elem_start(k), self.elem_start(k + 1))
                    =~= ov.subrange(self.elem_start(k), self.elem_start(k + 1)));
            }
            assert(self.view_in(mv) =~= self.view_in(ov).update(i as int, val));
        }
    }

    /// Updates the value at index `i` in memory using the given function;
    /// equivalent to `set(memory, i, f(get(memory, i)))`.
    pub fn update<F: FnOnce(T) -> T>(&self, memory: &mut Memory, i: usize, f: F)
        requires
            self.wf(old(memory)@),
            i < self.spec_len(),
            call_requires(f, (self.view_in(old(memory)@)[i as int],)),
        ensures
            exists|v: T|
                {
                    &&& #[trigger] call_ensures(f, (self.view_in(old(memory)@)[i as int],), v)
                    &&& final(memory)@.len() == old(memory)@.len()
                    &&& self.view_in(final(memory)@) == self.view_in(old(memory)@).update(
                        i as int,
                        v,
                    )
                    &&& forall|p: int|
                        0 <= p < old(memory)@.len() && !(self.elem_start(i as int) <= p
                            < self.elem_start(i as int + 1)) ==> final(memory)@[p] == old(
                            memory,
                        )@[p]
                },
    {
        let cur = self.get(memory, i);
        let next = f(cur);
        self.set(memory, i, next);
    }

    /// Swaps the values at indices `i` and `j` of the array in memory;
    /// correct also when `i == j`.
    pub fn swap(&self, memory: &mut Memory, i: usize, j: usize)
        requires
            self.wf(old(memory)@),
            i < self.spec_len(),
            j < self.spec_len(),
        ensures
            final(memory)@.len() == old(memory)@.len(),
            self.view_in(final(memory)@) == self.view_in(old(memory)@).update(
                i as int,
                self.view_in(old(memory)@)[j as int],
            ).update(j as int, self.view_in(old(memory)@)[i as int]),
            forall|p: int|
                0 <= p < old(memory)@.len() && !(self.spec_offset() <= p < self.spec_end())
                    ==> final(memory)@[p] == old(memory)@[p],
    {
        proof {
            self.lemma_elem_bounds(i as int);
            self.lemma_elem_bounds(j as int);
        }
        let temp_i = self.get(memory, i);
        let temp_j = self.get(memory, j);
        self.set(memory, i, temp_j);
        self.set(memory, j, temp_i);
        proof {
            assert(self.view_in(final(memory)@) =~= self.view_in(old(memory)@).update(
                i as int,
                self.view_in(old(memory)@)[j as int],
            ).update(j as int, self.view_in(old(memory)@)[i as int]));
        }
    }
}

} // verus!
