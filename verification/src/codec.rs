//! The byte codec: types with a fixed-length byte representation.
//!
//! A type implementing [`Bytes`] declares how many bytes it occupies, a
//! mathematical encoding of its values as byte sequences, and executable
//! read/write operations over a byte buffer.  Decoding an encoding always
//! yields the original value back; this round-trip law is part of the trait
//! and is proved by every implementation.

use vstd::prelude::*;
use vstd::bytes::{
    lemma_auto_spec_u128_to_from_le_bytes, lemma_auto_spec_u16_to_from_le_bytes,
    lemma_auto_spec_u32_to_from_le_bytes, lemma_auto_spec_u64_to_from_le_bytes,
    spec_u128_from_le_bytes, spec_u128_to_le_bytes, spec_u16_from_le_bytes, spec_u16_to_le_bytes,
    spec_u32_from_le_bytes, spec_u32_to_le_bytes, spec_u64_from_le_bytes, spec_u64_to_le_bytes,
    u128_from_le_bytes, u128_to_le_bytes, u16_from_le_bytes, u16_to_le_bytes, u32_from_le_bytes,
    u32_to_le_bytes, u64_from_le_bytes, u64_to_le_bytes,
};
use vstd::slice::slice_subrange;
use vstd::utf8::{char_is_scalar, char_u32_cast, is_scalar};

verus! {

/// `s` with the `repl.len()` bytes starting at `off` replaced by `repl`;
/// all other positions are unchanged.
pub open spec fn splice(s: Seq<u8>, off: int, repl: Seq<u8>) -> Seq<u8> {
    Seq::new(s.len(), |j: int| if off <= j < off + repl.len() { repl[j - off] } else { s[j] })
}

/// Copies all of `src` into `mem` starting at `offset`.
fn copy_into(mem: &mut Vec<u8>, offset: usize, src: &Vec<u8>)
    requires
        offset + src@.len() <= old(mem)@.len(),
    ensures
        final(mem)@ == splice(old(mem)@, offset as int, src@),
{
    let n = src.len();
    let m = mem.len();
    let mut k: usize = 0;
    while k < n
        invariant
            k <= n,
            n == src@.len(),
            offset + n <= m,
            offset + n <= old(mem)@.len(),
            mem@.len() == old(mem)@.len(),
            forall|j: int|
                0 <= j < mem@.len() ==> mem@[j] == (if offset <= j < offset + k {
                    src@[j - offset]
                } else {
                    old(mem)@[j]
                }),
        decreases n - k,
    {
        mem[offset + k] = src[k];
        k += 1;
    }
    proof {
        assert(mem@ =~= splice(old(mem)@, offset as int, src@));
    }
}

/// A type with a fixed-length byte representation.
///
/// `to_bytes` is the mathematical encoding; `from_bytes` is total on byte
/// sequences of the right length and inverts `to_bytes` ([`Bytes::lemma_round_trip`]).
/// `write_bytes` serializes a value in place; `read_bytes` deserializes one.
pub trait Bytes: Sized {
    /// The size of the representation in bytes.
    spec fn spec_length() -> nat;

    /// The byte representation of `self`.
    spec fn to_bytes(self) -> Seq<u8>;

    /// The value represented by `s`; total on sequences of length
    /// `spec_length`, and the inverse of `to_bytes` on encodings.
    spec fn from_bytes(s: Seq<u8>) -> Self;

    /// Round-trip law: decoding an encoding yields the value back,
    /// and encodings have the declared length.
    proof fn lemma_round_trip(self)
        ensures
            self.to_bytes().len() == Self::spec_length(),
            Self::from_bytes(self.to_bytes()) == self,
    ;

    /// The size of the representation in bytes.
    fn length() -> (r: usize)
        ensures
            r as nat == Self::spec_length(),
    ;

    /// Reads a value of type `Self` from `mem` at `offset`.
    fn read_bytes(mem: &Vec<u8>, offset: usize) -> (r: Self)
        requires
            offset + Self::spec_length() <= mem@.len(),
        ensures
            r == Self::from_bytes(mem@.subrange(offset as int, offset + Self::spec_length())),
    ;

    /// Writes the representation of `self` into `mem` at `offset`,
    /// leaving every other byte unchanged.
    fn write_bytes(&self, mem: &mut Vec<u8>, offset: usize)
        requires
            offset + Self::spec_length() <= old(mem)@.len(),
        ensures
            final(mem)@ == splice(old(mem)@, offset as int, self.to_bytes()),
    ;
}

/// Codec round-trip law: for every codec value, decoding its encoding
/// yields the value back, bit-identically, and the encoding has the
/// declared length.
pub proof fn lemma_codec_round_trip<T: Bytes>(v: T)
    ensures
        v.to_bytes().len() == T::spec_length(),
        T::from_bytes(v.to_bytes()) == v,
{
    v.lemma_round_trip();
}

impl Bytes for u64 {
    open spec fn spec_length() -> nat {
        8
    }

    open spec fn to_bytes(self) -> Seq<u8> {
        spec_u64_to_le_bytes(self)
    }

    open spec fn from_bytes(s: Seq<u8>) -> Self {
        spec_u64_from_le_bytes(s)
    }

    proof fn lemma_round_trip(self) {
        lemma_auto_spec_u64_to_from_le_bytes();
    }

    fn length() -> (r: usize) {
        8
    }

    fn read_bytes(mem: &Vec<u8>, offset: usize) -> (r: Self) {
        let m = mem.len();
        let sl = slice_subrange(mem.as_slice(), offset, offset + 8);
        u64_from_le_bytes(sl)
    }

    fn write_bytes(&self, mem: &mut Vec<u8>, offset: usize) {
        let bs = u64_to_le_bytes(*self);
        copy_into(mem, offset, &bs);
    }
}

impl Bytes for u8 {
    open spec fn spec_length() -> nat {
        1
    }

    open spec fn to_bytes(self) -> Seq<u8> {
        seq![self]
    }

    open spec fn from_bytes(s: Seq<u8>) -> Self {
        s[0]
    }

    proof fn lemma_round_trip(self) {
    }

    fn length() -> (r: usize) {
        1
    }

    fn read_bytes(mem: &Vec<u8>, offset: usize) -> (r: Self) {
        mem[offset]
    }

    fn write_bytes(&self, mem: &mut Vec<u8>, offset: usize) {
        mem[offset] = *self;
        proof {
            assert(mem@ =~= splice(old(mem)@, offset as int, self.to_bytes()));
        }
    }
}

impl Bytes for u16 {
    open spec fn spec_length() -> nat {
        2
    }

    open spec fn to_bytes(self) -> Seq<u8> {
        spec_u16_to_le_bytes(self)
    }

    open spec fn from_bytes(s: Seq<u8>) -> Self {
        spec_u16_from_le_bytes(s)
    }

    proof fn lemma_round_trip(self) {
        lemma_auto_spec_u16_to_from_le_bytes();
        assert(spec_u16_to_le_bytes(self).len() == 2);
    }

    fn length() -> (r: usize) {
        2
    }

    fn read_bytes(mem: &Vec<u8>, offset: usize) -> (r: Self) {
        let m = mem.len();
        let sl = slice_subrange(mem.as_slice(), offset, offset + 2);
        u16_from_le_bytes(sl)
    }

    fn write_bytes(&self, mem: &mut Vec<u8>, offset: usize) {
        let bs = u16_to_le_bytes(*self);
        copy_into(mem, offset, &bs);
    }
}

impl Bytes for u32 {
    open spec fn spec_length() -> nat {
        4
    }

    open spec fn to_bytes(self) -> Seq<u8> {
        spec_u32_to_le_bytes(self)
    }

    open spec fn from_bytes(s: Seq<u8>) -> Self {
        spec_u32_from_le_bytes(s)
    }

    proof fn lemma_round_trip(self) {
        lemma_auto_spec_u32_to_from_le_bytes();
        assert(spec_u32_to_le_bytes(self).len() == 4);
    }

    fn length() -> (r: usize) {
        4
    }

    fn read_bytes(mem: &Vec<u8>, offset: usize) -> (r: Self) {
        let m = mem.len();
        let sl = slice_subrange(mem.as_slice(), offset, offset + 4);
        u32_from_le_bytes(sl)
    }

    fn write_bytes(&self, mem: &mut Vec<u8>, offset: usize) {
        let bs = u32_to_le_bytes(*self);
        copy_into(mem, offset, &bs);
    }
}

impl Bytes for u128 {
    open spec fn spec_length() -> nat {
        16
    }

    open spec fn to_bytes(self) -> Seq<u8> {
        spec_u128_to_le_bytes(self)
    }

    open spec fn from_bytes(s: Seq<u8>) -> Self {
        spec_u128_from_le_bytes(s)
    }

    proof fn lemma_round_trip(self) {
        lemma_auto_spec_u128_to_from_le_bytes();
        assert(spec_u128_to_le_bytes(self).len() == 16);
    }

    fn length() -> (r: usize) {
        16
    }

    fn read_bytes(mem: &Vec<u8>, offset: usize) -> (r: Self) {
        let m = mem.len();
        let sl = slice_subrange(mem.as_slice(), offset, offset + 16);
        u128_from_le_bytes(sl)
    }

    fn write_bytes(&self, mem: &mut Vec<u8>, offset: usize) {
        let bs = u128_to_le_bytes(*self);
        copy_into(mem, offset, &bs);
    }
}

impl Bytes for usize {
    open spec fn spec_length() -> nat {
        8
    }

    open spec fn to_bytes(self) -> Seq<u8> {
        spec_u64_to_le_bytes(self as u64)
    }

    open spec fn from_bytes(s: Seq<u8>) -> Self {
        spec_u64_from_le_bytes(s) as usize
    }

    proof fn lemma_round_trip(self) {
        lemma_auto_spec_u64_to_from_le_bytes();
        assert(((self as u64) as usize) == self);
    }

    fn length() -> (r: usize) {
        8
    }

    fn read_bytes(mem: &Vec<u8>, offset: usize) -> (r: Self) {
        let m = mem.len();
        let sl = slice_subrange(mem.as_slice(), offset, offset + 8);
        u64_from_le_bytes(sl) as usize
    }

    fn write_bytes(&self, mem: &mut Vec<u8>, offset: usize) {
        let bs = u64_to_le_bytes(*self as u64);
        copy_into(mem, offset, &bs);
    }
}

impl Bytes for i8 {
    open spec fn spec_length() -> nat {
        1
    }

    open spec fn to_bytes(self) -> Seq<u8> {
        seq![self as u8]
    }

    open spec fn from_bytes(s: Seq<u8>) -> Self {
        s[0] as i8
    }

    proof fn lemma_round_trip(self) {
        assert(((self as u8) as i8) == self) by (bit_vector);
    }

    fn length() -> (r: usize) {
        1
    }

    fn read_bytes(mem: &Vec<u8>, offset: usize) -> (r: Self) {
        mem[offset] as i8
    }

    fn write_bytes(&self, mem: &mut Vec<u8>, offset: usize) {
        mem[offset] = *self as u8;
        proof {
            assert(mem@ =~= splice(old(mem)@, offset as int, self.to_bytes()));
        }
    }
}

impl Bytes for i16 {
    open spec fn spec_length() -> nat {
        2
    }

    open spec fn to_bytes(self) -> Seq<u8> {
        spec_u16_to_le_bytes(self as u16)
    }

    open spec fn from_bytes(s: Seq<u8>) -> Self {
        spec_u16_from_le_bytes(s) as i16
    }

    proof fn lemma_round_trip(self) {
        lemma_auto_spec_u16_to_from_le_bytes();
        assert(spec_u16_to_le_bytes(self as u16).len() == 2);
        assert(((self as u16) as i16) == self) by (bit_vector);
    }

    fn length() -> (r: usize) {
        2
    }

    fn read_bytes(mem: &Vec<u8>, offset: usize) -> (r: Self) {
        let m = mem.len();
        let sl = slice_subrange(mem.as_slice(), offset, offset + 2);
        u16_from_le_bytes(sl) as i16
    }

    fn write_bytes(&self, mem: &mut Vec<u8>, offset: usize) {
        let bs = u16_to_le_bytes(*self as u16);
        copy_into(mem, offset, &bs);
    }
}

impl Bytes for i32 {
    open spec fn spec_length() -> nat {
        4
    }

    open spec fn to_bytes(self) -> Seq<u8> {
        spec_u32_to_le_bytes(self as u32)
    }

    open spec fn from_bytes(s: Seq<u8>) -> Self {
        spec_u32_from_le_bytes(s) as i32
    }

    proof fn lemma_round_trip(self) {
        lemma_auto_spec_u32_to_from_le_bytes();
        assert(spec_u32_to_le_bytes(self as u32).len() == 4);
        assert(((self as u32) as i32) == self) by (bit_vector);
    }

    fn length() -> (r: usize) {
        4
    }

    fn read_bytes(mem: &Vec<u8>, offset: usize) -> (r: Self) {
        let m = mem.len();
        let sl = slice_subrange(mem.as_slice(), offset, offset + 4);
        u32_from_le_bytes(sl) as i32
    }

    fn write_bytes(&self, mem: &mut Vec<u8>, offset: usize) {
        let bs = u32_to_le_bytes(*self as u32);
        copy_into(mem, offset, &bs);
    }
}

impl Bytes for i64 {
    open spec fn spec_length() -> nat {
        8
    }

    open spec fn to_bytes(self) -> Seq<u8> {
        spec_u64_to_le_bytes(self as u64)
    }

    open spec fn from_bytes(s: Seq<u8>) -> Self {
        spec_u64_from_le_bytes(s) as i64
    }

    proof fn lemma_round_trip(self) {
        lemma_auto_spec_u64_to_from_le_bytes();
        assert(((self as u64) as i64) == self) by (bit_vector);
    }

    fn length() -> (r: usize) {
        8
    }

    fn read_bytes(mem: &Vec<u8>, offset: usize) -> (r: Self) {
        let m = mem.len();
        let sl = slice_subrange(mem.as_slice(), offset, offset + 8);
        u64_from_le_bytes(sl) as i64
    }

    fn write_bytes(&self, mem: &mut Vec<u8>, offset: usize) {
        let bs = u64_to_le_bytes(*self as u64);
        copy_into(mem, offset, &bs);
    }
}

impl Bytes for i128 {
    open spec fn spec_length() -> nat {
        16
    }

    open spec fn to_bytes(self) -> Seq<u8> {
        spec_u128_to_le_bytes(self as u128)
    }

    open spec fn from_bytes(s: Seq<u8>) -> Self {
        spec_u128_from_le_bytes(s) as i128
    }

    proof fn lemma_round_trip(self) {
        lemma_auto_spec_u128_to_from_le_bytes();
        assert(spec_u128_to_le_bytes(self as u128).len() == 16);
        assert(((self as u128) as i128) == self) by (bit_vector);
    }

    fn length() -> (r: usize) {
        16
    }

    fn read_bytes(mem: &Vec<u8>, offset: usize) -> (r: Self) {
        let m = mem.len();
        let sl = slice_subrange(mem.as_slice(), offset, offset + 16);
        u128_from_le_bytes(sl) as i128
    }

    fn write_bytes(&self, mem: &mut Vec<u8>, offset: usize) {
        let bs = u128_to_le_bytes(*self as u128);
        copy_into(mem, offset, &bs);
    }
}

impl Bytes for isize {
    open spec fn spec_length() -> nat {
        8
    }

    open spec fn to_bytes(self) -> Seq<u8> {
        spec_u64_to_le_bytes((self as i64) as u64)
    }

    open spec fn from_bytes(s: Seq<u8>) -> Self {
        (spec_u64_from_le_bytes(s) as i64) as isize
    }

    proof fn lemma_round_trip(self) {
        lemma_auto_spec_u64_to_from_le_bytes();
        let w = self as i64;
        assert(((w as u64) as i64) == w) by (bit_vector);
        assert((w as isize) == self);
    }

    fn length() -> (r: usize) {
        8
    }

    fn read_bytes(mem: &Vec<u8>, offset: usize) -> (r: Self) {
        let m = mem.len();
        let sl = slice_subrange(mem.as_slice(), offset, offset + 8);
        (u64_from_le_bytes(sl) as i64) as isize
    }

    fn write_bytes(&self, mem: &mut Vec<u8>, offset: usize) {
        let bs = u64_to_le_bytes((*self as i64) as u64);
        copy_into(mem, offset, &bs);
    }
}

impl Bytes for bool {
    open spec fn spec_length() -> nat {
        1
    }

    open spec fn to_bytes(self) -> Seq<u8> {
        seq![if self { 1u8 } else { 0u8 }]
    }

    open spec fn from_bytes(s: Seq<u8>) -> Self {
        s[0] != 0
    }

    proof fn lemma_round_trip(self) {
    }

    fn length() -> (r: usize) {
        1
    }

    fn read_bytes(mem: &Vec<u8>, offset: usize) -> (r: Self) {
        mem[offset] != 0
    }

    fn write_bytes(&self, mem: &mut Vec<u8>, offset: usize) {
        mem[offset] = if *self { 1 } else { 0 };
        proof {
            assert(mem@ =~= splice(old(mem)@, offset as int, self.to_bytes()));
        }
    }
}

/// Relies on `char::from_u32` from std: it returns the character with the
/// given scalar value exactly when the value is a Unicode scalar, and
/// `None` otherwise.
#[verifier::external_body]
fn char_from_scalar(u: u32) -> (r: Option<char>)
    ensures
        match r {
            Some(c) => c as u32 == u,
            None => !is_scalar(u),
        },
        is_scalar(u) ==> r is Some,
{
    char::from_u32(u)
}

impl Bytes for char {
    open spec fn spec_length() -> nat {
        4
    }

    open spec fn to_bytes(self) -> Seq<u8> {
        spec_u32_to_le_bytes(self as u32)
    }

    open spec fn from_bytes(s: Seq<u8>) -> Self {
        let u = spec_u32_from_le_bytes(s);
        if is_scalar(u) {
            u as char
        } else {
            '\0'
        }
    }

    proof fn lemma_round_trip(self) {
        lemma_auto_spec_u32_to_from_le_bytes();
        assert(spec_u32_to_le_bytes(self as u32).len() == 4);
        char_is_scalar(self);
        char_u32_cast(self, self as u32);
    }

    fn length() -> (r: usize) {
        4
    }

    fn read_bytes(mem: &Vec<u8>, offset: usize) -> (r: Self) {
        let m = mem.len();
        let sl = slice_subrange(mem.as_slice(), offset, offset + 4);
        let u = u32_from_le_bytes(sl);
        match char_from_scalar(u) {
            Some(c) => {
                proof {
                    char_u32_cast(c, u);
                    char_is_scalar(c);
                }
                c
            },
            None => '\0',
        }
    }

    fn write_bytes(&self, mem: &mut Vec<u8>, offset: usize) {
        let bs = u32_to_le_bytes(*self as u32);
        copy_into(mem, offset, &bs);
    }
}

impl Bytes for () {
    open spec fn spec_length() -> nat {
        0
    }

    open spec fn to_bytes(self) -> Seq<u8> {
        Seq::empty()
    }

    open spec fn from_bytes(s: Seq<u8>) -> Self {
        ()
    }

    proof fn lemma_round_trip(self) {
    }

    fn length() -> (r: usize) {
        0
    }

    fn read_bytes(mem: &Vec<u8>, offset: usize) -> (r: Self) {
        ()
    }

    fn write_bytes(&self, mem: &mut Vec<u8>, offset: usize) {
        proof {
            assert(mem@ =~= splice(old(mem)@, offset as int, self.to_bytes()));
        }
    }
}

} // verus!
