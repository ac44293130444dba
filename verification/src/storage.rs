//! Storage modes: compile-time routing to one of the trail's two arenas.
//!
//! A [`StorageMode`] is a type-level selector with two implementations:
//! [`Backtrackable`] routes every operation to the arena that is snapshotted
//! by `Trail::new_level` and restored by `Trail::backtrack`;
//! [`NonBacktrackable`] routes to the arena that those calls never touch.

use crate::mem::{Memory, MemoryBuilder};
use crate::trail::{Trail, TrailBuilder};
use vstd::prelude::*;

verus! {

broadcast use crate::trail::lemma_trail_builder_view_parts, crate::trail::lemma_trail_view_parts;

/// Representation of how something is stored on the trail.
///
/// The selected arena is `sel_mem::<M>` of the trail's view; the other arena
/// (`oth_mem::<M>`) is never touched by operations routed through `M`.
pub trait StorageMode: Sized {
    /// Whether this mode routes to the backtrackable arena.
    spec fn spec_backtrackable() -> bool;

    /// Returns the associated `MemoryBuilder` from a `TrailBuilder`.
    fn builder_mut(builder: &mut TrailBuilder) -> (r: &mut MemoryBuilder)
        ensures
            Self::spec_backtrackable() ==> {
                &&& (*r)@ == old(builder)@.backtrackable
                &&& final(builder)@.backtrackable == (*final(r))@
                &&& final(builder)@.non_backtrackable == old(builder)@.non_backtrackable
            },
            !Self::spec_backtrackable() ==> {
                &&& (*r)@ == old(builder)@.non_backtrackable
                &&& final(builder)@.non_backtrackable == (*final(r))@
                &&& final(builder)@.backtrackable == old(builder)@.backtrackable
            },
    ;

    /// Returns the associated `Memory` from a `Trail`.
    fn memory(trail: &Trail) -> (r: &Memory)
        ensures
            Self::spec_backtrackable() ==> (*r)@ == trail@.backtrackable,
            !Self::spec_backtrackable() ==> (*r)@ == trail@.non_backtrackable,
    ;

    /// Returns the associated `Memory` from a `Trail` mutably; mutating it
    /// leaves the other arena and the snapshot stack untouched.
    fn memory_mut(trail: &mut Trail) -> (r: &mut Memory)
        ensures
            Self::spec_backtrackable() ==> {
                &&& (*r)@ == old(trail)@.backtrackable
                &&& final(trail)@.backtrackable == (*final(r))@
                &&& final(trail)@.non_backtrackable == old(trail)@.non_backtrackable
            },
            !Self::spec_backtrackable() ==> {
                &&& (*r)@ == old(trail)@.non_backtrackable
                &&& final(trail)@.non_backtrackable == (*final(r))@
                &&& final(trail)@.backtrackable == old(trail)@.backtrackable
            },
            final(trail)@.levels == old(trail)@.levels,
    ;
}

/// Objects stored on the trail in backtrackable memory: their contents are
/// saved by `Trail::new_level` and restored by `Trail::backtrack`.
#[derive(Clone, Copy, Debug, Default, Eq, Hash, Ord, PartialEq, PartialOrd)]
pub struct Backtrackable;

impl StorageMode for Backtrackable {
    open spec fn spec_backtrackable() -> bool {
        true
    }

    fn builder_mut(builder: &mut TrailBuilder) -> (r: &mut MemoryBuilder) {
        &mut builder.backtrackable_mem
    }

    fn memory(trail: &Trail) -> (r: &Memory) {
        &trail.backtrackable_mem
    }

    fn memory_mut(trail: &mut Trail) -> (r: &mut Memory) {
        &mut trail.backtrackable_mem
    }
}

/// Objects stored on the trail in non-backtrackable memory: their contents
/// survive `Trail::new_level` and `Trail::backtrack` untouched.
#[derive(Clone, Copy, Debug, Default, Eq, Hash, Ord, PartialEq, PartialOrd)]
pub struct NonBacktrackable;

impl StorageMode for NonBacktrackable {
    open spec fn spec_backtrackable() -> bool {
        false
    }

    fn builder_mut(builder: &mut TrailBuilder) -> (r: &mut MemoryBuilder) {
        &mut builder.non_backtrackable_mem
    }

    fn memory(trail: &Trail) -> (r: &Memory) {
        &trail.non_backtrackable_mem
    }

    fn memory_mut(trail: &mut Trail) -> (r: &mut Memory) {
        &mut trail.non_backtrackable_mem
    }
}

} // verus!
