//! State management for backtracking search algorithms.
//!
//! All search state lives as byte-addressed slots inside one of two arenas:
//! a backtrackable arena whose contents are snapshotted by `Trail::new_level`
//! and restored by `Trail::backtrack`, and a non-backtrackable arena whose
//! contents survive backtracking untouched.  Values are reached through small
//! copyable handles.
//!
//! On top of the trail sit three backtracking-aware collections: a bit set, a
//! doubly-linked-list arena, and a sparse set whose large index arrays stay in
//! non-backtrackable storage so that only its length is trailed.

pub mod codec;
pub mod mem;
pub mod storage;
pub mod trail;

pub mod bit_set;
pub mod linked_list;
pub mod sparse_set;

pub use codec::Bytes;
pub use mem::{ArrayPointer, Memory, MemoryBuilder, Pointer};
pub use storage::{Backtrackable, NonBacktrackable, StorageMode};
pub use trail::{
    Array, ArrayIter, BacktrackableArray, BacktrackableValue, NonBacktrackableArray,
    NonBacktrackableValue, Trail, TrailBuilder, Value,
};
