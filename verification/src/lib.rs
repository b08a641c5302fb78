//! Fixed-capacity, inline-stored container primitives.
//!
//! Each container has a compile-time capacity `N`; exceeding the capacity is
//! a caller error, ruled out by preconditions rather than handled by resizing.
//! The containers model a region of `N` slots of which only some are live:
//! a slot holds `Some` value exactly when the container's metadata says it is
//! live, and every operation is verified to preserve that correspondence.

pub mod bitmap;
pub mod inline_array;
pub mod order;
pub mod ring_buffer;
pub mod sized_chunk;
pub mod sparse_chunk;

pub use crate::inline_array::InlineArray;
pub use crate::ring_buffer::RingBuffer;
pub use crate::sized_chunk::Chunk;
pub use crate::sparse_chunk::SparseChunk;
