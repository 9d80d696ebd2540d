//! A first-fit free-list allocator over a fixed-size byte arena.
//!
//! The allocator owns a contiguous byte arena and serves variable-size,
//! variable-alignment requests from it. Every block, free or allocated,
//! starts with a 16-byte header (its usable size and, while free, a link to
//! the next free block) embedded in the arena itself. Addresses are byte
//! offsets into the arena. Allocation splits oversized blocks; deallocation
//! reinserts a block in address order and merges it with byte-adjacent
//! neighbours.

pub mod arith;
pub mod mem_allocator;
pub mod model;
pub mod words;
