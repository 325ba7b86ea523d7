//! A fixed-capacity slot allocator.
//!
//! The table hands out stable integer keys for inserted values, reuses the
//! keys of removed values through an intrusive free list, and never grows
//! past a capacity fixed at construction time.

pub mod laws;
pub mod slab;
