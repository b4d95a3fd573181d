//! Scratch-memory allocators and ordered associative containers.
//!
//! The crate provides a bump-pointer arena over a fixed region, a growing
//! multi-chunk arena, a fixed-slot pool, and a red-black tree with ordered
//! map and set views. Allocators are modelled over an abstract address
//! space: an allocation is an address, and the contracts pin down alignment,
//! bounds and disjointness of everything handed out.

pub mod error;
pub mod arena;
pub mod standard;
pub mod pool;
pub mod order;
pub mod rbtree;
pub mod map;
pub mod set;
pub mod cbuf;
pub mod bitmap;

use vstd::prelude::*;

verus! {

/// Reports whether a half-open interval `[a_start, a_start + a_len)` is
/// disjoint from `[b_start, b_start + b_len)`.
pub open spec fn ranges_disjoint(a_start: int, a_len: int, b_start: int, b_len: int) -> bool {
    a_start + a_len <= b_start || b_start + b_len <= a_start
}

} // verus!
