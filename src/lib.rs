//! The "shortcut" step of all-pairs shortest paths: the min-plus product
//! `R[i, j] = min over k of D[i, k] + D[k, j]` of an `n x n` weight matrix
//! with itself, in a family of kernels that differ only in loop shape.
//!
//! Weights are fixed-point non-negative integers. The largest `u32` stands
//! for an infinite weight and addition saturates there, so every kernel
//! computes exactly the same product, whatever order it reduces in.
use vstd::prelude::*;

pub mod laws;
pub mod matrix;
pub mod packing;
pub mod schedule;
pub mod simd;
pub mod tile;
pub mod timer;
pub mod tools;
pub mod v0_baseline;
pub mod v1_linear_reading;
pub mod v2_instr_level_parallelism;
pub mod v3_simd;
pub mod v4_register_reuse;
pub mod v5_more_register_reuse;
pub mod v6_prefetch;
pub mod v7_cache_reuse;

verus! {

} // verus!
