//! Hashing and transforms on the GPU.

pub mod metal;
pub mod metal_ntt_bench;
