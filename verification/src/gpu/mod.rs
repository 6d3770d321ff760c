//! Merkle trees on the GPU.

pub mod metal;
