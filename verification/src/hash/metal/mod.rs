//! Metal kernels: what is launched, with which parameters, and what is made of the results.
//!
//! Poseidon trees of at least `2^13` leaves are built on the device: up to `2^20` leaves by the
//! kernels of the linear layout with shared memory, beyond by the coalesced kernels. All other trees
//! are built by the processor.

pub mod gpu_thread;
pub mod merkle;
pub mod ntt;
pub mod ntt_kernels;
pub mod ntt_launches;
pub mod runtime;
pub mod utils;
