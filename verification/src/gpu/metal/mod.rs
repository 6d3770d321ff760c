//! Plans for building Merkle trees with Metal kernels.

pub mod allocation;
pub mod buffer_pool;
pub mod coalesced_kernels;
pub mod coalesced_plan;
pub mod device_view;
pub mod layout;
pub mod merkle_chunked;
pub mod merkle_coalesced;
pub mod merkle_job;
pub mod merkle_linear;
pub mod merkle_linear_threadgroup;
pub mod merkle_threadgroup;
pub mod merkle_tree;
pub mod pipeline;
pub mod plan;
pub mod poseidon_interleaved;
pub mod runtime;
pub mod tree_effects;
pub mod tree_kernels;
pub mod tree_results;
pub mod utils;
pub mod work;
