//! Kernel parameters, digest layouts and thread grids.

pub use crate::gpu::metal::utils::{
    get_node_hash_index_in_digests, get_size_for_count, CoalescedUniforms, LinearUniforms,
    POSEIDON_CONST_SIZE, POSEIDON_MDS_SIZE, POSEIDON_RC_SIZE,
};
