//! Everything that callers need to build Merkle trees on the device.

pub use crate::gpu::metal::buffer_pool::{
    clear_buffer_pool, get_buffer_pool_stats, reset_buffer_pool_stats, BufferPool,
    PersistentMerkleBuffers,
};
pub use crate::gpu::metal::merkle_coalesced::{
    get_chunk_size_log2, get_coalesced_height_threshold, get_last_chunk_dispatch_count,
    get_last_level_dispatch_count, get_staging_buffer_switches, is_double_buffer_enabled,
    reset_chunk_dispatch_count, reset_level_dispatch_count, reset_staging_buffer_switches,
    set_chunk_size_log2, set_coalesced_height_threshold, set_double_buffer_enabled, ChunkSizeGuard,
    CoalescedThresholdGuard, DoubleBufferGuard,
};
pub use crate::gpu::metal::merkle_job::{MerkleGpuJob, MerkleGpuResult};
pub use crate::gpu::metal::runtime::MetalRuntime;
pub use crate::gpu::metal::utils::{
    convert_linear_to_recursive, get_node_hash_index_in_digests, get_size_for_count, AccessCounters,
    CoalescedUniforms, LinearUniforms, POSEIDON_CONST_SIZE, POSEIDON_MDS_SIZE, POSEIDON_RC_SIZE,
};
