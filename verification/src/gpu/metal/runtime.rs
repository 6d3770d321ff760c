//! The runtime of all hash kernels.

use crate::gpu::metal::allocation::{self, Allocation};
use crate::gpu::metal::buffer_pool::{
    self, Buffer, BufferPool, PersistentMerkleBuffers, PersistentRequest,
};
use crate::gpu::metal::pipeline::{ComputePipelineState, Kernel};
use vstd::arithmetic::power2::*;
use vstd::prelude::*;

verus! {

/// Logarithm of the leaves that a runtime's persistent buffers are sized for.
pub const RUNTIME_MAX_DEGREE_LOG2: usize = 22;

/// The most leaves of a tree that fits a runtime's persistent buffers.
pub const RUNTIME_MAX_LEAVES: usize = 4194304;

/// The pipelines, buffers and start time of a device.
#[derive(Debug)]
pub struct MetalRuntime {
    pub pool: BufferPool,
    pub pso_poseidon_hash_leaves: ComputePipelineState,
    pub pso_poseidon_hash_tree_level: ComputePipelineState,
    pub pso_poseidon_hash_leaves_linear: ComputePipelineState,
    pub pso_poseidon_hash_tree_level_linear: ComputePipelineState,
    pub pso_poseidon_hash_caps_linear: ComputePipelineState,
    pub pso_poseidon_hash_leaves_threadgroup: ComputePipelineState,
    pub pso_poseidon_hash_tree_level_threadgroup: ComputePipelineState,
    pub pso_poseidon_hash_leaves_linear_threadgroup: ComputePipelineState,
    pub pso_poseidon_hash_leaves_and_level1_linear_threadgroup: ComputePipelineState,
    pub pso_poseidon_hash_tree_level_linear_threadgroup: ComputePipelineState,
    pub pso_poseidon_hash_caps_linear_threadgroup: ComputePipelineState,
    pub pso_poseidon_hash_leaves_coalesced: ComputePipelineState,
    pub pso_poseidon_hash_tree_level_coalesced: ComputePipelineState,
    pub pso_poseidon_hash_caps_coalesced: ComputePipelineState,
    pub pso_poseidon_hash_tree_level_coalesced_instrumented: ComputePipelineState,
    pub persistent_buffers: PersistentMerkleBuffers,
    pub init_time: u128,
}

impl MetalRuntime {
    /// Each pipeline runs its kernel, and the buffers are well formed and of the runtime's size.
    pub open spec fn wf(&self) -> bool {
        &&& self.pool.wf()
        &&& self.persistent_buffers.wf()
        &&& self.persistent_buffers.spec_max_degree_log2() == RUNTIME_MAX_DEGREE_LOG2
        &&& self.pso_poseidon_hash_leaves.kernel == Kernel::HashLeaves
        &&& self.pso_poseidon_hash_tree_level.kernel == Kernel::HashTreeLevel
        &&& self.pso_poseidon_hash_leaves_linear.kernel == Kernel::HashLeavesLinear
        &&& self.pso_poseidon_hash_tree_level_linear.kernel == Kernel::HashTreeLevelLinear
        &&& self.pso_poseidon_hash_caps_linear.kernel == Kernel::HashCapsLinear
        &&& self.pso_poseidon_hash_leaves_threadgroup.kernel == Kernel::HashLeavesThreadgroup
        &&& self.pso_poseidon_hash_tree_level_threadgroup.kernel == Kernel::HashTreeLevelThreadgroup
        &&& self.pso_poseidon_hash_leaves_linear_threadgroup.kernel == Kernel::HashLeavesLinearThreadgroup
        &&& self.pso_poseidon_hash_leaves_and_level1_linear_threadgroup.kernel == Kernel::HashLeavesAndLevel1LinearThreadgroup
        &&& self.pso_poseidon_hash_tree_level_linear_threadgroup.kernel == Kernel::HashTreeLevelLinearThreadgroup
        &&& self.pso_poseidon_hash_caps_linear_threadgroup.kernel == Kernel::HashCapsLinearThreadgroup
        &&& self.pso_poseidon_hash_leaves_coalesced.kernel == Kernel::HashLeavesCoalesced
        &&& self.pso_poseidon_hash_tree_level_coalesced.kernel == Kernel::HashTreeLevelCoalesced
        &&& self.pso_poseidon_hash_caps_coalesced.kernel == Kernel::HashCapsCoalesced
        &&& self.pso_poseidon_hash_tree_level_coalesced_instrumented.kernel == Kernel::HashTreeLevelCoalescedInstrumented
    }

    /// Whether two runtimes differ in nothing but their pools.
    pub open spec fn same_pipelines(self, other: MetalRuntime) -> bool {
        &&& self.pso_poseidon_hash_leaves == other.pso_poseidon_hash_leaves
        &&& self.pso_poseidon_hash_tree_level == other.pso_poseidon_hash_tree_level
        &&& self.pso_poseidon_hash_leaves_linear == other.pso_poseidon_hash_leaves_linear
        &&& self.pso_poseidon_hash_tree_level_linear == other.pso_poseidon_hash_tree_level_linear
        &&& self.pso_poseidon_hash_caps_linear == other.pso_poseidon_hash_caps_linear
        &&& self.pso_poseidon_hash_leaves_threadgroup == other.pso_poseidon_hash_leaves_threadgroup
        &&& self.pso_poseidon_hash_tree_level_threadgroup == other.pso_poseidon_hash_tree_level_threadgroup
        &&& self.pso_poseidon_hash_leaves_linear_threadgroup == other.pso_poseidon_hash_leaves_linear_threadgroup
        &&& self.pso_poseidon_hash_leaves_and_level1_linear_threadgroup == other.pso_poseidon_hash_leaves_and_level1_linear_threadgroup
        &&& self.pso_poseidon_hash_tree_level_linear_threadgroup == other.pso_poseidon_hash_tree_level_linear_threadgroup
        &&& self.pso_poseidon_hash_caps_linear_threadgroup == other.pso_poseidon_hash_caps_linear_threadgroup
        &&& self.pso_poseidon_hash_leaves_coalesced == other.pso_poseidon_hash_leaves_coalesced
        &&& self.pso_poseidon_hash_tree_level_coalesced == other.pso_poseidon_hash_tree_level_coalesced
        &&& self.pso_poseidon_hash_caps_coalesced == other.pso_poseidon_hash_caps_coalesced
        &&& self.pso_poseidon_hash_tree_level_coalesced_instrumented == other.pso_poseidon_hash_tree_level_coalesced_instrumented
        &&& self.persistent_buffers == other.persistent_buffers
        &&& self.init_time == other.init_time
    }

    /// When the runtime was set up, in microseconds.
    pub fn warm_up(&self) -> (r: u128)
        ensures
            r == self.init_time,
    {
        self.init_time
    }

    /// The persistent buffers to create for a runtime: 64 bytes of digests and 32 bytes of caps for
    /// each of the leaves that it is sized for.
    pub fn persistent_request() -> (r: PersistentRequest)
        ensures
            r.digests_size == 64 * RUNTIME_MAX_LEAVES,
            r.clear_digests == r.digests_size,
            r.caps_size == 32 * RUNTIME_MAX_LEAVES,
            r.clear_caps == r.caps_size,
    {
        proof {
            lemma2_to64();
        }
        PersistentMerkleBuffers::request(RUNTIME_MAX_DEGREE_LOG2)
    }

    /// The persistent buffers of a runtime, once they are created and cleared.
    pub fn new_persistent_buffers(digests_buffer: Buffer, caps_buffer: Buffer) -> (r:
        PersistentMerkleBuffers)
        requires
            digests_buffer.length == 64 * RUNTIME_MAX_LEAVES,
            caps_buffer.length == 32 * RUNTIME_MAX_LEAVES,
        ensures
            r.wf(),
            r.spec_max_degree_log2() == RUNTIME_MAX_DEGREE_LOG2,
            r.spec_max_leaves() == RUNTIME_MAX_LEAVES,
            r.spec_digests_buffer() == digests_buffer,
            r.spec_caps_buffer() == caps_buffer,
    {
        proof {
            lemma2_to64();
        }
        PersistentMerkleBuffers::new(RUNTIME_MAX_DEGREE_LOG2, digests_buffer, caps_buffer)
    }

    /// The buffers that every tree reuses.
    pub fn get_persistent_buffers(&self) -> (r: &PersistentMerkleBuffers)
        ensures
            *r == self.persistent_buffers,
    {
        &self.persistent_buffers
    }

    /// Whether a tree of `leaf_count` leaves fits the persistent buffers.
    pub fn persistent_buffers_fit(&self, leaf_count: usize) -> (r: bool)
        ensures
            r == (leaf_count <= self.persistent_buffers.spec_max_leaves()),
            self.wf() ==> r == (leaf_count <= RUNTIME_MAX_LEAVES),
    {
        proof {
            lemma2_to64();
        }
        self.persistent_buffers.fits(leaf_count)
    }

    /// Where the persistent digests and caps are mapped.
    pub fn get_persistent_buffer_addresses(&self) -> (r: (usize, usize))
        ensures
            r.0 == self.persistent_buffers.spec_digests_buffer().address,
            r.1 == self.persistent_buffers.spec_caps_buffer().address,
    {
        self.persistent_buffers.buffer_addresses()
    }

    /// A buffer of exactly `len` bytes, from the device.
    pub fn alloc_exact(&self, len: usize) -> (r: Allocation)
        ensures
            r == (Allocation::Create { size: len }),
    {
        Allocation::Create { size: len }
    }

    /// A buffer of at least `len` bytes, rounded up, from the pool or the device.
    pub fn alloc_aligned(&mut self, len: usize) -> (r: Allocation)
        requires
            old(self).pool.wf(),
            len <= pow2((usize::BITS - 1) as nat),
        ensures
            final(self).pool.wf(),
            final(self).same_pipelines(*old(self)),
            allocation::is_allocation(&old(self).pool, len, r, &final(self).pool),
    {
        allocation::allocate(&mut self.pool, len)
    }

    /// As [`Self::alloc_aligned`], and whether the buffer came from the pool.
    pub fn alloc_aligned_with_pool_hint(&mut self, len: usize) -> (r: (Allocation, bool))
        requires
            old(self).pool.wf(),
            len <= pow2((usize::BITS - 1) as nat),
        ensures
            final(self).pool.wf(),
            final(self).same_pipelines(*old(self)),
            allocation::is_allocation(&old(self).pool, len, r.0, &final(self).pool),
            r.1 == r.0.spec_from_pool(),
    {
        let allocated: Allocation = allocation::allocate(&mut self.pool, len);
        let from_pool: bool = allocated.from_pool();
        (allocated, from_pool)
    }

    /// A buffer of exactly `len` bytes from the device, and the bytes that come into use with it.
    pub fn alloc_tracked(&self, len: usize) -> (r: (Allocation, usize))
        ensures
            r.0 == (Allocation::Create { size: len }),
            r.1 == len,
    {
        (Allocation::Create { size: len }, len)
    }

    /// As [`Self::alloc_aligned`], and the bytes that come into use.
    pub fn alloc_aligned_tracked(&mut self, len: usize) -> (r: (Allocation, usize))
        requires
            old(self).pool.wf(),
            len <= pow2((usize::BITS - 1) as nat),
        ensures
            final(self).pool.wf(),
            final(self).same_pipelines(*old(self)),
            allocation::is_allocation(&old(self).pool, len, r.0, &final(self).pool),
            r.1 == r.0.spec_tracked_bytes(),
    {
        let allocated: Allocation = allocation::allocate(&mut self.pool, len);
        let in_use: usize = allocated.tracked_bytes();
        (allocated, in_use)
    }

    /// As [`Self::alloc_aligned_tracked`], and whether the buffer came from the pool.
    pub fn alloc_aligned_tracked_with_pool_hint(&mut self, len: usize) -> (r: (
        Allocation,
        usize,
        bool,
    ))
        requires
            old(self).pool.wf(),
            len <= pow2((usize::BITS - 1) as nat),
        ensures
            final(self).pool.wf(),
            final(self).same_pipelines(*old(self)),
            allocation::is_allocation(&old(self).pool, len, r.0, &final(self).pool),
            r.1 == r.0.spec_tracked_bytes(),
            r.2 == r.0.spec_from_pool(),
    {
        let allocated: Allocation = allocation::allocate(&mut self.pool, len);
        let in_use: usize = allocated.tracked_bytes();
        let from_pool: bool = allocated.from_pool();
        (allocated, in_use, from_pool)
    }

    /// Gives a buffer back to the pool; the bytes that go out of use are the result.
    pub fn return_buffer(&mut self, buffer: Buffer) -> (freed: usize)
        requires
            old(self).pool.wf(),
            buffer.length <= pow2((usize::BITS - 1) as nat),
        ensures
            final(self).pool.wf(),
            final(self).same_pipelines(*old(self)),
            buffer_pool::is_put(&old(self).pool, buffer, &final(self).pool),
            freed == buffer.length,
    {
        let freed: usize = buffer.length;
        self.pool.put(buffer);
        freed
    }

    /// Gives a tracked buffer back to the pool; the bytes that go out of use are the result.
    pub fn return_tracked_buffer(&mut self, buffer: Buffer) -> (freed: usize)
        requires
            old(self).pool.wf(),
            buffer.length <= pow2((usize::BITS - 1) as nat),
        ensures
            final(self).pool.wf(),
            final(self).same_pipelines(*old(self)),
            buffer_pool::is_put(&old(self).pool, buffer, &final(self).pool),
            freed == buffer.length,
    {
        self.return_buffer(buffer)
    }

    /// The smallest multiple of 256 that is at least `len`.
    pub fn align_to_256(len: usize) -> (r: usize)
        requires
            len + allocation::ALIGNMENT - 1 <= usize::MAX,
        ensures
            r == allocation::aligned(len as int, allocation::ALIGNMENT as int),
    {
        allocation::align_to_256(len)
    }

    /// The pipeline of `poseidon_hash_leaves`.
    pub fn get_poseidon_hash_leaves_pipeline_state(&self) -> (r: &ComputePipelineState)
        ensures
            *r == self.pso_poseidon_hash_leaves,
            self.wf() ==> r.kernel == Kernel::HashLeaves,
    {
        &self.pso_poseidon_hash_leaves
    }

    /// The pipeline of `poseidon_hash_tree_level`.
    pub fn get_poseidon_hash_tree_level_pipeline_state(&self) -> (r: &ComputePipelineState)
        ensures
            *r == self.pso_poseidon_hash_tree_level,
            self.wf() ==> r.kernel == Kernel::HashTreeLevel,
    {
        &self.pso_poseidon_hash_tree_level
    }

    /// The pipeline of `poseidon_hash_leaves_linear`.
    pub fn get_poseidon_hash_leaves_linear_pipeline_state(&self) -> (r: &ComputePipelineState)
        ensures
            *r == self.pso_poseidon_hash_leaves_linear,
            self.wf() ==> r.kernel == Kernel::HashLeavesLinear,
    {
        &self.pso_poseidon_hash_leaves_linear
    }

    /// The pipeline of `poseidon_hash_tree_level_linear`.
    pub fn get_poseidon_hash_tree_level_linear_pipeline_state(&self) -> (r: &ComputePipelineState)
        ensures
            *r == self.pso_poseidon_hash_tree_level_linear,
            self.wf() ==> r.kernel == Kernel::HashTreeLevelLinear,
    {
        &self.pso_poseidon_hash_tree_level_linear
    }

    /// The pipeline of `poseidon_hash_caps_linear`.
    pub fn get_poseidon_hash_caps_linear_pipeline_state(&self) -> (r: &ComputePipelineState)
        ensures
            *r == self.pso_poseidon_hash_caps_linear,
            self.wf() ==> r.kernel == Kernel::HashCapsLinear,
    {
        &self.pso_poseidon_hash_caps_linear
    }

    /// The pipeline of `poseidon_hash_leaves_threadgroup`.
    pub fn get_poseidon_hash_leaves_threadgroup_pipeline_state(&self) -> (r: &ComputePipelineState)
        ensures
            *r == self.pso_poseidon_hash_leaves_threadgroup,
            self.wf() ==> r.kernel == Kernel::HashLeavesThreadgroup,
    {
        &self.pso_poseidon_hash_leaves_threadgroup
    }

    /// The pipeline of `poseidon_hash_tree_level_threadgroup`.
    pub fn get_poseidon_hash_tree_level_threadgroup_pipeline_state(&self) -> (r: &ComputePipelineState)
        ensures
            *r == self.pso_poseidon_hash_tree_level_threadgroup,
            self.wf() ==> r.kernel == Kernel::HashTreeLevelThreadgroup,
    {
        &self.pso_poseidon_hash_tree_level_threadgroup
    }

    /// The pipeline of `poseidon_hash_leaves_linear_threadgroup`.
    pub fn get_poseidon_hash_leaves_linear_threadgroup_pipeline_state(&self) -> (r: &ComputePipelineState)
        ensures
            *r == self.pso_poseidon_hash_leaves_linear_threadgroup,
            self.wf() ==> r.kernel == Kernel::HashLeavesLinearThreadgroup,
    {
        &self.pso_poseidon_hash_leaves_linear_threadgroup
    }

    /// The pipeline of `poseidon_hash_leaves_and_level1_linear_threadgroup`.
    pub fn get_poseidon_hash_leaves_and_level1_linear_threadgroup_pipeline_state(&self) -> (r: &ComputePipelineState)
        ensures
            *r == self.pso_poseidon_hash_leaves_and_level1_linear_threadgroup,
            self.wf() ==> r.kernel == Kernel::HashLeavesAndLevel1LinearThreadgroup,
    {
        &self.pso_poseidon_hash_leaves_and_level1_linear_threadgroup
    }

    /// The pipeline of `poseidon_hash_tree_level_linear_threadgroup`.
    pub fn get_poseidon_hash_tree_level_linear_threadgroup_pipeline_state(&self) -> (r: &ComputePipelineState)
        ensures
            *r == self.pso_poseidon_hash_tree_level_linear_threadgroup,
            self.wf() ==> r.kernel == Kernel::HashTreeLevelLinearThreadgroup,
    {
        &self.pso_poseidon_hash_tree_level_linear_threadgroup
    }

    /// The pipeline of `poseidon_hash_caps_linear_threadgroup`.
    pub fn get_poseidon_hash_caps_linear_threadgroup_pipeline_state(&self) -> (r: &ComputePipelineState)
        ensures
            *r == self.pso_poseidon_hash_caps_linear_threadgroup,
            self.wf() ==> r.kernel == Kernel::HashCapsLinearThreadgroup,
    {
        &self.pso_poseidon_hash_caps_linear_threadgroup
    }

    /// The pipeline of `poseidon_hash_leaves_coalesced`.
    pub fn get_poseidon_hash_leaves_coalesced_pipeline_state(&self) -> (r: &ComputePipelineState)
        ensures
            *r == self.pso_poseidon_hash_leaves_coalesced,
            self.wf() ==> r.kernel == Kernel::HashLeavesCoalesced,
    {
        &self.pso_poseidon_hash_leaves_coalesced
    }

    /// The pipeline of `poseidon_hash_tree_level_coalesced`.
    pub fn get_poseidon_hash_tree_level_coalesced_pipeline_state(&self) -> (r: &ComputePipelineState)
        ensures
            *r == self.pso_poseidon_hash_tree_level_coalesced,
            self.wf() ==> r.kernel == Kernel::HashTreeLevelCoalesced,
    {
        &self.pso_poseidon_hash_tree_level_coalesced
    }

    /// The pipeline of `poseidon_hash_caps_coalesced`.
    pub fn get_poseidon_hash_caps_coalesced_pipeline_state(&self) -> (r: &ComputePipelineState)
        ensures
            *r == self.pso_poseidon_hash_caps_coalesced,
            self.wf() ==> r.kernel == Kernel::HashCapsCoalesced,
    {
        &self.pso_poseidon_hash_caps_coalesced
    }

    /// The pipeline of `poseidon_hash_tree_level_coalesced_instrumented`.
    pub fn get_poseidon_hash_tree_level_coalesced_instrumented_pipeline_state(&self) -> (r: &ComputePipelineState)
        ensures
            *r == self.pso_poseidon_hash_tree_level_coalesced_instrumented,
            self.wf() ==> r.kernel == Kernel::HashTreeLevelCoalescedInstrumented,
    {
        &self.pso_poseidon_hash_tree_level_coalesced_instrumented
    }
}

} // verus!
