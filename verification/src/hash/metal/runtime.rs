//! The runtime of the linear and coalesced hash kernels.

use crate::gpu::metal::allocation::{self, Allocation, Wrapping};
use crate::gpu::metal::buffer_pool::{self, Buffer, BufferPool};
use crate::gpu::metal::pipeline::{ComputePipelineState, Kernel};
use vstd::arithmetic::power2::*;
use vstd::prelude::*;

verus! {

/// The pipelines, buffers and start time of a device.
#[derive(Debug)]
pub struct MetalRuntime {
    pub pool: BufferPool,
    pub pso_poseidon_hash_leaves_linear_threadgroup: ComputePipelineState,
    pub pso_poseidon_hash_tree_level_linear_threadgroup: ComputePipelineState,
    pub pso_poseidon_hash_caps_linear_threadgroup: ComputePipelineState,
    pub pso_poseidon_hash_leaves_coalesced: ComputePipelineState,
    pub pso_poseidon_hash_tree_level_coalesced: ComputePipelineState,
    pub pso_poseidon_hash_caps_coalesced: ComputePipelineState,
    pub pso_poseidon_hash_tree_level_coalesced_instrumented: ComputePipelineState,
    pub init_time: u128,
}

impl MetalRuntime {
    /// Each pipeline runs its kernel, and the buffers are well formed.
    pub open spec fn wf(&self) -> bool {
        &&& self.pool.wf()
        &&& self.pso_poseidon_hash_leaves_linear_threadgroup.kernel == Kernel::HashLeavesLinearThreadgroup
        &&& self.pso_poseidon_hash_tree_level_linear_threadgroup.kernel == Kernel::HashTreeLevelLinearThreadgroup
        &&& self.pso_poseidon_hash_caps_linear_threadgroup.kernel == Kernel::HashCapsLinearThreadgroup
        &&& self.pso_poseidon_hash_leaves_coalesced.kernel == Kernel::HashLeavesCoalesced
        &&& self.pso_poseidon_hash_tree_level_coalesced.kernel == Kernel::HashTreeLevelCoalesced
        &&& self.pso_poseidon_hash_caps_coalesced.kernel == Kernel::HashCapsCoalesced
        &&& self.pso_poseidon_hash_tree_level_coalesced_instrumented.kernel == Kernel::HashTreeLevelCoalescedInstrumented
    }

    /// Whether two runtimes differ in nothing but their pools.
    pub open spec fn same_pipelines(self, other: MetalRuntime) -> bool {
        &&& self.pso_poseidon_hash_leaves_linear_threadgroup == other.pso_poseidon_hash_leaves_linear_threadgroup
        &&& self.pso_poseidon_hash_tree_level_linear_threadgroup == other.pso_poseidon_hash_tree_level_linear_threadgroup
        &&& self.pso_poseidon_hash_caps_linear_threadgroup == other.pso_poseidon_hash_caps_linear_threadgroup
        &&& self.pso_poseidon_hash_leaves_coalesced == other.pso_poseidon_hash_leaves_coalesced
        &&& self.pso_poseidon_hash_tree_level_coalesced == other.pso_poseidon_hash_tree_level_coalesced
        &&& self.pso_poseidon_hash_caps_coalesced == other.pso_poseidon_hash_caps_coalesced
        &&& self.pso_poseidon_hash_tree_level_coalesced_instrumented == other.pso_poseidon_hash_tree_level_coalesced_instrumented
        &&& self.init_time == other.init_time
    }

    /// When the runtime was set up, in microseconds.
    pub fn warm_up(&self) -> (r: u128)
        ensures
            r == self.init_time,
    {
        self.init_time
    }

    /// A buffer of exactly `len` bytes, from the device.
    pub fn alloc_exact(&self, len: usize) -> (r: Allocation)
        ensures
            r == (Allocation::Create { size: len }),
    {
        Allocation::Create { size: len }
    }

    /// A buffer of at least `len` bytes, rounded up, from the pool or the device.
    pub fn alloc_aligned(&mut self, len: usize) -> (r: Allocation)
        requires
            old(self).pool.wf(),
            len <= pow2((usize::BITS - 1) as nat),
        ensures
            final(self).pool.wf(),
            final(self).same_pipelines(*old(self)),
            allocation::is_allocation(&old(self).pool, len, r, &final(self).pool),
    {
        allocation::allocate(&mut self.pool, len)
    }

    /// As [`Self::alloc_aligned`], and whether the buffer came from the pool.
    pub fn alloc_aligned_with_pool_hint(&mut self, len: usize) -> (r: (Allocation, bool))
        requires
            old(self).pool.wf(),
            len <= pow2((usize::BITS - 1) as nat),
        ensures
            final(self).pool.wf(),
            final(self).same_pipelines(*old(self)),
            allocation::is_allocation(&old(self).pool, len, r.0, &final(self).pool),
            r.1 == r.0.spec_from_pool(),
    {
        let allocated: Allocation = allocation::allocate(&mut self.pool, len);
        let from_pool: bool = allocated.from_pool();
        (allocated, from_pool)
    }

    /// A buffer of exactly `len` bytes from the device, and the bytes that come into use with it.
    pub fn alloc_tracked(&self, len: usize) -> (r: (Allocation, usize))
        ensures
            r.0 == (Allocation::Create { size: len }),
            r.1 == len,
    {
        (Allocation::Create { size: len }, len)
    }

    /// As [`Self::alloc_aligned`], and the bytes that come into use.
    pub fn alloc_aligned_tracked(&mut self, len: usize) -> (r: (Allocation, usize))
        requires
            old(self).pool.wf(),
            len <= pow2((usize::BITS - 1) as nat),
        ensures
            final(self).pool.wf(),
            final(self).same_pipelines(*old(self)),
            allocation::is_allocation(&old(self).pool, len, r.0, &final(self).pool),
            r.1 == r.0.spec_tracked_bytes(),
    {
        let allocated: Allocation = allocation::allocate(&mut self.pool, len);
        let in_use: usize = allocated.tracked_bytes();
        (allocated, in_use)
    }

    /// As [`Self::alloc_aligned_tracked`], and whether the buffer came from the pool.
    pub fn alloc_aligned_tracked_with_pool_hint(&mut self, len: usize) -> (r: (
        Allocation,
        usize,
        bool,
    ))
        requires
            old(self).pool.wf(),
            len <= pow2((usize::BITS - 1) as nat),
        ensures
            final(self).pool.wf(),
            final(self).same_pipelines(*old(self)),
            allocation::is_allocation(&old(self).pool, len, r.0, &final(self).pool),
            r.1 == r.0.spec_tracked_bytes(),
            r.2 == r.0.spec_from_pool(),
    {
        let allocated: Allocation = allocation::allocate(&mut self.pool, len);
        let in_use: usize = allocated.tracked_bytes();
        let from_pool: bool = allocated.from_pool();
        (allocated, in_use, from_pool)
    }

    /// Gives a buffer back to the pool; the bytes that go out of use are the result.
    pub fn return_buffer(&mut self, buffer: Buffer) -> (freed: usize)
        requires
            old(self).pool.wf(),
            buffer.length <= pow2((usize::BITS - 1) as nat),
        ensures
            final(self).pool.wf(),
            final(self).same_pipelines(*old(self)),
            buffer_pool::is_put(&old(self).pool, buffer, &final(self).pool),
            freed == buffer.length,
    {
        let freed: usize = buffer.length;
        self.pool.put(buffer);
        freed
    }

    /// Gives a tracked buffer back to the pool; the bytes that go out of use are the result.
    pub fn return_tracked_buffer(&mut self, buffer: Buffer) -> (freed: usize)
        requires
            old(self).pool.wf(),
            buffer.length <= pow2((usize::BITS - 1) as nat),
        ensures
            final(self).pool.wf(),
            final(self).same_pipelines(*old(self)),
            buffer_pool::is_put(&old(self).pool, buffer, &final(self).pool),
            freed == buffer.length,
    {
        self.return_buffer(buffer)
    }

    /// The smallest multiple of 256 that is at least `len`.
    pub fn align_to_256(len: usize) -> (r: usize)
        requires
            len + allocation::ALIGNMENT - 1 <= usize::MAX,
        ensures
            r == allocation::aligned(len as int, allocation::ALIGNMENT as int),
    {
        allocation::align_to_256(len)
    }

    /// How memory of `len` bytes at `address` becomes a buffer without copying: only where it starts
    /// on a page boundary.
    pub fn try_wrap_no_copy(&self, address: usize, len: usize) -> (r: Option<Wrapping>)
        requires
            len + allocation::PAGE_SIZE - 1 <= usize::MAX,
        ensures
            r is Some <==> address as int % allocation::PAGE_SIZE as int == 0,
            r matches Some(w) ==> w == (Wrapping::InPlace {
                mapped: allocation::aligned(len as int, allocation::PAGE_SIZE as int) as usize,
                in_use: len,
            }),
    {
        allocation::try_wrap_no_copy(address, len)
    }

    /// How memory of `len` bytes at `address` becomes a buffer: in place where it starts on a page
    /// boundary, by copying elsewhere.
    pub fn wrap_or_copy(&self, address: usize, len: usize) -> (r: Wrapping)
        requires
            len + allocation::PAGE_SIZE - 1 <= usize::MAX,
        ensures
            r == if address as int % allocation::PAGE_SIZE as int == 0 {
                Wrapping::InPlace {
                    mapped: allocation::aligned(len as int, allocation::PAGE_SIZE as int) as usize,
                    in_use: len,
                }
            } else {
                Wrapping::Copy { size: len }
            },
    {
        allocation::wrap_or_copy(address, len)
    }

    /// The pipeline of `poseidon_hash_leaves_linear_threadgroup`.
    pub fn get_poseidon_hash_leaves_linear_threadgroup_pipeline_state(&self) -> (r: &ComputePipelineState)
        ensures
            *r == self.pso_poseidon_hash_leaves_linear_threadgroup,
            self.wf() ==> r.kernel == Kernel::HashLeavesLinearThreadgroup,
    {
        &self.pso_poseidon_hash_leaves_linear_threadgroup
    }

    /// The pipeline of `poseidon_hash_tree_level_linear_threadgroup`.
    pub fn get_poseidon_hash_tree_level_linear_threadgroup_pipeline_state(&self) -> (r: &ComputePipelineState)
        ensures
            *r == self.pso_poseidon_hash_tree_level_linear_threadgroup,
            self.wf() ==> r.kernel == Kernel::HashTreeLevelLinearThreadgroup,
    {
        &self.pso_poseidon_hash_tree_level_linear_threadgroup
    }

    /// The pipeline of `poseidon_hash_caps_linear_threadgroup`.
    pub fn get_poseidon_hash_caps_linear_threadgroup_pipeline_state(&self) -> (r: &ComputePipelineState)
        ensures
            *r == self.pso_poseidon_hash_caps_linear_threadgroup,
            self.wf() ==> r.kernel == Kernel::HashCapsLinearThreadgroup,
    {
        &self.pso_poseidon_hash_caps_linear_threadgroup
    }

    /// The pipeline of `poseidon_hash_leaves_coalesced`.
    pub fn get_poseidon_hash_leaves_coalesced_pipeline_state(&self) -> (r: &ComputePipelineState)
        ensures
            *r == self.pso_poseidon_hash_leaves_coalesced,
            self.wf() ==> r.kernel == Kernel::HashLeavesCoalesced,
    {
        &self.pso_poseidon_hash_leaves_coalesced
    }

    /// The pipeline of `poseidon_hash_tree_level_coalesced`.
    pub fn get_poseidon_hash_tree_level_coalesced_pipeline_state(&self) -> (r: &ComputePipelineState)
        ensures
            *r == self.pso_poseidon_hash_tree_level_coalesced,
            self.wf() ==> r.kernel == Kernel::HashTreeLevelCoalesced,
    {
        &self.pso_poseidon_hash_tree_level_coalesced
    }

    /// The pipeline of `poseidon_hash_caps_coalesced`.
    pub fn get_poseidon_hash_caps_coalesced_pipeline_state(&self) -> (r: &ComputePipelineState)
        ensures
            *r == self.pso_poseidon_hash_caps_coalesced,
            self.wf() ==> r.kernel == Kernel::HashCapsCoalesced,
    {
        &self.pso_poseidon_hash_caps_coalesced
    }
}

} // verus!
