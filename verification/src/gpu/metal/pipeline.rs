//! Hash kernels and their compiled pipelines.

use vstd::prelude::*;

verus! {

/// The shader libraries that hold the kernels.
#[derive(Clone, Copy, Debug, PartialEq, Eq, Structural)]
pub enum ShaderLibrary {
    Base,
    Linear,
    Threadgroup,
    LinearThreadgroup,
    Coalesced,
}

impl ShaderLibrary {
    /// The library's file name, without extension.
    pub open spec fn spec_file_stem(self) -> Seq<char> {
        match self {
            ShaderLibrary::Base => "poseidon_merkle_hasher"@,
            ShaderLibrary::Linear => "poseidon_merkle_hasher_linear"@,
            ShaderLibrary::Threadgroup => "poseidon_merkle_hasher_threadgroup"@,
            ShaderLibrary::LinearThreadgroup => "poseidon_merkle_hasher_linear_threadgroup"@,
            ShaderLibrary::Coalesced => "poseidon_merkle_hasher_coalesced"@,
        }
    }

    /// The library's file name, without extension.
    pub fn file_stem(&self) -> (r: &'static str)
        ensures
            r@ == self.spec_file_stem(),
    {
        match self {
            ShaderLibrary::Base => "poseidon_merkle_hasher",
            ShaderLibrary::Linear => "poseidon_merkle_hasher_linear",
            ShaderLibrary::Threadgroup => "poseidon_merkle_hasher_threadgroup",
            ShaderLibrary::LinearThreadgroup => "poseidon_merkle_hasher_linear_threadgroup",
            ShaderLibrary::Coalesced => "poseidon_merkle_hasher_coalesced",
        }
    }
}

/// The hash kernels.
#[derive(Clone, Copy, Debug, PartialEq, Eq, Structural)]
pub enum Kernel {
    HashLeaves,
    HashTreeLevel,
    HashLeavesLinear,
    HashTreeLevelLinear,
    HashCapsLinear,
    HashLeavesThreadgroup,
    HashTreeLevelThreadgroup,
    HashLeavesLinearThreadgroup,
    HashLeavesAndLevel1LinearThreadgroup,
    HashTreeLevelLinearThreadgroup,
    HashCapsLinearThreadgroup,
    HashLeavesCoalesced,
    HashTreeLevelCoalesced,
    HashCapsCoalesced,
    HashTreeLevelCoalescedInstrumented,
}

impl Kernel {
    /// The name of the kernel's function.
    pub open spec fn spec_function_name(self) -> Seq<char> {
        match self {
            Kernel::HashLeaves => "poseidon_hash_leaves"@,
            Kernel::HashTreeLevel => "poseidon_hash_tree_level"@,
            Kernel::HashLeavesLinear => "poseidon_hash_leaves_linear"@,
            Kernel::HashTreeLevelLinear => "poseidon_hash_tree_level_linear"@,
            Kernel::HashCapsLinear => "poseidon_hash_caps_linear"@,
            Kernel::HashLeavesThreadgroup => "poseidon_hash_leaves_threadgroup"@,
            Kernel::HashTreeLevelThreadgroup => "poseidon_hash_tree_level_threadgroup"@,
            Kernel::HashLeavesLinearThreadgroup => "poseidon_hash_leaves_linear_threadgroup"@,
            Kernel::HashLeavesAndLevel1LinearThreadgroup => "poseidon_hash_leaves_and_level1_linear_threadgroup"@,
            Kernel::HashTreeLevelLinearThreadgroup => "poseidon_hash_tree_level_linear_threadgroup"@,
            Kernel::HashCapsLinearThreadgroup => "poseidon_hash_caps_linear_threadgroup"@,
            Kernel::HashLeavesCoalesced => "poseidon_hash_leaves_coalesced"@,
            Kernel::HashTreeLevelCoalesced => "poseidon_hash_tree_level_coalesced"@,
            Kernel::HashCapsCoalesced => "poseidon_hash_caps_coalesced"@,
            Kernel::HashTreeLevelCoalescedInstrumented => "poseidon_hash_tree_level_coalesced_instrumented"@,
        }
    }

    /// The name of the kernel's function.
    pub fn function_name(&self) -> (r: &'static str)
        ensures
            r@ == self.spec_function_name(),
    {
        match self {
            Kernel::HashLeaves => "poseidon_hash_leaves",
            Kernel::HashTreeLevel => "poseidon_hash_tree_level",
            Kernel::HashLeavesLinear => "poseidon_hash_leaves_linear",
            Kernel::HashTreeLevelLinear => "poseidon_hash_tree_level_linear",
            Kernel::HashCapsLinear => "poseidon_hash_caps_linear",
            Kernel::HashLeavesThreadgroup => "poseidon_hash_leaves_threadgroup",
            Kernel::HashTreeLevelThreadgroup => "poseidon_hash_tree_level_threadgroup",
            Kernel::HashLeavesLinearThreadgroup => "poseidon_hash_leaves_linear_threadgroup",
            Kernel::HashLeavesAndLevel1LinearThreadgroup => "poseidon_hash_leaves_and_level1_linear_threadgroup",
            Kernel::HashTreeLevelLinearThreadgroup => "poseidon_hash_tree_level_linear_threadgroup",
            Kernel::HashCapsLinearThreadgroup => "poseidon_hash_caps_linear_threadgroup",
            Kernel::HashLeavesCoalesced => "poseidon_hash_leaves_coalesced",
            Kernel::HashTreeLevelCoalesced => "poseidon_hash_tree_level_coalesced",
            Kernel::HashCapsCoalesced => "poseidon_hash_caps_coalesced",
            Kernel::HashTreeLevelCoalescedInstrumented => "poseidon_hash_tree_level_coalesced_instrumented",
        }
    }

    /// The library that holds the kernel.
    pub open spec fn spec_library(self) -> ShaderLibrary {
        match self {
            Kernel::HashLeaves => ShaderLibrary::Base,
            Kernel::HashTreeLevel => ShaderLibrary::Base,
            Kernel::HashLeavesLinear => ShaderLibrary::Linear,
            Kernel::HashTreeLevelLinear => ShaderLibrary::Linear,
            Kernel::HashCapsLinear => ShaderLibrary::Linear,
            Kernel::HashLeavesThreadgroup => ShaderLibrary::Threadgroup,
            Kernel::HashTreeLevelThreadgroup => ShaderLibrary::Threadgroup,
            Kernel::HashLeavesLinearThreadgroup => ShaderLibrary::LinearThreadgroup,
            Kernel::HashLeavesAndLevel1LinearThreadgroup => ShaderLibrary::LinearThreadgroup,
            Kernel::HashTreeLevelLinearThreadgroup => ShaderLibrary::LinearThreadgroup,
            Kernel::HashCapsLinearThreadgroup => ShaderLibrary::LinearThreadgroup,
            Kernel::HashLeavesCoalesced => ShaderLibrary::Coalesced,
            Kernel::HashTreeLevelCoalesced => ShaderLibrary::Coalesced,
            Kernel::HashCapsCoalesced => ShaderLibrary::Coalesced,
            Kernel::HashTreeLevelCoalescedInstrumented => ShaderLibrary::Coalesced,
        }
    }

    /// The library that holds the kernel.
    pub fn library(&self) -> (r: ShaderLibrary)
        ensures
            r == self.spec_library(),
    {
        match self {
            Kernel::HashLeaves => ShaderLibrary::Base,
            Kernel::HashTreeLevel => ShaderLibrary::Base,
            Kernel::HashLeavesLinear => ShaderLibrary::Linear,
            Kernel::HashTreeLevelLinear => ShaderLibrary::Linear,
            Kernel::HashCapsLinear => ShaderLibrary::Linear,
            Kernel::HashLeavesThreadgroup => ShaderLibrary::Threadgroup,
            Kernel::HashTreeLevelThreadgroup => ShaderLibrary::Threadgroup,
            Kernel::HashLeavesLinearThreadgroup => ShaderLibrary::LinearThreadgroup,
            Kernel::HashLeavesAndLevel1LinearThreadgroup => ShaderLibrary::LinearThreadgroup,
            Kernel::HashTreeLevelLinearThreadgroup => ShaderLibrary::LinearThreadgroup,
            Kernel::HashCapsLinearThreadgroup => ShaderLibrary::LinearThreadgroup,
            Kernel::HashLeavesCoalesced => ShaderLibrary::Coalesced,
            Kernel::HashTreeLevelCoalesced => ShaderLibrary::Coalesced,
            Kernel::HashCapsCoalesced => ShaderLibrary::Coalesced,
            Kernel::HashTreeLevelCoalescedInstrumented => ShaderLibrary::Coalesced,
        }
    }
}

/// A kernel compiled for the device.
#[derive(Clone, Copy, Debug, PartialEq, Eq, Structural)]
pub struct ComputePipelineState {
    pub kernel: Kernel,
    /// Threads that run in lockstep.
    pub thread_execution_width: usize,
    /// The most threads in a group.
    pub max_total_threads_per_threadgroup: usize,
}

/// The pipeline of a kernel with the limits that the device reports for it.
pub fn create_pso(
    kernel: Kernel,
    thread_execution_width: usize,
    max_total_threads_per_threadgroup: usize,
) -> (r: ComputePipelineState)
    ensures
        r.kernel == kernel,
        r.thread_execution_width == thread_execution_width,
        r.max_total_threads_per_threadgroup == max_total_threads_per_threadgroup,
{
    ComputePipelineState { kernel, thread_execution_width, max_total_threads_per_threadgroup }
}

} // verus!
