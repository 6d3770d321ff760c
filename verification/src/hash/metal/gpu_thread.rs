//! Jobs for the thread that talks to the device, and which trees become jobs.

use crate::gpu::metal::buffer_pool::Buffer;
use crate::gpu::metal::coalesced_plan::CoalescedSizes;
use crate::gpu::metal::merkle_coalesced;
use crate::gpu::metal::merkle_tree;
use crate::gpu::metal::plan::{DigestLayout, GroupSizes, TreeShape};
use crate::gpu::metal::work::{self, ClearPolicy, TreeWork};
use crate::hash::metal::merkle;
use crate::hash::metal::runtime::MetalRuntime;
use vstd::prelude::*;

verus! {

/// The smallest height of trees that the device builds.
pub const MIN_TREE_HEIGHT: usize = 13;

/// The smallest height of trees that the coalesced kernels build.
pub const COALESCED_TREE_HEIGHT: usize = 21;

/// Who builds a tree.
#[derive(Clone, Copy, Debug, PartialEq, Eq, Structural)]
pub enum MerkleRoute {
    /// The processor.
    Cpu,
    /// The device, with the kernels of the linear layout and shared memory.
    LinearThreadgroup,
    /// The device, with the coalesced kernels.
    Coalesced,
}

/// Who builds a tree: the device where the hash function is Poseidon and the tree has inner digests
/// and at least `2^13` leaves, with the coalesced kernels from `2^21` leaves on.
pub open spec fn merkle_route(is_poseidon: bool, tree_height: int, cap_height: int) -> MerkleRoute {
    if !is_poseidon || cap_height == tree_height || tree_height < MIN_TREE_HEIGHT {
        MerkleRoute::Cpu
    } else if tree_height < COALESCED_TREE_HEIGHT {
        MerkleRoute::LinearThreadgroup
    } else {
        MerkleRoute::Coalesced
    }
}

/// Trees over other hash functions, trees that are their own cap and trees of fewer than `2^13` leaves
/// are for the processor, all others for the device, from `2^21` leaves on for its coalesced kernels.
pub proof fn theorem_merkle_routes(is_poseidon: bool, tree_height: int, cap_height: int)
    ensures
        !is_poseidon ==> merkle_route(is_poseidon, tree_height, cap_height) is Cpu,
        cap_height == tree_height ==> merkle_route(is_poseidon, tree_height, cap_height) is Cpu,
        tree_height <= 12 ==> merkle_route(is_poseidon, tree_height, cap_height) is Cpu,
        is_poseidon && cap_height != tree_height && 13 <= tree_height <= 20 ==> merkle_route(
            is_poseidon,
            tree_height,
            cap_height,
        ) is LinearThreadgroup,
        is_poseidon && cap_height != tree_height && 21 <= tree_height ==> merkle_route(
            is_poseidon,
            tree_height,
            cap_height,
        ) is Coalesced,
        merkle_route(true, tree_height, cap_height) is Cpu <==> merkle_tree::stays_on_cpu(
            tree_height,
            cap_height,
        ),
{
}

/// Who builds a tree.
pub fn route_merkle_tree(is_poseidon: bool, tree_height: usize, cap_height: usize) -> (r:
    MerkleRoute)
    ensures
        r == merkle_route(is_poseidon, tree_height as int, cap_height as int),
{
    if !is_poseidon || cap_height == tree_height || tree_height < MIN_TREE_HEIGHT {
        MerkleRoute::Cpu
    } else if tree_height < COALESCED_TREE_HEIGHT {
        MerkleRoute::LinearThreadgroup
    } else {
        MerkleRoute::Coalesced
    }
}

/// The kernels that a job is for.
#[derive(Clone, Copy, Debug, PartialEq, Eq, Structural)]
pub enum GpuJobKind {
    MerkleLinearThreadgroup,
    MerkleCoalesced,
}

/// A tree to be hashed by the device.
#[derive(Debug, PartialEq, Eq, Structural)]
pub struct GpuJob {
    pub kind: GpuJobKind,
    pub leaves_buffer: Buffer,
    pub tree_height: usize,
    pub leaf_length: usize,
    pub cap_height: usize,
}

/// Threads in a group, for either kind of job.
#[derive(Debug)]
pub enum JobSizes {
    Linear(GroupSizes),
    Coalesced(CoalescedSizes),
}

impl JobSizes {
    /// Whether the sizes are for the job and can be laid out.
    pub open spec fn ok(&self, job: &GpuJob) -> bool {
        match self {
            JobSizes::Linear(sizes) => job.kind is MerkleLinearThreadgroup && sizes.ok(),
            JobSizes::Coalesced(sizes) => job.kind is MerkleCoalesced && sizes.ok(
                job.tree_height - job.cap_height,
            ),
        }
    }
}

/// The job of hashing a tree with the kernels of the linear layout and shared memory.
pub fn dispatch_merkle_linear_threadgroup(
    leaves_buffer: Buffer,
    tree_height: usize,
    leaf_length: usize,
    cap_height: usize,
) -> (r: GpuJob)
    ensures
        r == (GpuJob {
            kind: GpuJobKind::MerkleLinearThreadgroup,
            leaves_buffer,
            tree_height,
            leaf_length,
            cap_height,
        }),
{
    GpuJob {
        kind: GpuJobKind::MerkleLinearThreadgroup,
        leaves_buffer,
        tree_height,
        leaf_length,
        cap_height,
    }
}

/// The job of hashing a tree with the coalesced kernels.
pub fn dispatch_merkle_coalesced(
    leaves_buffer: Buffer,
    tree_height: usize,
    leaf_length: usize,
    cap_height: usize,
) -> (r: GpuJob)
    ensures
        r == (GpuJob {
            kind: GpuJobKind::MerkleCoalesced,
            leaves_buffer,
            tree_height,
            leaf_length,
            cap_height,
        }),
{
    GpuJob {
        kind: GpuJobKind::MerkleCoalesced,
        leaves_buffer,
        tree_height,
        leaf_length,
        cap_height,
    }
}

/// Plans the tree of a job with the kernels that it is for.
pub fn plan_job(runtime: &mut MetalRuntime, job: &GpuJob, sizes: &JobSizes) -> (r: TreeWork)
    requires
        old(runtime).wf(),
        TreeShape::plannable(job.tree_height as int, job.cap_height as int),
        sizes.ok(job),
    ensures
        final(runtime).wf(),
        final(runtime).same_pipelines(*old(runtime)),
        match sizes {
            JobSizes::Linear(linear) => work::is_tree_work(
                &old(runtime).pool,
                DigestLayout::Rootless,
                job.tree_height,
                job.cap_height,
                merkle::linear_threadgroup_recipe(),
                ClearPolicy::Created,
                job.leaf_length,
                *linear,
                r,
                &final(runtime).pool,
            ),
            JobSizes::Coalesced(coalesced) => merkle_coalesced::is_coalesced_work(
                &old(runtime).pool,
                DigestLayout::Rootless,
                job.tree_height,
                job.cap_height,
                job.leaf_length,
                *coalesced,
                r,
                &final(runtime).pool,
            ),
        },
{
    match sizes {
        JobSizes::Linear(linear) => runtime.hash_merkle_tree_linear_threadgroup_buf_ho(
            job.tree_height,
            job.leaf_length,
            job.cap_height,
            linear,
        ),
        JobSizes::Coalesced(coalesced) => runtime.hash_merkle_tree_coalesced_buf_ho(
            job.tree_height,
            job.leaf_length,
            job.cap_height,
            coalesced,
        ),
    }
}

} // verus!
