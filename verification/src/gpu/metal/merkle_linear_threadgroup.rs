//! Trees in the linear layout, hashed by kernels that share memory within a thread group.

use crate::gpu::metal::buffer_pool::{self, Buffer};
use crate::gpu::metal::merkle_job::MerkleGpuJob;
use crate::gpu::metal::merkle_tree::{
    self, route_tree, Route, RoutedTree, LARGE_TREE_HEIGHT,
};
use crate::gpu::metal::pipeline::Kernel;
use crate::gpu::metal::plan::{
    DigestLayout, GroupSizes, MemoryPolicy, Recipe, TgFlags, TreeShape, UniformKind,
};
use crate::gpu::metal::runtime::MetalRuntime;
use crate::gpu::metal::work::{self, plan_tree, ClearPolicy, TreeWork};
use vstd::prelude::*;

verus! {

/// Counts the large trees of a proof.
#[derive(Clone, Copy, Debug, PartialEq, Eq, Structural)]
pub struct LargeTreeCounter {
    pub count: usize,
}

/// The count after a tree of `tree_height` levels above its leaves.
pub open spec fn counted(count: usize, tree_height: int) -> usize {
    if tree_height >= LARGE_TREE_HEIGHT {
        buffer_pool::incremented(count)
    } else {
        count
    }
}

/// Exactly the trees of `2^21` leaves and more are counted, one each.
pub proof fn theorem_counted(count: usize, tree_height: int)
    ensures
        tree_height < 21 ==> counted(count, tree_height) == count,
        tree_height >= 21 && count < usize::MAX ==> counted(count, tree_height) == count + 1,
        tree_height >= 21 && count == usize::MAX ==> counted(count, tree_height) == 0,
{
}

/// Starts counting anew.
pub fn reset_large_tree_counter(counter: &mut LargeTreeCounter)
    ensures
        final(counter).count == 0,
{
    counter.count = 0;
}

/// The large trees that were counted.
pub fn get_large_tree_count(counter: &LargeTreeCounter) -> (r: usize)
    ensures
        r == counter.count,
{
    counter.count
}

/// The kernels of the linear layout with shared memory. Where subtrees have more than one layer, the
/// leaf kernel computes the first inner level too.
pub open spec fn linear_threadgroup_recipe(num_layers: int, flags: TgFlags) -> Recipe {
    Recipe {
        leaves: if num_layers > 1 {
            Kernel::HashLeavesAndLevel1LinearThreadgroup
        } else {
            Kernel::HashLeavesLinearThreadgroup
        },
        fused: num_layers > 1,
        level: Kernel::HashTreeLevelLinearThreadgroup,
        caps: Some(Kernel::HashCapsLinearThreadgroup),
        memory: MemoryPolicy::Flagged(flags),
        uniforms: UniformKind::Linear,
    }
}

impl MetalRuntime {
    /// Routes a tree: small and large ones to the processor, the others to the device. Large ones
    /// are counted.
    pub fn new_merkle_tree_linear_threadgroup(
        counter: &mut LargeTreeCounter,
        leaves: &Vec<Vec<u64>>,
        cap_height: usize,
    ) -> (r: RoutedTree)
        requires
            merkle_tree::buildable(leaves@, cap_height as int),
        ensures
            merkle_tree::is_routed(leaves@, cap_height as int, Route::Cpu, r),
            final(counter).count == counted(old(counter).count, r.tree_height as int),
    {
        let routed: RoutedTree = route_tree(leaves, cap_height, Route::Cpu);
        if routed.tree_height >= LARGE_TREE_HEIGHT {
            counter.count = counter.count.wrapping_add(1);
        }
        routed
    }

    /// The kernels for subtrees of `num_layers` layers.
    pub fn linear_threadgroup_kernels(&self, num_layers: usize, flags: &TgFlags) -> (r: Recipe)
        requires
            self.wf(),
        ensures
            r == linear_threadgroup_recipe(num_layers as int, *flags),
    {
        let fused: bool = num_layers > 1;
        Recipe {
            leaves: if fused {
                self.get_poseidon_hash_leaves_and_level1_linear_threadgroup_pipeline_state().kernel
            } else {
                self.get_poseidon_hash_leaves_linear_threadgroup_pipeline_state().kernel
            },
            fused,
            level: self.get_poseidon_hash_tree_level_linear_threadgroup_pipeline_state().kernel,
            caps: Some(self.get_poseidon_hash_caps_linear_threadgroup_pipeline_state().kernel),
            memory: MemoryPolicy::Flagged(*flags),
            uniforms: UniformKind::Linear,
        }
    }

    /// Plans a tree; buffers that the device creates are cleared.
    pub fn hash_merkle_tree_linear_threadgroup_buf_ho(
        &mut self,
        tree_height: usize,
        leaf_length: usize,
        cap_height: usize,
        flags: &TgFlags,
        sizes: &GroupSizes,
    ) -> (r: TreeWork)
        requires
            old(self).wf(),
            TreeShape::plannable(tree_height as int, cap_height as int),
            sizes.ok(),
        ensures
            final(self).wf(),
            final(self).same_pipelines(*old(self)),
            work::is_tree_work(
                &old(self).pool,
                DigestLayout::Heap,
                tree_height,
                cap_height,
                linear_threadgroup_recipe(tree_height - cap_height, *flags),
                ClearPolicy::Created,
                leaf_length,
                *sizes,
                r,
                &final(self).pool,
            ),
    {
        let recipe: Recipe = self.linear_threadgroup_kernels(tree_height - cap_height, flags);
        plan_tree(
            &mut self.pool,
            DigestLayout::Heap,
            tree_height,
            cap_height,
            &recipe,
            ClearPolicy::Created,
            leaf_length,
            sizes,
        )
    }

    /// Plans a tree whose results are fetched later; all its buffers are cleared.
    pub fn submit_merkle_tree_linear_threadgroup(
        &mut self,
        tree_height: usize,
        leaf_length: usize,
        cap_height: usize,
        flags: &TgFlags,
        sizes: &GroupSizes,
    ) -> (r: TreeWork)
        requires
            old(self).wf(),
            TreeShape::plannable(tree_height as int, cap_height as int),
            sizes.ok(),
        ensures
            final(self).wf(),
            final(self).same_pipelines(*old(self)),
            work::is_tree_work(
                &old(self).pool,
                DigestLayout::Heap,
                tree_height,
                cap_height,
                linear_threadgroup_recipe(tree_height - cap_height, *flags),
                ClearPolicy::All,
                leaf_length,
                *sizes,
                r,
                &final(self).pool,
            ),
    {
        let recipe: Recipe = self.linear_threadgroup_kernels(tree_height - cap_height, flags);
        plan_tree(
            &mut self.pool,
            DigestLayout::Heap,
            tree_height,
            cap_height,
            &recipe,
            ClearPolicy::All,
            leaf_length,
            sizes,
        )
    }

    /// The job of a submitted tree, with the buffers that its requests came to.
    pub fn submitted_job(shape: &TreeShape, digests_buffer: Buffer, caps_buffer: Buffer) -> (r:
        MerkleGpuJob)
        requires
            shape.wf(DigestLayout::Heap),
        ensures
            r.wf(),
            r.spec_digests_buffer() == digests_buffer,
            r.spec_caps_buffer() == Some(caps_buffer),
            r.spec_total_digests() == shape.total_digests,
            r.spec_num_caps() == shape.num_caps,
            r.spec_tree_height() == shape.tree_height,
            r.spec_cap_height() == shape.cap_height,
            r.spec_is_linear_layout(),
            r.finishable(),
    {
        let job: MerkleGpuJob = MerkleGpuJob::new(
            digests_buffer,
            Some(caps_buffer),
            shape.total_digests,
            shape.num_caps,
            shape.tree_height,
            shape.cap_height,
            true,
        );
        proof {
            job.lemma_heap_finishable(*shape);
        }
        job
    }
}

} // verus!
