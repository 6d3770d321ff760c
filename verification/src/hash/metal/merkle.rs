//! Trees whose digests the kernels write in their final, rootless layout.

use crate::gpu::metal::buffer_pool::Buffer;
use crate::gpu::metal::coalesced_plan::{CoalescedKernels, CoalescedSizes};
use crate::gpu::metal::merkle_coalesced::{self, plan_coalesced_tree};
use crate::gpu::metal::pipeline::Kernel;
use crate::gpu::metal::plan::{
    DigestLayout, GroupSizes, MemoryPolicy, Recipe, TreeShape, UniformKind,
};
use crate::gpu::metal::utils::HashOut;
use crate::gpu::metal::work::{self, plan_tree, return_buffers, ClearPolicy, TreeWork};
use crate::hash::metal::runtime::MetalRuntime;
use vstd::arithmetic::power2::*;
use vstd::prelude::*;

verus! {

/// The kernels of the linear layout with shared memory.
pub open spec fn linear_threadgroup_recipe() -> Recipe {
    Recipe {
        leaves: Kernel::HashLeavesLinearThreadgroup,
        fused: false,
        level: Kernel::HashTreeLevelLinearThreadgroup,
        caps: Some(Kernel::HashCapsLinearThreadgroup),
        memory: MemoryPolicy::Full,
        uniforms: UniformKind::Linear,
    }
}

impl MetalRuntime {
    /// The kernels of the linear layout with shared memory.
    pub fn linear_threadgroup_kernels(&self) -> (r: Recipe)
        requires
            self.wf(),
        ensures
            r == linear_threadgroup_recipe(),
    {
        Recipe {
            leaves: self.get_poseidon_hash_leaves_linear_threadgroup_pipeline_state().kernel,
            fused: false,
            level: self.get_poseidon_hash_tree_level_linear_threadgroup_pipeline_state().kernel,
            caps: Some(self.get_poseidon_hash_caps_linear_threadgroup_pipeline_state().kernel),
            memory: MemoryPolicy::Full,
            uniforms: UniformKind::Linear,
        }
    }

    /// Plans a tree for the kernels of the linear layout.
    pub fn hash_merkle_tree_linear_threadgroup_buf_ho(
        &mut self,
        tree_height: usize,
        leaf_length: usize,
        cap_height: usize,
        sizes: &GroupSizes,
    ) -> (r: TreeWork)
        requires
            old(self).wf(),
            TreeShape::plannable(tree_height as int, cap_height as int),
            sizes.ok(),
        ensures
            final(self).wf(),
            final(self).same_pipelines(*old(self)),
            work::is_tree_work(
                &old(self).pool,
                DigestLayout::Rootless,
                tree_height,
                cap_height,
                linear_threadgroup_recipe(),
                ClearPolicy::Created,
                leaf_length,
                *sizes,
                r,
                &final(self).pool,
            ),
    {
        let recipe: Recipe = self.linear_threadgroup_kernels();
        plan_tree(
            &mut self.pool,
            DigestLayout::Rootless,
            tree_height,
            cap_height,
            &recipe,
            ClearPolicy::Created,
            leaf_length,
            sizes,
        )
    }

    /// Plans a tree for the coalesced kernels.
    pub fn hash_merkle_tree_coalesced_buf_ho(
        &mut self,
        tree_height: usize,
        leaf_length: usize,
        cap_height: usize,
        sizes: &CoalescedSizes,
    ) -> (r: TreeWork)
        requires
            old(self).wf(),
            TreeShape::plannable(tree_height as int, cap_height as int),
            sizes.ok(tree_height - cap_height),
        ensures
            final(self).wf(),
            final(self).same_pipelines(*old(self)),
            merkle_coalesced::is_coalesced_work(
                &old(self).pool,
                DigestLayout::Rootless,
                tree_height,
                cap_height,
                leaf_length,
                *sizes,
                r,
                &final(self).pool,
            ),
    {
        let kernels: CoalescedKernels = CoalescedKernels {
            leaves: self.get_poseidon_hash_leaves_coalesced_pipeline_state().kernel,
            level: self.get_poseidon_hash_tree_level_coalesced_pipeline_state().kernel,
            caps: self.get_poseidon_hash_caps_coalesced_pipeline_state().kernel,
        };
        plan_coalesced_tree(
            &mut self.pool,
            DigestLayout::Rootless,
            tree_height,
            cap_height,
            &kernels,
            leaf_length,
            sizes,
        )
    }

    /// Takes the results of a tree over as they are and gives its buffers back.
    pub fn finish(
        &mut self,
        shape: &TreeShape,
        digests: Vec<HashOut>,
        caps: Vec<HashOut>,
        digests_buffer: Buffer,
        caps_buffer: Buffer,
    ) -> (r: (Vec<HashOut>, Vec<HashOut>))
        requires
            old(self).wf(),
            shape.wf(DigestLayout::Rootless),
            digests@.len() == shape.total_digests,
            caps@.len() == shape.num_caps,
            digests_buffer.length <= pow2((usize::BITS - 1) as nat),
            caps_buffer.length <= pow2((usize::BITS - 1) as nat),
        ensures
            final(self).wf(),
            final(self).same_pipelines(*old(self)),
            work::is_returned(&old(self).pool, digests_buffer, caps_buffer, &final(self).pool),
            r.0@ == digests@,
            r.1@ == caps@,
    {
        return_buffers(&mut self.pool, digests_buffer, caps_buffer);
        (digests, caps)
    }
}

} // verus!
