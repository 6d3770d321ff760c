//! Trees in the recursive layout, hashed by kernels that share memory within a thread group. Their
//! caps are hashed by the processor.

use crate::gpu::metal::layout;
use crate::gpu::metal::merkle_tree::{self, route_tree, Route, RoutedTree};
use crate::gpu::metal::pipeline::Kernel;
use crate::gpu::metal::plan::{
    self, DigestLayout, GroupSizes, MemoryPolicy, Recipe, TreeShape, UniformKind,
};
use crate::gpu::metal::runtime::MetalRuntime;
use crate::gpu::metal::utils::{get_node_hash_index_in_digests, HashOut};
use crate::gpu::metal::work::{self, plan_tree, ClearPolicy, TreeWork};
use vstd::arithmetic::div_mod::*;
use vstd::arithmetic::mul::*;
use vstd::arithmetic::power2::*;
use vstd::prelude::*;

verus! {

/// The kernels of the recursive layout with shared memory.
pub open spec fn threadgroup_recipe() -> Recipe {
    Recipe {
        leaves: Kernel::HashLeavesThreadgroup,
        fused: false,
        level: Kernel::HashTreeLevelThreadgroup,
        caps: None,
        memory: MemoryPolicy::Full,
        uniforms: UniformKind::Recursive,
    }
}

/// The index of the left child of cap entry `i`.
pub open spec fn cap_left_child(shape: TreeShape, i: int) -> int {
    layout::digest_index(
        shape.num_layers as nat,
        shape.subtree_digests_len as int,
        (shape.num_layers - 1) as nat,
        2 * i,
    )
}

/// The children of cap entry `i` stand in the middle of subtree `i`, next to each other.
pub proof fn theorem_cap_children(shape: TreeShape, i: int)
    requires
        shape.wf(DigestLayout::Rootless),
        0 <= i < shape.num_caps,
    ensures
        cap_left_child(shape, i) == i * shape.subtree_digests_len + shape.subtree_leaves_len - 2,
        0 <= cap_left_child(shape, i),
        cap_left_child(shape, i) + 1 < shape.total_digests,
        layout::digest_index(
            shape.num_layers as nat,
            shape.subtree_digests_len as int,
            (shape.num_layers - 1) as nat,
            2 * i + 1,
        ) == cap_left_child(shape, i) + 1,
{
    shape.lemma_bounds();
    lemma2_to64();
    let k = shape.num_layers as nat;
    let top = (k - 1) as nat;
    lemma_pow2_unfold(k);
    lemma_pow2_unfold(1);
    assert(pow2((k - top) as nat) == 2);
    let n = shape.subtree_digests_len as int;
    let m = shape.num_caps as int;
    assert(0 * pow2(top + 1) == 0);
    assert(0 <= i * n && i * n + n <= n * m) by (nonlinear_arith)
        requires
            0 <= i,
            i + 1 <= m,
            n >= 0,
    ;
}

impl MetalRuntime {
    /// Routes a tree: small ones to the processor, the others to the device.
    pub fn new_merkle_tree_threadgroup(leaves: &Vec<Vec<u64>>, cap_height: usize) -> (r: RoutedTree)
        requires
            merkle_tree::buildable(leaves@, cap_height as int),
        ensures
            merkle_tree::is_routed(leaves@, cap_height as int, Route::Device, r),
    {
        route_tree(leaves, cap_height, Route::Device)
    }

    /// The pairs of digests whose hashes are the entries of the cap.
    pub fn cap_children(digests: &Vec<HashOut>, tree_height: usize, cap_height: usize) -> (r: Vec<
        (HashOut, HashOut),
    >)
        requires
            TreeShape::plannable(tree_height as int, cap_height as int),
            digests@.len() == pow2(cap_height as nat) * layout::subtree_slots(
                (tree_height - cap_height) as nat,
            ),
        ensures
            r@.len() == pow2(cap_height as nat),
            forall|i: int|
                0 <= i < r@.len() ==> (#[trigger] r@[i]) == ({
                    let n = layout::subtree_slots((tree_height - cap_height) as nat);
                    let left = i * n + n / 2 - 1;
                    (digests@[left], digests@[left + 1])
                }),
            forall|i: int|
                0 <= i < r@.len() ==> {
                    let layers = (tree_height - cap_height) as nat;
                    let n = layout::subtree_slots(layers);
                    let top = (layers - 1) as nat;
                    &&& (#[trigger] r@[i]).0 == digests@[layout::digest_index(
                        layers,
                        n,
                        top,
                        2 * i,
                    )]
                    &&& r@[i].1 == digests@[layout::digest_index(layers, n, top, 2 * i + 1)]
                },
    {
        let shape: TreeShape = TreeShape::new(DigestLayout::Rootless, tree_height, cap_height);
        proof {
            shape.lemma_bounds();
            plan::theorem_rootless_digest_count(shape);
            lemma_mul_is_commutative(
                shape.num_caps as int,
                shape.subtree_digests_len as int,
            );
        }
        let mut pairs: Vec<(HashOut, HashOut)> = Vec::with_capacity(shape.num_caps);
        let mut i: usize = 0;
        while i < shape.num_caps
            invariant
                i <= shape.num_caps,
                shape.wf(DigestLayout::Rootless),
                shape.tree_height == tree_height,
                shape.cap_height == cap_height,
                shape.num_caps * 32 <= usize::MAX,
                digests@.len() == shape.total_digests,
                pairs@.len() == i,
                forall|j: int|
                    0 <= j < i ==> (#[trigger] pairs@[j]) == ({
                        let n = layout::subtree_slots((tree_height - cap_height) as nat);
                        let left = j * n + n / 2 - 1;
                        (digests@[left], digests@[left + 1])
                    }),
            decreases shape.num_caps - i,
        {
            proof {
                theorem_cap_children(shape, i as int);
            }
            let left: usize = get_node_hash_index_in_digests(
                shape.num_layers,
                shape.subtree_digests_len,
                shape.num_layers - 1,
                i * 2,
            );
            pairs.push((digests[left], digests[left + 1]));
            i = i + 1;
        }
        proof {
            let layers = (tree_height - cap_height) as nat;
            let n = layout::subtree_slots(layers);
            let top = (layers - 1) as nat;
            assert forall|i: int| 0 <= i < pairs@.len() implies (#[trigger] pairs@[i]).0
                == digests@[layout::digest_index(layers, n, top, 2 * i)] && pairs@[i].1
                == digests@[layout::digest_index(layers, n, top, 2 * i + 1)] by {
                theorem_cap_children(shape, i);
            }
        }
        pairs
    }

    /// Plans a tree; its buffer is cleared.
    pub fn hash_merkle_tree_threadgroup_buf_ho(
        &mut self,
        tree_height: usize,
        leaf_length: usize,
        cap_height: usize,
        sizes: &GroupSizes,
    ) -> (r: TreeWork)
        requires
            old(self).wf(),
            TreeShape::plannable(tree_height as int, cap_height as int),
            sizes.ok(),
        ensures
            final(self).wf(),
            final(self).same_pipelines(*old(self)),
            work::is_tree_work(
                &old(self).pool,
                DigestLayout::Rootless,
                tree_height,
                cap_height,
                threadgroup_recipe(),
                ClearPolicy::All,
                leaf_length,
                *sizes,
                r,
                &final(self).pool,
            ),
    {
        let recipe: Recipe = Recipe {
            leaves: self.get_poseidon_hash_leaves_threadgroup_pipeline_state().kernel,
            fused: false,
            level: self.get_poseidon_hash_tree_level_threadgroup_pipeline_state().kernel,
            caps: None,
            memory: MemoryPolicy::Full,
            uniforms: UniformKind::Recursive,
        };
        plan_tree(
            &mut self.pool,
            DigestLayout::Rootless,
            tree_height,
            cap_height,
            &recipe,
            ClearPolicy::All,
            leaf_length,
            sizes,
        )
    }
}

} // verus!
