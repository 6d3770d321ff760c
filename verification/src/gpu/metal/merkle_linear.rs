//! Trees with digests in the linear layout.

use crate::bits;
use crate::gpu::metal::allocation::{self, Allocation};
use crate::gpu::metal::buffer_pool::Buffer;
use crate::gpu::metal::layout;
use crate::gpu::metal::merkle_tree::{self, route_tree, Route, RoutedTree};
use crate::gpu::metal::pipeline::Kernel;
use crate::gpu::metal::plan::{
    self, lay_out, DigestLayout, Grid, GroupSizes, Launch,
    MemoryPolicy, Phase, Recipe, TreeShape, TreeUniforms, UniformKind,
};
use crate::gpu::metal::runtime::MetalRuntime;
use crate::gpu::metal::tree_kernels;
use crate::gpu::metal::utils::{
    self, convert_linear_to_recursive, HashOut, LinearUniforms, MAX_GRID_DIM,
};
use crate::gpu::metal::work::{self, plan_tree, return_buffers, ClearPolicy, TreeWork};
use crate::launch::MTLSize;
use vstd::arithmetic::div_mod::*;
use vstd::arithmetic::mul::*;
use vstd::arithmetic::power2::*;
use vstd::prelude::*;

verus! {

/// The kernels of the linear layout.
pub open spec fn linear_recipe() -> Recipe {
    Recipe {
        leaves: Kernel::HashLeavesLinear,
        fused: false,
        level: Kernel::HashTreeLevelLinear,
        caps: Some(Kernel::HashCapsLinear),
        memory: MemoryPolicy::Unset,
        uniforms: UniformKind::Linear,
    }
}

/// A single kernel launch: its output buffer, where in it the input goes, and which digests of it are
/// the result.
#[derive(Debug)]
pub struct KernelRun {
    pub output: Allocation,
    /// Byte offset of the input in the output buffer, where the kernel works in place.
    pub input_offset: Option<usize>,
    pub launch: Launch,
    /// Byte offset of the result in the output buffer.
    pub result_offset: usize,
    /// Digests of the result.
    pub result_len: usize,
}

/// The launch of a linear kernel over `count` threads on a single subtree.
pub open spec fn single_subtree_launch(
    kernel: Kernel,
    phase: Phase,
    level: u32,
    digests_len: int,
    leaves_len: int,
    leaf_size: int,
    count: int,
    threads: int,
) -> Launch {
    Launch {
        kernel,
        phase,
        uniforms: TreeUniforms::Linear(
            LinearUniforms {
                level,
                subtree_digests_len: digests_len as u32,
                subtree_leaves_len: leaves_len as u32,
                leaf_size: leaf_size as u32,
                leaf_count: leaves_len as u32,
                subtree_count: 1,
                grid_width: plan::grid_row(count, threads),
            },
        ),
        flags: None,
        threadgroup_memory: None,
        grid: Grid::Groups(plan::group_grid(count, threads)),
        threads_per_group: MTLSize::spec_line(threads),
    }
}

/// Hashing leaves only leaves the digest of each leaf, from the start of the buffer on.
pub proof fn theorem_leaves_only(
    leaf_count: nat,
    leaf_size: nat,
    threads: nat,
    words: Seq<u64>,
    hash: spec_fn(Seq<u64>) -> HashOut,
    compress: spec_fn(HashOut, HashOut) -> HashOut,
    before: Seq<HashOut>,
    after: Seq<HashOut>,
)
    requires
        leaf_count <= u32::MAX,
        leaf_size <= u32::MAX,
        0 < threads,
        threads * MAX_GRID_DIM <= u32::MAX,
        before.len() == leaf_count,
        tree_kernels::computes(
            single_subtree_launch(
                Kernel::HashLeavesLinear,
                Phase::Leaves,
                0,
                leaf_count as int,
                leaf_count as int,
                leaf_size as int,
                leaf_count as int,
                threads as int,
            ),
            words,
            hash,
            compress,
            before,
            after,
        ),
    ensures
        after == Seq::new(
            leaf_count,
            |i: int| hash(tree_kernels::leaf(words, leaf_size as int, i)),
        ),
{
    let l = single_subtree_launch(
        Kernel::HashLeavesLinear,
        Phase::Leaves,
        0,
        leaf_count as int,
        leaf_count as int,
        leaf_size as int,
        leaf_count as int,
        threads as int,
    );
    lemma2_to64();
    assert forall|i: int| 0 <= i < leaf_count implies after[i] == hash(
        tree_kernels::leaf(words, leaf_size as int, i),
    ) by {
        tree_kernels::lemma_grid_has_thread(l, leaf_count, threads, i);
        assert(leaf_count as int / 1 == leaf_count);
        assert(tree_kernels::in_level(l.uniforms, 0, 0, i));
        assert(tree_kernels::place(l.uniforms, 0, 0, i) == i);
        assert(tree_kernels::reaches(l, leaf_count as int, 0, i));
    }
}

/// Hashing one level only leaves, from place `node_count - 1` on, the digest of each pair of
/// children.
pub proof fn theorem_level_only(
    node_count: nat,
    threads: nat,
    children: Seq<HashOut>,
    words: Seq<u64>,
    hash: spec_fn(Seq<u64>) -> HashOut,
    compress: spec_fn(HashOut, HashOut) -> HashOut,
    before: Seq<HashOut>,
    after: Seq<HashOut>,
)
    requires
        0 < node_count,
        4 * node_count - 1 <= u32::MAX,
        0 < threads,
        threads * MAX_GRID_DIM <= u32::MAX,
        children.len() == 2 * node_count,
        before.len() == 4 * node_count - 1,
        before.subrange(2 * node_count - 1, 4 * node_count - 1) == children,
        tree_kernels::computes(
            single_subtree_launch(
                Kernel::HashTreeLevelLinear,
                Phase::Level,
                1,
                4 * node_count - 1,
                2 * node_count as int,
                8,
                node_count as int,
                threads as int,
            ),
            words,
            hash,
            compress,
            before,
            after,
        ),
    ensures
        after.len() == before.len(),
        after.subrange(node_count - 1, 2 * node_count - 1) == Seq::new(
            node_count,
            |i: int| compress(children[2 * i], children[2 * i + 1]),
        ),
{
    let l = single_subtree_launch(
        Kernel::HashTreeLevelLinear,
        Phase::Level,
        1,
        4 * node_count - 1,
        2 * node_count as int,
        8,
        node_count as int,
        threads as int,
    );
    let u = l.uniforms;
    lemma2_to64();
    let parents = after.subrange(node_count - 1, 2 * node_count - 1);
    assert forall|i: int| 0 <= i < node_count implies #[trigger] parents[i] == compress(
        children[2 * i],
        children[2 * i + 1],
    ) by {
        tree_kernels::lemma_grid_has_thread(l, node_count, threads, i);
        assert(tree_kernels::in_level(u, 1, 0, i));
        assert(tree_kernels::place(u, 0, 1, i) == node_count - 1 + i);
        assert(tree_kernels::place(u, 0, 0, 2 * i) == 2 * node_count - 1 + 2 * i);
        assert(tree_kernels::place(u, 0, 0, 2 * i + 1) == 2 * node_count - 1 + 2 * i + 1);
        assert(tree_kernels::launch_level(u) == 1);
        assert(tree_kernels::subtree_leaves(u) == 2 * node_count);
        assert(tree_kernels::subtree_leaves(u) / pow2(tree_kernels::launch_level(u)) as int
            == node_count);
        assert(tree_kernels::reaches(l, node_count as int, 0, i));
        assert(after[tree_kernels::place(u, 0, 1, i)] == compress(
            before[tree_kernels::place(u, 0, 0, 2 * i)],
            before[tree_kernels::place(u, 0, 0, 2 * i + 1)],
        ));
        assert(children[2 * i] == before[2 * node_count - 1 + 2 * i]);
        assert(children[2 * i + 1] == before[2 * node_count - 1 + 2 * i + 1]);
    }
    assert(parents =~= Seq::new(
        node_count,
        |i: int| compress(children[2 * i], children[2 * i + 1]),
    ));
}

impl MetalRuntime {
    /// Routes a tree: to the processor where it is small, to the recursive layout where it is large,
    /// and to the linear layout in between.
    pub fn new_merkle_tree_linear(leaves: &Vec<Vec<u64>>, cap_height: usize) -> (r: RoutedTree)
        requires
            merkle_tree::buildable(leaves@, cap_height as int),
        ensures
            merkle_tree::is_routed(leaves@, cap_height as int, Route::Recursive, r),
    {
        route_tree(leaves, cap_height, Route::Recursive)
    }

    /// Hashes leaves only.
    pub fn poseidon_hash_leaves_linear_only(
        &mut self,
        leaves: &Vec<u64>,
        leaf_size: usize,
        threads: usize,
    ) -> (r: KernelRun)
        requires
            old(self).wf(),
            leaf_size > 0,
            leaves@.len() > 0,
            leaves@.len() as int % leaf_size as int == 0,
            leaves@.len() as int / leaf_size as int * 64 <= pow2((usize::BITS - 1) as nat),
            plan::group_size_ok(threads),
        ensures
            final(self).wf(),
            final(self).same_pipelines(*old(self)),
            ({
                let leaf_count = leaves@.len() as int / leaf_size as int;
                &&& allocation::is_allocation(
                    &old(self).pool,
                    (leaf_count * 32) as usize,
                    r.output,
                    &final(self).pool,
                )
                &&& r.input_offset is None
                &&& r.result_offset == 0
                &&& r.result_len == leaf_count
                &&& r.launch == single_subtree_launch(
                    Kernel::HashLeavesLinear,
                    Phase::Leaves,
                    0,
                    leaf_count,
                    leaf_count,
                    leaf_size as int,
                    leaf_count,
                    threads as int,
                )
            }),
    {
        let leaf_count: usize = leaves.len() / leaf_size;
        proof {
            lemma2_to64();
            lemma2_to64_rest();
        }
        let output: Allocation = self.alloc_aligned(leaf_count * 32);
        let (grid, row) = lay_out(leaf_count, threads);
        let launch: Launch = Launch {
            kernel: self.get_poseidon_hash_leaves_linear_pipeline_state().kernel,
            phase: Phase::Leaves,
            uniforms: TreeUniforms::Linear(
                LinearUniforms {
                    level: 0,
                    subtree_digests_len: #[verifier::truncate] (leaf_count as u32),
                    subtree_leaves_len: #[verifier::truncate] (leaf_count as u32),
                    leaf_size: #[verifier::truncate] (leaf_size as u32),
                    leaf_count: #[verifier::truncate] (leaf_count as u32),
                    subtree_count: 1,
                    grid_width: row,
                },
            ),
            flags: None,
            threadgroup_memory: None,
            grid: Grid::Groups(grid),
            threads_per_group: MTLSize::line(threads),
        };
        KernelRun { output, input_offset: None, launch, result_offset: 0, result_len: leaf_count }
    }

    /// Hashes one level of parents from the digests of their children, two for each parent. The
    /// children go into the leaf places of the output buffer, and the parents come into the places of
    /// the level above.
    pub fn poseidon_hash_tree_level_linear_only(
        &mut self,
        child_digests: &Vec<u64>,
        node_count: usize,
        threads: usize,
    ) -> (r: KernelRun)
        requires
            old(self).wf(),
            node_count > 0,
            child_digests@.len() == node_count * 8,
            node_count * 128 <= pow2((usize::BITS - 1) as nat),
            plan::group_size_ok(threads),
        ensures
            final(self).wf(),
            final(self).same_pipelines(*old(self)),
            allocation::is_allocation(
                &old(self).pool,
                ((4 * node_count - 1) * 32) as usize,
                r.output,
                &final(self).pool,
            ),
            r.input_offset == Some(((2 * node_count - 1) * 32) as usize),
            r.result_offset == (node_count - 1) * 32,
            r.result_len == node_count,
            r.launch == single_subtree_launch(
                Kernel::HashTreeLevelLinear,
                Phase::Level,
                1,
                4 * node_count - 1,
                2 * node_count,
                8,
                node_count as int,
                threads as int,
            ),
    {
        proof {
            lemma2_to64();
            lemma2_to64_rest();
        }
        let subtree_leaves_len: usize = 2 * node_count;
        let subtree_digests_len: usize = 2 * subtree_leaves_len - 1;
        let output: Allocation = self.alloc_aligned(subtree_digests_len * 32);
        let (grid, row) = lay_out(node_count, threads);
        let launch: Launch = Launch {
            kernel: self.get_poseidon_hash_tree_level_linear_pipeline_state().kernel,
            phase: Phase::Level,
            uniforms: TreeUniforms::Linear(
                LinearUniforms {
                    level: 1,
                    subtree_digests_len: #[verifier::truncate] (subtree_digests_len as u32),
                    subtree_leaves_len: #[verifier::truncate] (subtree_leaves_len as u32),
                    leaf_size: 8,
                    leaf_count: #[verifier::truncate] (subtree_leaves_len as u32),
                    subtree_count: 1,
                    grid_width: row,
                },
            ),
            flags: None,
            threadgroup_memory: None,
            grid: Grid::Groups(grid),
            threads_per_group: MTLSize::line(threads),
        };
        KernelRun {
            output,
            input_offset: Some((subtree_digests_len - subtree_leaves_len) * 32),
            launch,
            result_offset: (node_count - 1) * 32,
            result_len: node_count,
        }
    }

    /// Plans a tree in the linear layout.
    pub fn hash_merkle_tree_linear_buf_ho(
        &mut self,
        tree_height: usize,
        leaf_length: usize,
        cap_height: usize,
        sizes: &GroupSizes,
    ) -> (r: TreeWork)
        requires
            old(self).wf(),
            TreeShape::plannable(tree_height as int, cap_height as int),
            sizes.ok(),
        ensures
            final(self).wf(),
            final(self).same_pipelines(*old(self)),
            work::is_tree_work(
                &old(self).pool,
                DigestLayout::Heap,
                tree_height,
                cap_height,
                linear_recipe(),
                ClearPolicy::Created,
                leaf_length,
                *sizes,
                r,
                &final(self).pool,
            ),
    {
        let recipe: Recipe = Recipe {
            leaves: self.get_poseidon_hash_leaves_linear_pipeline_state().kernel,
            fused: false,
            level: self.get_poseidon_hash_tree_level_linear_pipeline_state().kernel,
            caps: Some(self.get_poseidon_hash_caps_linear_pipeline_state().kernel),
            memory: MemoryPolicy::Unset,
            uniforms: UniformKind::Linear,
        };
        plan_tree(
            &mut self.pool,
            DigestLayout::Heap,
            tree_height,
            cap_height,
            &recipe,
            ClearPolicy::Created,
            leaf_length,
            sizes,
        )
    }

    /// Takes the results of a tree in the linear layout over and gives its buffers back.
    pub fn finish_linear(
        &mut self,
        shape: &TreeShape,
        linear_digests: &Vec<HashOut>,
        caps: Vec<HashOut>,
        digests_buffer: Buffer,
        caps_buffer: Buffer,
    ) -> (r: (Vec<HashOut>, Vec<HashOut>))
        requires
            old(self).wf(),
            shape.wf(DigestLayout::Heap),
            linear_digests@.len() == shape.total_digests,
            caps@.len() == shape.num_caps,
            digests_buffer.length <= pow2((usize::BITS - 1) as nat),
            caps_buffer.length <= pow2((usize::BITS - 1) as nat),
        ensures
            final(self).wf(),
            final(self).same_pipelines(*old(self)),
            work::is_returned(&old(self).pool, digests_buffer, caps_buffer, &final(self).pool),
            r.0@ == utils::recursive_digests(
                linear_digests@,
                shape.num_layers as nat,
                shape.num_caps as nat,
            ),
            r.1@ == caps@,
    {
        let digests: Vec<HashOut> = self.convert_linear_to_plonky2_digests(
            linear_digests,
            shape.tree_height,
            shape.cap_height,
            shape.subtree_digests_len,
            shape.subtree_leaves_len,
        );
        return_buffers(&mut self.pool, digests_buffer, caps_buffer);
        (digests, caps)
    }

    /// Digests in the recursive layout, from digests in the linear layout.
    pub fn convert_linear_to_plonky2_digests(
        &self,
        linear_digests: &Vec<HashOut>,
        tree_height: usize,
        cap_height: usize,
        subtree_digests_len: usize,
        subtree_leaves_len: usize,
    ) -> (r: Vec<HashOut>)
        requires
            TreeShape::plannable(tree_height as int, cap_height as int),
            subtree_leaves_len == pow2((tree_height - cap_height) as nat),
            subtree_digests_len == 2 * subtree_leaves_len - 1,
            linear_digests@.len() == subtree_digests_len * pow2(cap_height as nat),
        ensures
            r@ == utils::recursive_digests(
                linear_digests@,
                (tree_height - cap_height) as nat,
                pow2(cap_height as nat),
            ),
    {
        let num_caps: usize = bits::shl_one(cap_height);
        let num_layers: usize = tree_height - cap_height;
        let leaf_count: usize = bits::shl_one(tree_height);
        let ghost shape = TreeShape {
            tree_height,
            cap_height,
            leaf_count,
            num_caps,
            num_layers,
            subtree_leaves_len,
            subtree_digests_len,
            total_digests: (subtree_digests_len * num_caps) as usize,
        };
        let ghost slots = layout::subtree_slots(num_layers as nat);
        proof {
            assert(subtree_digests_len * num_caps <= usize::MAX) by {
                assert(linear_digests.len() <= usize::MAX);
            }
            shape.lemma_bounds();
            layout::theorem_digest_count(tree_height as nat, cap_height as nat);
            lemma_div_multiples_vanish(slots, num_caps as int);
            lemma_mul_is_commutative(slots, num_caps as int);
            bits::lemma_pow2_monotonic(cap_height as nat, tree_height as nat);
        }
        let total_digests: usize = (leaf_count * 2 - 1) - (num_caps * 2 - 1);
        let tree_length: usize = bits::shr(total_digests, cap_height);
        proof {
            assert(tree_length == slots);
            assert(slots * (num_caps - 1) + slots == slots * num_caps) by (nonlinear_arith);
            utils::theorem_conversion_is_complete(
                linear_digests@,
                num_layers as nat,
                num_caps as nat,
            );
        }
        convert_linear_to_recursive(linear_digests, num_layers, tree_length, num_caps)
    }
}

} // verus!
