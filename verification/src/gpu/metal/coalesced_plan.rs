//! Launches on a grid of nodes by subtrees, whole or in chunks.

use crate::bits;
use crate::gpu::metal::pipeline::Kernel;
use crate::gpu::metal::plan::{
    self, compute_group_memory, Grid, Launch, MemoryPolicy, Phase, TreeShape, TreeUniforms,
};
use crate::gpu::metal::utils::{CoalescedUniforms, POSEIDON_CONST_SIZE};
use crate::launch::{group_count, MTLSize};
use vstd::arithmetic::div_mod::*;
use vstd::arithmetic::mul::*;
use vstd::arithmetic::power2::*;
use vstd::prelude::*;

verus! {

/// Chunk `k` of `total` items in chunks of `size`: its first item and its number of items.
pub open spec fn chunk_at(total: int, size: int, k: int) -> (usize, usize) {
    (
        (k * size) as usize,
        (if size <= total - k * size {
            size
        } else {
            total - k * size
        }) as usize,
    )
}

/// All chunks of `total` items in chunks of `size`.
pub open spec fn chunks_of(total: int, size: int) -> Seq<(usize, usize)> {
    Seq::new(crate::launch::groups_for(total, size) as nat, |k: int| chunk_at(total, size, k))
}

/// Every item is in exactly one chunk, chunk `i / size`, and chunks are not empty.
pub proof fn theorem_chunks_partition(total: nat, size: nat, k: int, i: int)
    requires
        0 < size,
        total <= usize::MAX,
        0 <= k < chunks_of(total as int, size as int).len(),
        0 <= i < total,
    ensures
        ({
            let (first, count) = chunks_of(total as int, size as int)[k];
            &&& 0 < count <= size
            &&& first + count <= total
            &&& (first <= i < first + count) <==> k == i / size as int
        }),
        0 <= i / size as int,
        i / (size as int) < chunks_of(total as int, size as int).len(),
{
    lemma_chunk_bounds(total, size, k);
    let q = i / size as int;
    lemma_fundamental_div_mod(i, size as int);
    lemma_mod_division_less_than_divisor(i, size as int);
    lemma_div_pos_is_pos(i, size as int);
    lemma_mul_is_commutative(size as int, q);
    crate::launch::theorem_groups_cover(total, size);
    let g = crate::launch::groups_for(total as int, size as int);
    assert(q < g) by (nonlinear_arith)
        requires
            q * size <= i,
            i < total,
            total <= g * size,
            size > 0,
    ;
    if k < q {
        assert(k * size + size <= q * size) by (nonlinear_arith)
            requires
                k + 1 <= q,
                size > 0,
        ;
    } else if k > q {
        assert(q * size + size <= k * size) by (nonlinear_arith)
            requires
                q + 1 <= k,
                size > 0,
        ;
    }
}

/// A chunk begins within the items.
pub proof fn lemma_chunk_bounds(total: nat, size: nat, k: int)
    requires
        0 < size,
        0 <= k < crate::launch::groups_for(total as int, size as int),
    ensures
        0 <= k * size < total,
{
    crate::launch::theorem_groups_cover(total, size);
    let g = crate::launch::groups_for(total as int, size as int);
    assert(0 <= k * size <= (g - 1) * size) by (nonlinear_arith)
        requires
            0 <= k <= g - 1,
            size > 0,
    ;
}

/// All chunks of `total` items in chunks of `size`.
pub fn chunk_ranges(total: usize, size: usize) -> (r: Vec<(usize, usize)>)
    requires
        0 < size,
        total + size - 1 <= usize::MAX,
    ensures
        r@ == chunks_of(total as int, size as int),
{
    let num_chunks: usize = group_count(total, size);
    let mut r: Vec<(usize, usize)> = Vec::with_capacity(num_chunks);
    let mut k: usize = 0;
    while k < num_chunks
        invariant
            0 < size,
            k <= num_chunks,
            num_chunks == crate::launch::groups_for(total as int, size as int),
            r@ == chunks_of(total as int, size as int).take(k as int),
        decreases num_chunks - k,
    {
        proof {
            lemma_chunk_bounds(total as nat, size as nat, k as int);
        }
        let first: usize = k * size;
        let rest: usize = total - first;
        let count: usize = if size <= rest {
            size
        } else {
            rest
        };
        r.push((first, count));
        k = k + 1;
        proof {
            assert(r@ =~= chunks_of(total as int, size as int).take(k as int));
        }
    }
    proof {
        crate::launch::theorem_groups_cover(total as nat, size as nat);
        assert(r@ =~= chunks_of(total as int, size as int));
    }
    r
}

/// The coalesced kernels of a runtime.
#[derive(Clone, Copy, Debug, PartialEq, Eq, Structural)]
pub struct CoalescedKernels {
    pub leaves: Kernel,
    pub level: Kernel,
    pub caps: Kernel,
}

/// The coalesced kernels.
pub open spec fn coalesced_kernels() -> CoalescedKernels {
    CoalescedKernels {
        leaves: Kernel::HashLeavesCoalesced,
        level: Kernel::HashTreeLevelCoalesced,
        caps: Kernel::HashCapsCoalesced,
    }
}

/// Threads in a group: for the leaves, for each inner level, and for the cap.
#[derive(Debug)]
pub struct CoalescedSizes {
    pub leaves: usize,
    pub levels: Vec<usize>,
    pub caps: usize,
}

impl CoalescedSizes {
    /// Whether there is a size for each inner level, and groups of these sizes can be laid out.
    pub open spec fn ok(&self, num_layers: int) -> bool {
        &&& plan::group_size_ok(self.leaves)
        &&& self.levels@.len() == num_layers - 1
        &&& forall|i: int|
            0 <= i < self.levels@.len() ==> plan::group_size_ok(#[trigger] self.levels@[i])
        &&& plan::group_size_ok(self.caps)
    }
}

/// The nodes of a level in one subtree.
pub open spec fn nodes_per_subtree(subtree_leaves_len: int, level: nat) -> int {
    subtree_leaves_len / pow2(level) as int
}

/// The launch that hashes the leaves of `count` subtrees from subtree `first` on.
pub open spec fn leaf_chunk_launch(
    kernel: Kernel,
    first: int,
    count: int,
    leaf_length: usize,
    digests_len: usize,
    leaves_len: usize,
    subtrees: int,
    threads: int,
) -> Launch {
    Launch {
        kernel,
        phase: Phase::Leaves,
        uniforms: TreeUniforms::Coalesced(
            CoalescedUniforms {
                level: 0,
                subtree_digests_len: digests_len as u32,
                subtree_leaves_len: leaves_len as u32,
                leaf_size: leaf_length as u32,
                leaf_count: (leaves_len * subtrees) as u32,
                subtree_count: subtrees as u32,
                nodes_per_subtree: leaves_len as u32,
                nodes_per_dispatch: (leaves_len * count) as u32,
                dispatch_offset: first as u32,
                enable_counters: 0,
            },
        ),
        flags: None,
        threadgroup_memory: Some(POSEIDON_CONST_SIZE),
        grid: Grid::Threads(MTLSize::spec_plane(leaves_len as int, count)),
        threads_per_group: MTLSize::spec_line(threads),
    }
}

/// The launch that hashes `count` nodes of `level`, from node `first` on, in each subtree.
pub open spec fn level_chunk_launch(
    kernel: Kernel,
    level: usize,
    digests_len: usize,
    leaves_len: usize,
    subtrees: int,
    count: int,
    first: int,
    threads: int,
) -> Launch {
    Launch {
        kernel,
        phase: Phase::Level,
        uniforms: TreeUniforms::Coalesced(
            CoalescedUniforms {
                level: level as u32,
                subtree_digests_len: digests_len as u32,
                subtree_leaves_len: leaves_len as u32,
                leaf_size: 0,
                leaf_count: 0,
                subtree_count: subtrees as u32,
                nodes_per_subtree: nodes_per_subtree(leaves_len as int, level as nat) as u32,
                nodes_per_dispatch: (count * subtrees) as u32,
                dispatch_offset: first as u32,
                enable_counters: 0,
            },
        ),
        flags: None,
        threadgroup_memory: plan::group_memory(MemoryPolicy::Full, Phase::Level, threads),
        grid: Grid::Threads(MTLSize::spec_plane(count, subtrees)),
        threads_per_group: MTLSize::spec_line(threads),
    }
}

/// The launch that hashes the cap.
pub open spec fn coalesced_caps_launch(
    kernel: Kernel,
    shape: TreeShape,
    leaf_length: usize,
    threads: int,
) -> Launch {
    Launch {
        kernel,
        phase: Phase::Caps,
        uniforms: TreeUniforms::Coalesced(
            CoalescedUniforms {
                level: 0,
                subtree_digests_len: shape.subtree_digests_len as u32,
                subtree_leaves_len: shape.subtree_leaves_len as u32,
                leaf_size: leaf_length as u32,
                leaf_count: shape.leaf_count as u32,
                subtree_count: shape.num_caps as u32,
                nodes_per_subtree: 1,
                nodes_per_dispatch: shape.num_caps as u32,
                dispatch_offset: 0,
                enable_counters: 0,
            },
        ),
        flags: None,
        threadgroup_memory: Some(POSEIDON_CONST_SIZE),
        grid: Grid::Threads(MTLSize::spec_line(shape.num_caps as int)),
        threads_per_group: MTLSize::spec_line(threads),
    }
}

/// The launches that hash a tree: all leaves at once, each inner level at once, and the cap.
pub open spec fn coalesced_schedule(
    shape: TreeShape,
    kernels: CoalescedKernels,
    leaf_length: usize,
    sizes: CoalescedSizes,
) -> Seq<Launch> {
    let leaves = leaf_chunk_launch(
        kernels.leaves,
        0,
        shape.num_caps as int,
        leaf_length,
        shape.subtree_digests_len,
        shape.subtree_leaves_len,
        shape.num_caps as int,
        sizes.leaves as int,
    );
    let levels = Seq::new(
        (shape.num_layers - 1) as nat,
        |i: int|
            level_chunk_launch(
                kernels.level,
                (i + 1) as usize,
                shape.subtree_digests_len,
                shape.subtree_leaves_len,
                shape.num_caps as int,
                nodes_per_subtree(shape.subtree_leaves_len as int, (i + 1) as nat),
                0,
                sizes.levels@[i] as int,
            ),
    );
    (seq![leaves] + levels).push(
        coalesced_caps_launch(kernels.caps, shape, leaf_length, sizes.caps as int),
    )
}

/// The launch that hashes the leaves of some subtrees.
pub fn encode_leaf_chunk_subtrees(
    kernel: Kernel,
    first_subtree: usize,
    subtrees_in_chunk: usize,
    leaf_length: usize,
    subtree_digests_len: usize,
    subtree_leaves_len: usize,
    total_subtrees: usize,
    threads: usize,
) -> (r: Launch)
    requires
        subtree_leaves_len * total_subtrees <= usize::MAX,
        subtrees_in_chunk <= total_subtrees,
    ensures
        r == leaf_chunk_launch(
            kernel,
            first_subtree as int,
            subtrees_in_chunk as int,
            leaf_length,
            subtree_digests_len,
            subtree_leaves_len,
            total_subtrees as int,
            threads as int,
        ),
{
    proof {
        assert(subtree_leaves_len * subtrees_in_chunk <= subtree_leaves_len * total_subtrees)
            by (nonlinear_arith)
            requires
                subtrees_in_chunk <= total_subtrees,
                subtree_leaves_len >= 0,
        ;
        lemma_mul_nonnegative(subtree_leaves_len as int, subtrees_in_chunk as int);
    }
    let total_leaf_count: usize = subtree_leaves_len * total_subtrees;
    let chunk_leaf_count: usize = subtree_leaves_len * subtrees_in_chunk;
    Launch {
        kernel,
        phase: Phase::Leaves,
        uniforms: TreeUniforms::Coalesced(
            CoalescedUniforms {
                level: 0,
                subtree_digests_len: #[verifier::truncate] (subtree_digests_len as u32),
                subtree_leaves_len: #[verifier::truncate] (subtree_leaves_len as u32),
                leaf_size: #[verifier::truncate] (leaf_length as u32),
                leaf_count: #[verifier::truncate] (total_leaf_count as u32),
                subtree_count: #[verifier::truncate] (total_subtrees as u32),
                nodes_per_subtree: #[verifier::truncate] (subtree_leaves_len as u32),
                nodes_per_dispatch: #[verifier::truncate] (chunk_leaf_count as u32),
                dispatch_offset: #[verifier::truncate] (first_subtree as u32),
                enable_counters: 0,
            },
        ),
        flags: None,
        threadgroup_memory: Some(POSEIDON_CONST_SIZE),
        grid: Grid::Threads(MTLSize::plane(subtree_leaves_len, subtrees_in_chunk)),
        threads_per_group: MTLSize::line(threads),
    }
}

/// The launch that hashes some nodes of a level in each subtree.
pub fn dispatch_level_single(
    kernel: Kernel,
    level: usize,
    subtree_digests_len: usize,
    subtree_leaves_len: usize,
    num_caps: usize,
    nodes_in_dispatch: usize,
    x_offset: usize,
    threads: usize,
) -> (r: Launch)
    requires
        level < usize::BITS,
        nodes_in_dispatch * num_caps <= usize::MAX,
        plan::group_size_ok(threads),
    ensures
        r == level_chunk_launch(
            kernel,
            level,
            subtree_digests_len,
            subtree_leaves_len,
            num_caps as int,
            nodes_in_dispatch as int,
            x_offset as int,
            threads as int,
        ),
{
    let nodes: usize = bits::shr(subtree_leaves_len, level);
    let dispatched: usize = nodes_in_dispatch * num_caps;
    Launch {
        kernel,
        phase: Phase::Level,
        uniforms: TreeUniforms::Coalesced(
            CoalescedUniforms {
                level: #[verifier::truncate] (level as u32),
                subtree_digests_len: #[verifier::truncate] (subtree_digests_len as u32),
                subtree_leaves_len: #[verifier::truncate] (subtree_leaves_len as u32),
                leaf_size: 0,
                leaf_count: 0,
                subtree_count: #[verifier::truncate] (num_caps as u32),
                nodes_per_subtree: #[verifier::truncate] (nodes as u32),
                nodes_per_dispatch: #[verifier::truncate] (dispatched as u32),
                dispatch_offset: #[verifier::truncate] (x_offset as u32),
                enable_counters: 0,
            },
        ),
        flags: None,
        threadgroup_memory: compute_group_memory(MemoryPolicy::Full, Phase::Level, threads),
        grid: Grid::Threads(MTLSize::plane(nodes_in_dispatch, num_caps)),
        threads_per_group: MTLSize::line(threads),
    }
}

/// The launches that hash a tree.
pub fn encode_coalesced(
    shape: &TreeShape,
    kernels: &CoalescedKernels,
    leaf_length: usize,
    sizes: &CoalescedSizes,
) -> (r: Vec<Launch>)
    requires
        shape.valid(),
        sizes.ok(shape.num_layers as int),
    ensures
        r@ == coalesced_schedule(*shape, *kernels, leaf_length, *sizes),
{
    proof {
        shape.lemma_bounds();
    }
    let mut launches: Vec<Launch> = Vec::with_capacity(shape.num_layers + 1);
    launches.push(
        encode_leaf_chunk_subtrees(
            kernels.leaves,
            0,
            shape.num_caps,
            leaf_length,
            shape.subtree_digests_len,
            shape.subtree_leaves_len,
            shape.num_caps,
            sizes.leaves,
        ),
    );
    let ghost first = launches@[0];
    let mut level: usize = 1;
    while level < shape.num_layers
        invariant
            1 <= level <= shape.num_layers,
            shape.num_layers < usize::BITS,
            sizes.ok(shape.num_layers as int),
            shape.subtree_leaves_len * shape.num_caps <= usize::MAX,
            launches@ == seq![first] + Seq::new(
                (level - 1) as nat,
                |i: int|
                    level_chunk_launch(
                        kernels.level,
                        (i + 1) as usize,
                        shape.subtree_digests_len,
                        shape.subtree_leaves_len,
                        shape.num_caps as int,
                        nodes_per_subtree(shape.subtree_leaves_len as int, (i + 1) as nat),
                        0,
                        sizes.levels@[i] as int,
                    ),
            ),
        decreases shape.num_layers - level,
    {
        let nodes: usize = bits::shr(shape.subtree_leaves_len, level);
        proof {
            lemma_pow2_pos(level as nat);
            lemma_div_nonincreasing(shape.subtree_leaves_len as int, pow2(level as nat) as int);
            assert(nodes * shape.num_caps <= shape.subtree_leaves_len * shape.num_caps)
                by (nonlinear_arith)
                requires
                    nodes <= shape.subtree_leaves_len,
                    shape.num_caps >= 0,
            ;
            assert(plan::group_size_ok(sizes.levels@[level - 1]));
        }
        launches.push(
            dispatch_level_single(
                kernels.level,
                level,
                shape.subtree_digests_len,
                shape.subtree_leaves_len,
                shape.num_caps,
                nodes,
                0,
                sizes.levels[level - 1],
            ),
        );
        level = level + 1;
    }
    launches.push(
        Launch {
            kernel: kernels.caps,
            phase: Phase::Caps,
            uniforms: TreeUniforms::Coalesced(
                CoalescedUniforms {
                    level: 0,
                    subtree_digests_len: #[verifier::truncate] (shape.subtree_digests_len as u32),
                    subtree_leaves_len: #[verifier::truncate] (shape.subtree_leaves_len as u32),
                    leaf_size: #[verifier::truncate] (leaf_length as u32),
                    leaf_count: #[verifier::truncate] (shape.leaf_count as u32),
                    subtree_count: #[verifier::truncate] (shape.num_caps as u32),
                    nodes_per_subtree: 1,
                    nodes_per_dispatch: #[verifier::truncate] (shape.num_caps as u32),
                    dispatch_offset: 0,
                    enable_counters: 0,
                },
            ),
            flags: None,
            threadgroup_memory: Some(POSEIDON_CONST_SIZE),
            grid: Grid::Threads(MTLSize::line(shape.num_caps)),
            threads_per_group: MTLSize::line(sizes.caps),
        },
    );
    launches
}

/// The numbers of threads that the group sizes are tuned for: the leaves of a subtree, the nodes of
/// each inner level in a subtree, and the cap.
pub fn coalesced_tuning_counts(shape: &TreeShape) -> (r: CoalescedSizes)
    requires
        shape.valid(),
    ensures
        r.leaves == shape.subtree_leaves_len,
        r.levels@.len() == shape.num_layers - 1,
        forall|i: int|
            0 <= i < r.levels@.len() ==> #[trigger] r.levels@[i] == nodes_per_subtree(
                shape.subtree_leaves_len as int,
                (i + 1) as nat,
            ),
        r.caps == shape.num_caps,
{
    let mut levels: Vec<usize> = Vec::with_capacity(shape.num_layers);
    let mut level: usize = 1;
    while level < shape.num_layers
        invariant
            1 <= level <= shape.num_layers,
            shape.num_layers < usize::BITS,
            levels@.len() == level - 1,
            forall|i: int|
                0 <= i < levels@.len() ==> #[trigger] levels@[i] == nodes_per_subtree(
                    shape.subtree_leaves_len as int,
                    (i + 1) as nat,
                ),
        decreases shape.num_layers - level,
    {
        levels.push(bits::shr(shape.subtree_leaves_len, level));
        level = level + 1;
    }
    CoalescedSizes { leaves: shape.subtree_leaves_len, levels, caps: shape.num_caps }
}

} // verus!
