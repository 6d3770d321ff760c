//! What the launches of a tree compute on a grid of nodes by subtrees, whole or in chunks.

use crate::bits;
use crate::gpu::metal::coalesced_plan::{self, CoalescedKernels, CoalescedSizes};
use crate::gpu::metal::layout;
use crate::gpu::metal::merkle_coalesced;
use crate::gpu::metal::pipeline::Kernel;
use crate::gpu::metal::plan::{DigestLayout, Launch, TreeShape, TreeUniforms};
use crate::gpu::metal::tree_kernels;
use crate::gpu::metal::utils::HashOut;
use vstd::arithmetic::div_mod::*;
use vstd::arithmetic::mul::*;
use vstd::arithmetic::power2::*;
use vstd::prelude::*;

verus! {

/// Whether the kernels compute leaves and levels one at a time.
pub open spec fn unfused(kernels: CoalescedKernels) -> bool {
    !tree_kernels::is_fused(kernels.leaves)
}

/// Whether the 32-bit parameters of the kernels can describe the tree.
pub open spec fn fits_device(shape: TreeShape, leaf_length: usize) -> bool {
    &&& 2 * shape.leaf_count <= u32::MAX
    &&& leaf_length <= u32::MAX
}

/// The launches of a tree without that of the cap.
pub open spec fn coalesced_body(
    shape: TreeShape,
    kernels: CoalescedKernels,
    leaf_length: usize,
    sizes: CoalescedSizes,
) -> Seq<Launch> {
    coalesced_plan::coalesced_schedule(shape, kernels, leaf_length, sizes).drop_last()
}

/// The parameters of the leaf launch.
spec fn first_uniforms(
    shape: TreeShape,
    kernels: CoalescedKernels,
    leaf_length: usize,
    sizes: CoalescedSizes,
) -> TreeUniforms {
    coalesced_plan::coalesced_schedule(shape, kernels, leaf_length, sizes)[0].uniforms
}

/// The bounds of a tree that the kernels' parameters can describe.
proof fn lemma_described(shape: TreeShape)
    requires
        shape.valid(),
        2 * shape.leaf_count <= u32::MAX,
    ensures
        shape.subtree_digests_len <= u32::MAX,
        0 < shape.subtree_leaves_len <= u32::MAX,
        0 < shape.num_caps <= u32::MAX,
{
    shape.lemma_bounds();
    bits::lemma_pow2_monotonic(shape.num_layers as nat, shape.tree_height as nat);
    bits::lemma_pow2_monotonic(shape.cap_height as nat, shape.tree_height as nat);
}

/// After the leaf launch and `i` level launches, levels up to `i` are in place.
proof fn lemma_levels(
    shape: TreeShape,
    kernels: CoalescedKernels,
    leaf_length: usize,
    sizes: CoalescedSizes,
    words: Seq<u64>,
    hash: spec_fn(Seq<u64>) -> HashOut,
    compress: spec_fn(HashOut, HashOut) -> HashOut,
    states: Seq<Seq<HashOut>>,
    i: int,
)
    requires
        shape.valid(),
        fits_device(shape, leaf_length),
        unfused(kernels),
        tree_kernels::is_run(
            coalesced_body(shape, kernels, leaf_length, sizes),
            words,
            hash,
            compress,
            states,
        ),
        0 <= i < shape.num_layers,
    ensures
        forall|level: nat|
            level <= i ==> #[trigger] tree_kernels::level_done(
                first_uniforms(shape, kernels, leaf_length, sizes),
                words,
                leaf_length as int,
                hash,
                compress,
                states[i + 1],
                level,
            ),
    decreases i,
{
    let body = coalesced_body(shape, kernels, leaf_length, sizes);
    let u = first_uniforms(shape, kernels, leaf_length, sizes);
    let l = body[i];
    let k = shape.num_layers as nat;
    lemma_described(shape);
    lemma2_to64();
    assert(tree_kernels::hashes(l, words, hash, compress, states[i], states[i + 1]));
    assert(tree_kernels::subtree_leaves(u) == pow2(k));
    assert(tree_kernels::subtrees(u) == shape.num_caps);
    if i == 0 {
        assert forall|t: int, p: int| tree_kernels::in_level(u, 0, t, p) implies #[trigger]
            tree_kernels::reaches(l, pow2(k) as int, t, p) by {
            assert(pow2(k) as int / 1 == pow2(k));
            assert(tree_kernels::has_thread_at(l, p, t));
        }
        tree_kernels::lemma_leaves_computed(l, k, words, hash, compress, states[0], states[1]);
    } else {
        let level = i as nat;
        let below = (i - 1) as nat;
        lemma_levels(
            shape,
            kernels,
            leaf_length,
            sizes,
            words,
            hash,
            compress,
            states,
            i - 1,
        );
        assert(states[i - 1 + 1] == states[i]);
        tree_kernels::lemma_half_level(k, level);
        let nodes = pow2(k) as int / pow2(level) as int;
        assert(l == coalesced_plan::level_chunk_launch(
            kernels.level,
            i as usize,
            shape.subtree_digests_len,
            shape.subtree_leaves_len,
            shape.num_caps as int,
            nodes,
            0,
            sizes.levels@[i - 1] as int,
        ));
        assert(tree_kernels::same_tree(l.uniforms, u));
        bits::lemma_pow2_monotonic((k - level) as nat, k);
        assert forall|t: int, p: int| tree_kernels::in_level(u, level, t, p) implies #[trigger]
            tree_kernels::reaches(l, nodes, t, p) by {
            assert(tree_kernels::has_thread_at(l, p, t));
        }
        assert(tree_kernels::level_done(
            u,
            words,
            leaf_length as int,
            hash,
            compress,
            states[i],
            below,
        ));
        tree_kernels::lemma_level_computed(
            l,
            u,
            k,
            words,
            leaf_length as int,
            hash,
            compress,
            states[i],
            states[i + 1],
            level,
        );
        assert forall|other: nat| other <= i implies #[trigger] tree_kernels::level_done(
            u,
            words,
            leaf_length as int,
            hash,
            compress,
            states[i + 1],
            other,
        ) by {
            if other < i {
                assert(tree_kernels::level_done(
                    u,
                    words,
                    leaf_length as int,
                    hash,
                    compress,
                    states[i],
                    other,
                ));
                tree_kernels::lemma_below_root(u, k, other);
                tree_kernels::lemma_kept(
                    l,
                    u,
                    words,
                    leaf_length as int,
                    hash,
                    compress,
                    states[i],
                    states[i + 1],
                    other,
                );
            }
        }
    }
}

/// All nodes are in place once all launches have run.
proof fn lemma_all_levels(
    shape: TreeShape,
    kernels: CoalescedKernels,
    leaf_length: usize,
    sizes: CoalescedSizes,
    words: Seq<u64>,
    hash: spec_fn(Seq<u64>) -> HashOut,
    compress: spec_fn(HashOut, HashOut) -> HashOut,
    states: Seq<Seq<HashOut>>,
    t: int,
    level: nat,
    p: int,
)
    requires
        shape.valid(),
        fits_device(shape, leaf_length),
        unfused(kernels),
        tree_kernels::is_run(
            coalesced_body(shape, kernels, leaf_length, sizes),
            words,
            hash,
            compress,
            states,
        ),
        tree_kernels::is_node(shape, t, level, p),
    ensures
        states.last()[t * shape.subtree_digests_len + layout::kernel_index(
            shape.subtree_digests_len as int,
            shape.subtree_leaves_len as int,
            level,
            p,
        )] == tree_kernels::node(
            words,
            leaf_length as int,
            hash,
            compress,
            level,
            t * pow2((shape.num_layers - level) as nat) + p,
        ),
{
    let u = first_uniforms(shape, kernels, leaf_length, sizes);
    let k = shape.num_layers as nat;
    let i = shape.num_layers - 1;
    lemma_described(shape);
    lemma_levels(shape, kernels, leaf_length, sizes, words, hash, compress, states, i);
    assert(states[i + 1] == states.last());
    assert(tree_kernels::level_done(
        u,
        words,
        leaf_length as int,
        hash,
        compress,
        states.last(),
        level,
    ));
    assert(pow2(k) as int / pow2(level) as int == pow2((k - level) as nat)) by {
        lemma2_to64();
        if level > 0 {
            tree_kernels::lemma_half_level(k, level);
        } else {
            assert(pow2(k) as int / 1 == pow2(k));
        }
    }
    assert(tree_kernels::in_level(u, level, t, p));
    let at = tree_kernels::place(u, t, level, p);
    assert(at == t * shape.subtree_digests_len + layout::kernel_index(
        shape.subtree_digests_len as int,
        shape.subtree_leaves_len as int,
        level,
        p,
    ));
    assert(states.last()[at] == states.last()[tree_kernels::place(u, t, level, p)]);
}

/// Running the coalesced launches of a tree, with a place for every root, leaves every node's digest at
/// its index in the heap of its subtree.
pub proof fn theorem_heaps_are_hashed(
    shape: TreeShape,
    kernels: CoalescedKernels,
    leaf_length: usize,
    sizes: CoalescedSizes,
    words: Seq<u64>,
    hash: spec_fn(Seq<u64>) -> HashOut,
    compress: spec_fn(HashOut, HashOut) -> HashOut,
    states: Seq<Seq<HashOut>>,
)
    requires
        shape.wf(DigestLayout::Heap),
        fits_device(shape, leaf_length),
        unfused(kernels),
        tree_kernels::is_run(
            coalesced_body(shape, kernels, leaf_length, sizes),
            words,
            hash,
            compress,
            states,
        ),
    ensures
        tree_kernels::holds_heaps(shape, words, leaf_length as int, hash, compress, states.last()),
{
    assert forall|t: int, level: nat, p: int| tree_kernels::is_node(shape, t, level, p) implies
        states.last()[t * (2 * shape.subtree_leaves_len - 1) + layout::linear_index(
        shape.num_layers as nat,
        level,
        p,
    )] == tree_kernels::node(
        words,
        leaf_length as int,
        hash,
        compress,
        level,
        t * pow2((shape.num_layers - level) as nat) + p,
    ) by {
        lemma_all_levels(
            shape,
            kernels,
            leaf_length,
            sizes,
            words,
            hash,
            compress,
            states,
            t,
            level,
            p,
        );
        layout::theorem_places_select_layout(shape.num_layers as nat, level, p);
    }
}

/// Running the coalesced launches of a tree, without places for the roots, leaves every node's digest
/// at its index in the rootless heap of its subtree.
pub proof fn theorem_rootless_heaps_are_hashed(
    shape: TreeShape,
    kernels: CoalescedKernels,
    leaf_length: usize,
    sizes: CoalescedSizes,
    words: Seq<u64>,
    hash: spec_fn(Seq<u64>) -> HashOut,
    compress: spec_fn(HashOut, HashOut) -> HashOut,
    states: Seq<Seq<HashOut>>,
)
    requires
        shape.wf(DigestLayout::Rootless),
        fits_device(shape, leaf_length),
        unfused(kernels),
        tree_kernels::is_run(
            coalesced_body(shape, kernels, leaf_length, sizes),
            words,
            hash,
            compress,
            states,
        ),
    ensures
        tree_kernels::holds_rootless_heaps(
            shape,
            words,
            leaf_length as int,
            hash,
            compress,
            states.last(),
        ),
{
    assert forall|t: int, level: nat, p: int| tree_kernels::is_node(shape, t, level, p) implies
        states.last()[t * (2 * (shape.subtree_leaves_len - 1)) + layout::rootless_index(
        shape.num_layers as nat,
        level,
        p,
    )] == tree_kernels::node(
        words,
        leaf_length as int,
        hash,
        compress,
        level,
        t * pow2((shape.num_layers - level) as nat) + p,
    ) by {
        lemma_all_levels(
            shape,
            kernels,
            leaf_length,
            sizes,
            words,
            hash,
            compress,
            states,
            t,
            level,
            p,
        );
        layout::theorem_places_select_layout(shape.num_layers as nat, level, p);
    }
}

/// The coalesced launch of the cap leaves the digests of the subtrees' roots.
pub proof fn theorem_cap_is_hashed(
    shape: TreeShape,
    kernels: CoalescedKernels,
    leaf_length: usize,
    sizes: CoalescedSizes,
    words: Seq<u64>,
    hash: spec_fn(Seq<u64>) -> HashOut,
    compress: spec_fn(HashOut, HashOut) -> HashOut,
    states: Seq<Seq<HashOut>>,
    caps: Seq<HashOut>,
)
    requires
        shape.valid(),
        fits_device(shape, leaf_length),
        unfused(kernels),
        tree_kernels::is_run(
            coalesced_body(shape, kernels, leaf_length, sizes),
            words,
            hash,
            compress,
            states,
        ),
        tree_kernels::hashes_caps(
            coalesced_plan::coalesced_schedule(shape, kernels, leaf_length, sizes).last(),
            compress,
            shape.num_layers as nat,
            states.last(),
            caps,
        ),
    ensures
        tree_kernels::are_roots(shape, words, leaf_length as int, hash, compress, caps),
{
    let l = coalesced_plan::coalesced_schedule(shape, kernels, leaf_length, sizes).last();
    let top = (shape.num_layers - 1) as nat;
    let m = shape.num_caps as int;
    lemma_described(shape);
    lemma2_to64();
    let roots = Seq::new(
        m as nat,
        |t: int|
            tree_kernels::node(
                words,
                leaf_length as int,
                hash,
                compress,
                shape.num_layers as nat,
                t,
            ),
    );
    assert forall|t: int| 0 <= t < m implies #[trigger] caps[t] == roots[t] by {
        assert(tree_kernels::has_thread_at(l, t, 0));
        lemma_all_levels(
            shape,
            kernels,
            leaf_length,
            sizes,
            words,
            hash,
            compress,
            states,
            t,
            top,
            0,
        );
        lemma_all_levels(
            shape,
            kernels,
            leaf_length,
            sizes,
            words,
            hash,
            compress,
            states,
            t,
            top,
            1,
        );
        assert((shape.num_layers - top) as nat == 1 && pow2(1) == 2);
        assert(t * 2 == 2 * t);
        assert(roots[t] == compress(
            tree_kernels::node(words, leaf_length as int, hash, compress, top, 2 * t),
            tree_kernels::node(words, leaf_length as int, hash, compress, top, 2 * t + 1),
        ));
    }
    assert(caps =~= roots);
}

/// The nodes of `level` below `limit` in each subtree have their digests in place.
spec fn level_begun(
    u: TreeUniforms,
    words: Seq<u64>,
    width: int,
    hash: spec_fn(Seq<u64>) -> HashOut,
    compress: spec_fn(HashOut, HashOut) -> HashOut,
    digests: Seq<HashOut>,
    level: nat,
    limit: int,
) -> bool {
    forall|t: int, p: int|
        tree_kernels::in_level(u, level, t, p) && p < limit ==> #[trigger] digests[
        tree_kernels::place(u, t, level, p)] == tree_kernels::node(
            words,
            width,
            hash,
            compress,
            level,
            t * (tree_kernels::subtree_leaves(u) / pow2(level) as int) + p,
        )
}

/// After `i` chunks of a level.
proof fn lemma_level_chunks(
    kernel: Kernel,
    chunk_size: nat,
    level: usize,
    digests_len: usize,
    leaves_len: usize,
    num_caps: usize,
    threads: Seq<usize>,
    k: nat,
    u: TreeUniforms,
    width: int,
    words: Seq<u64>,
    hash: spec_fn(Seq<u64>) -> HashOut,
    compress: spec_fn(HashOut, HashOut) -> HashOut,
    states: Seq<Seq<HashOut>>,
    i: int,
)
    requires
        0 < chunk_size,
        leaves_len == pow2(k),
        0 < level <= k,
        leaves_len <= u32::MAX,
        digests_len <= u32::MAX,
        num_caps <= u32::MAX,
        tree_kernels::is_run(
            merkle_coalesced::level_chunk_schedule(
                kernel,
                chunk_size as int,
                level,
                digests_len,
                leaves_len,
                num_caps,
                threads,
            ),
            words,
            hash,
            compress,
            states,
        ),
        describes(u, digests_len, leaves_len, num_caps),
        tree_kernels::level_done(u, words, width, hash, compress, states[0], (level - 1) as nat),
        0 <= i < states.len(),
    ensures
        level_begun(
            u,
            words,
            width,
            hash,
            compress,
            states[i],
            level as nat,
            i * merkle_coalesced::level_chunk_size(
                chunk_size as int,
                coalesced_plan::nodes_per_subtree(leaves_len as int, level as nat),
            ),
        ),
        forall|other: nat|
            other != level && tree_kernels::below_root(u, other) && tree_kernels::level_done(
                u,
                words,
                width,
                hash,
                compress,
                states[0],
                other,
            ) ==> #[trigger] tree_kernels::level_done(
                u,
                words,
                width,
                hash,
                compress,
                states[i],
                other,
            ),
    decreases i,
{
    let nodes = coalesced_plan::nodes_per_subtree(leaves_len as int, level as nat);
    let size = merkle_coalesced::level_chunk_size(chunk_size as int, nodes);
    tree_kernels::lemma_half_level(k, level as nat);
    lemma_pow2_pos((k - level) as nat);
    if i > 0 {
        let j = i - 1;
        lemma_level_chunks(
            kernel,
            chunk_size,
            level,
            digests_len,
            leaves_len,
            num_caps,
            threads,
            k,
            u,
            width,
            words,
            hash,
            compress,
            states,
            j,
        );
        let schedule = merkle_coalesced::level_chunk_schedule(
            kernel,
            chunk_size as int,
            level,
            digests_len,
            leaves_len,
            num_caps,
            threads,
        );
        let l = schedule[j];
        let before = states[j];
        let after = states[j + 1];
        let below = (level - 1) as nat;
        bits::lemma_exponent_fits(k);
        let (first, count) = coalesced_plan::chunks_of(nodes, size)[j];
        bits::lemma_pow2_monotonic((k - level) as nat, k);
        coalesced_plan::theorem_chunks_partition(nodes as nat, size as nat, j, 0);
        lemma_chunk_first(nodes as nat, size as nat, j);
        assert(l == coalesced_plan::level_chunk_launch(
            kernel,
            level,
            digests_len,
            leaves_len,
            num_caps as int,
            count as int,
            first as int,
            threads[j] as int,
        ));
        assert(tree_kernels::hashes(l, words, hash, compress, before, after));
        assert(tree_kernels::same_tree(l.uniforms, u));
        assert(tree_kernels::launch_level(l.uniforms) == level);
        assert(tree_kernels::level_done(u, words, width, hash, compress, before, below));
        assert(i * size == j * size + size) by (nonlinear_arith)
            requires
                i == j + 1,
        ;
        assert forall|t: int, p: int|
            tree_kernels::in_level(u, level as nat, t, p) && p < i * size implies #[trigger] after[
        tree_kernels::place(u, t, level as nat, p)] == tree_kernels::node(
            words,
            width,
            hash,
            compress,
            level as nat,
            t * nodes + p,
        ) by {
            let v = l.uniforms;
            assert(tree_kernels::in_level(v, level as nat, t, p));
            assert(tree_kernels::place(v, t, level as nat, p) == tree_kernels::place(
                u,
                t,
                level as nat,
                p,
            ));
            if p < first {
                assert(!tree_kernels::has_thread_at(l, p - first, t));
                assert(!tree_kernels::reaches(l, nodes, t, p));
                assert(before[tree_kernels::place(u, t, level as nat, p)] == tree_kernels::node(
                    words,
                    width,
                    hash,
                    compress,
                    level as nat,
                    t * nodes + p,
                ));
            } else {
                assert(tree_kernels::has_thread_at(l, p - first, t));
                assert(tree_kernels::reaches(l, nodes, t, p));
                assert(tree_kernels::place(v, t, below, 2 * p) == tree_kernels::place(
                    u,
                    t,
                    below,
                    2 * p,
                ));
                assert(tree_kernels::place(v, t, below, 2 * p + 1) == tree_kernels::place(
                    u,
                    t,
                    below,
                    2 * p + 1,
                ));
                assert(tree_kernels::in_level(u, below, t, 2 * p));
                assert(tree_kernels::in_level(u, below, t, 2 * p + 1));
                assert(t * (2 * nodes) + 2 * p == 2 * (t * nodes + p)) by (nonlinear_arith);
                assert(before[tree_kernels::place(u, t, below, 2 * p)] == tree_kernels::node(
                    words,
                    width,
                    hash,
                    compress,
                    below,
                    2 * (t * nodes + p),
                ));
                assert(before[tree_kernels::place(u, t, below, 2 * p + 1)] == tree_kernels::node(
                    words,
                    width,
                    hash,
                    compress,
                    below,
                    2 * (t * nodes + p) + 1,
                ));
            }
        }
        assert forall|other: nat|
            other != level && tree_kernels::below_root(u, other) && tree_kernels::level_done(
                u,
                words,
                width,
                hash,
                compress,
                states[0],
                other,
            ) implies #[trigger] tree_kernels::level_done(
            u,
            words,
            width,
            hash,
            compress,
            states[i],
            other,
        ) by {
            assert(tree_kernels::level_done(u, words, width, hash, compress, before, other));
            tree_kernels::lemma_kept(
                l,
                u,
                words,
                width,
                hash,
                compress,
                before,
                after,
                other,
            );
        }
    } else {
        assert(0 * size == 0) by (nonlinear_arith);
    }
}

/// Whether parameters describe subtrees of these sizes.
pub open spec fn describes(
    u: TreeUniforms,
    digests_len: usize,
    leaves_len: usize,
    num_caps: usize,
) -> bool {
    u matches TreeUniforms::Coalesced(c) && c.subtree_digests_len == digests_len
        && c.subtree_leaves_len == leaves_len && c.subtree_count == num_caps
}

/// Where a chunk begins and ends.
proof fn lemma_chunk_first(total: nat, size: nat, k: int)
    requires
        0 < size,
        total <= usize::MAX,
        0 <= k < coalesced_plan::chunks_of(total as int, size as int).len(),
    ensures
        ({
            let (first, count) = coalesced_plan::chunks_of(total as int, size as int)[k];
            &&& first == k * size
            &&& first + count == k * size + size || first + count == total
        }),
{
    coalesced_plan::lemma_chunk_bounds(total, size, k);
}

/// The launches of a level in chunks compute the whole level, and leave the other levels alone.
pub proof fn theorem_chunked_level(
    kernel: Kernel,
    chunk_size: nat,
    level: usize,
    digests_len: usize,
    leaves_len: usize,
    num_caps: usize,
    threads: Seq<usize>,
    k: nat,
    u: TreeUniforms,
    width: int,
    words: Seq<u64>,
    hash: spec_fn(Seq<u64>) -> HashOut,
    compress: spec_fn(HashOut, HashOut) -> HashOut,
    states: Seq<Seq<HashOut>>,
)
    requires
        0 < chunk_size,
        leaves_len == pow2(k),
        0 < level <= k,
        leaves_len <= u32::MAX,
        digests_len <= u32::MAX,
        num_caps <= u32::MAX,
        tree_kernels::is_run(
            merkle_coalesced::level_chunk_schedule(
                kernel,
                chunk_size as int,
                level,
                digests_len,
                leaves_len,
                num_caps,
                threads,
            ),
            words,
            hash,
            compress,
            states,
        ),
        describes(u, digests_len, leaves_len, num_caps),
        tree_kernels::level_done(u, words, width, hash, compress, states[0], (level - 1) as nat),
    ensures
        tree_kernels::level_done(u, words, width, hash, compress, states.last(), level as nat),
        forall|other: nat|
            other != level && tree_kernels::below_root(u, other) && tree_kernels::level_done(
                u,
                words,
                width,
                hash,
                compress,
                states[0],
                other,
            ) ==> #[trigger] tree_kernels::level_done(
                u,
                words,
                width,
                hash,
                compress,
                states.last(),
                other,
            ),
{
    let nodes = coalesced_plan::nodes_per_subtree(leaves_len as int, level as nat);
    let size = merkle_coalesced::level_chunk_size(chunk_size as int, nodes);
    let g = crate::launch::groups_for(nodes, size);
    tree_kernels::lemma_half_level(k, level as nat);
    lemma_pow2_pos((k - level) as nat);
    crate::launch::theorem_groups_cover(nodes as nat, size as nat);
    lemma_level_chunks(
        kernel,
        chunk_size,
        level,
        digests_len,
        leaves_len,
        num_caps,
        threads,
        k,
        u,
        width,
        words,
        hash,
        compress,
        states,
        g,
    );
    assert(states[g] == states.last());
}

/// After `i` chunks of the leaves, those of the subtrees before chunk `i` are in place.
proof fn lemma_leaf_chunks(
    kernel: Kernel,
    chunk_size: nat,
    leaf_length: usize,
    digests_len: usize,
    leaves_len: usize,
    num_caps: usize,
    threads: usize,
    k: nat,
    u: TreeUniforms,
    words: Seq<u64>,
    hash: spec_fn(Seq<u64>) -> HashOut,
    compress: spec_fn(HashOut, HashOut) -> HashOut,
    states: Seq<Seq<HashOut>>,
    i: int,
    t: int,
    p: int,
)
    requires
        !tree_kernels::is_fused(kernel),
        0 < chunk_size,
        leaves_len == pow2(k),
        leaf_length <= u32::MAX,
        leaves_len <= u32::MAX,
        digests_len <= u32::MAX,
        num_caps <= u32::MAX,
        tree_kernels::is_run(
            merkle_coalesced::leaf_chunk_schedule(
                kernel,
                chunk_size as int,
                leaf_length,
                digests_len,
                leaves_len,
                num_caps,
                threads,
            ),
            words,
            hash,
            compress,
            states,
        ),
        describes(u, digests_len, leaves_len, num_caps),
        0 <= i < states.len(),
        tree_kernels::in_level(u, 0, t, p),
        t < i * merkle_coalesced::subtrees_per_chunk(chunk_size as int, leaves_len as int),
    ensures
        states[i][tree_kernels::place(u, t, 0, p)] == hash(
            tree_kernels::leaf(words, leaf_length as int, t * leaves_len + p),
        ),
    decreases i,
{
    let size = merkle_coalesced::subtrees_per_chunk(chunk_size as int, leaves_len as int);
    let j = i - 1;
    lemma2_to64();
    assert(pow2(k) as int / 1 == pow2(k));
    assert(0 * size == 0) by (nonlinear_arith);
    assert(i > 0);
    let schedule = merkle_coalesced::leaf_chunk_schedule(
        kernel,
        chunk_size as int,
        leaf_length,
        digests_len,
        leaves_len,
        num_caps,
        threads,
    );
    let l = schedule[j];
    let (first, count) = coalesced_plan::chunks_of(num_caps as int, size)[j];
    coalesced_plan::theorem_chunks_partition(num_caps as nat, size as nat, j, t);
    lemma_chunk_first(num_caps as nat, size as nat, j);
    assert(l == coalesced_plan::leaf_chunk_launch(
        kernel,
        first as int,
        count as int,
        leaf_length,
        digests_len,
        leaves_len,
        num_caps as int,
        threads as int,
    ));
    assert(tree_kernels::hashes(l, words, hash, compress, states[j], states[j + 1]));
    assert(tree_kernels::in_level(l.uniforms, 0, t, p));
    assert(tree_kernels::place(l.uniforms, t, 0, p) == tree_kernels::place(u, t, 0, p));
    assert(i * size == j * size + size) by (nonlinear_arith)
        requires
            i == j + 1,
    ;
    if t < first {
        assert(!tree_kernels::has_thread_at(l, p, t - first));
        assert(!tree_kernels::reaches(l, leaves_len as int, t, p));
        lemma_leaf_chunks(
            kernel,
            chunk_size,
            leaf_length,
            digests_len,
            leaves_len,
            num_caps,
            threads,
            k,
            u,
            words,
            hash,
            compress,
            states,
            j,
            t,
            p,
        );
    } else {
        assert(tree_kernels::has_thread_at(l, p, t - first));
        assert(tree_kernels::reaches(l, leaves_len as int, t, p));
    }
}

/// The launches of the leaves in chunks of subtrees compute all leaves.
pub proof fn theorem_chunked_leaves(
    kernel: Kernel,
    chunk_size: nat,
    leaf_length: usize,
    digests_len: usize,
    leaves_len: usize,
    num_caps: usize,
    threads: usize,
    k: nat,
    u: TreeUniforms,
    words: Seq<u64>,
    hash: spec_fn(Seq<u64>) -> HashOut,
    compress: spec_fn(HashOut, HashOut) -> HashOut,
    states: Seq<Seq<HashOut>>,
)
    requires
        !tree_kernels::is_fused(kernel),
        0 < chunk_size,
        leaves_len == pow2(k),
        leaf_length <= u32::MAX,
        leaves_len <= u32::MAX,
        digests_len <= u32::MAX,
        num_caps <= u32::MAX,
        tree_kernels::is_run(
            merkle_coalesced::leaf_chunk_schedule(
                kernel,
                chunk_size as int,
                leaf_length,
                digests_len,
                leaves_len,
                num_caps,
                threads,
            ),
            words,
            hash,
            compress,
            states,
        ),
        describes(u, digests_len, leaves_len, num_caps),
    ensures
        tree_kernels::level_done(
            u,
            words,
            leaf_length as int,
            hash,
            compress,
            states.last(),
            0,
        ),
{
    let size = merkle_coalesced::subtrees_per_chunk(chunk_size as int, leaves_len as int);
    let g = crate::launch::groups_for(num_caps as int, size);
    crate::launch::theorem_groups_cover(num_caps as nat, size as nat);
    lemma2_to64();
    assert(pow2(k) as int / 1 == pow2(k));
    assert(states[g] == states.last());
    assert forall|t: int, p: int| tree_kernels::in_level(u, 0, t, p) implies #[trigger]
        states.last()[tree_kernels::place(u, t, 0, p)] == tree_kernels::node(
        words,
        leaf_length as int,
        hash,
        compress,
        0,
        t * (tree_kernels::subtree_leaves(u) / pow2(0) as int) + p,
    ) by {
        lemma_leaf_chunks(
            kernel,
            chunk_size,
            leaf_length,
            digests_len,
            leaves_len,
            num_caps,
            threads,
            k,
            u,
            words,
            hash,
            compress,
            states,
            g,
            t,
            p,
        );
    }
}

} // verus!
