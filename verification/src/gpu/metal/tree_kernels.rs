//! What the hash kernels do to the digests, and what the launches of a tree compute.
//!
//! A tree consists of subtrees. Node `position` of level `level` in subtree `t` has, counted through
//! the whole level, the index `t * n + position`, where `n` is the number of the level's nodes in a
//! subtree.

use crate::bits;
use crate::flat;
use crate::gpu::metal::layout;
use crate::gpu::metal::pipeline::Kernel;
use crate::gpu::metal::plan::{
    self, DigestLayout, Grid, GroupSizes, Launch, Phase, Recipe, TgFlags, TreeShape, TreeUniforms,
};
use crate::gpu::metal::utils::{self, HashOut, MAX_GRID_DIM};
use vstd::arithmetic::div_mod::*;
use vstd::arithmetic::mul::*;
use vstd::arithmetic::power2::*;
use vstd::prelude::*;

verus! {

/// Leaf `index` in a buffer of leaves of `leaf_size` elements each.
pub open spec fn leaf(words: Seq<u64>, leaf_size: int, index: int) -> Seq<u64> {
    words.subrange(index * leaf_size, index * leaf_size + leaf_size)
}

/// The digest of node `index` of `level`: that of a leaf, or of a pair of nodes of the level below.
pub open spec fn node(
    words: Seq<u64>,
    leaf_size: int,
    hash: spec_fn(Seq<u64>) -> HashOut,
    compress: spec_fn(HashOut, HashOut) -> HashOut,
    level: nat,
    index: int,
) -> HashOut
    decreases level,
{
    if level == 0 {
        hash(leaf(words, leaf_size, index))
    } else {
        let below = (level - 1) as nat;
        compress(
            node(words, leaf_size, hash, compress, below, 2 * index),
            node(words, leaf_size, hash, compress, below, 2 * index + 1),
        )
    }
}

/// The leaves of a subtree, as the parameters of a launch give them.
pub open spec fn subtree_leaves(u: TreeUniforms) -> int {
    match u {
        TreeUniforms::Linear(u) => u.subtree_leaves_len as int,
        TreeUniforms::Coalesced(u) => u.subtree_leaves_len as int,
        TreeUniforms::Recursive(u) => pow2(u.num_layers as nat) as int,
    }
}

/// The number of subtrees, as the parameters of a launch give it.
pub open spec fn subtrees(u: TreeUniforms) -> int {
    match u {
        TreeUniforms::Linear(u) => u.subtree_count as int,
        TreeUniforms::Coalesced(u) => u.subtree_count as int,
        TreeUniforms::Recursive(u) => u.leaf_count as int / pow2(u.num_layers as nat) as int,
    }
}

/// The elements of a leaf, as the parameters of a launch give them.
pub open spec fn leaf_size(u: TreeUniforms) -> int {
    match u {
        TreeUniforms::Linear(u) => u.leaf_size as int,
        TreeUniforms::Coalesced(u) => u.leaf_size as int,
        TreeUniforms::Recursive(u) => u.leaf_length as int,
    }
}

/// The level that a launch computes, as its parameters give it.
pub open spec fn launch_level(u: TreeUniforms) -> nat {
    match u {
        TreeUniforms::Linear(u) => u.level as nat,
        TreeUniforms::Coalesced(u) => u.level as nat,
        TreeUniforms::Recursive(u) => u.level as nat,
    }
}

/// Where a kernel stores node `position` of `level` of subtree `t`.
pub open spec fn place(u: TreeUniforms, t: int, level: nat, position: int) -> int {
    match u {
        TreeUniforms::Linear(u) => t * u.subtree_digests_len + layout::kernel_index(
            u.subtree_digests_len as int,
            u.subtree_leaves_len as int,
            level,
            position,
        ),
        TreeUniforms::Coalesced(u) => t * u.subtree_digests_len + layout::kernel_index(
            u.subtree_digests_len as int,
            u.subtree_leaves_len as int,
            level,
            position,
        ),
        TreeUniforms::Recursive(u) => t * u.tree_length + layout::node_slot(level, position),
    }
}

/// Whether a launch has a thread in column `x` and row `y`.
pub open spec fn has_thread_at(l: Launch, x: int, y: int) -> bool {
    let (columns, rows) = match l.grid {
        Grid::Groups(g) => (g.width * l.threads_per_group.width, g.height as int),
        Grid::Threads(s) => (s.width as int, s.height as int),
    };
    0 <= x < columns && 0 <= y < rows
}

/// Whether a launch has a thread with this number, where rows are numbered `grid_width` apart.
pub open spec fn has_thread(l: Launch, grid_width: int, number: int) -> bool {
    exists|x: int, y: int|
        #[trigger] has_thread_at(l, x, y) && number == y * grid_width + x
}

/// Whether the thread of node `position` of subtree `t` is launched. The level has `nodes` nodes in
/// each subtree.
pub open spec fn reaches(l: Launch, nodes: int, t: int, position: int) -> bool {
    match l.uniforms {
        TreeUniforms::Linear(u) => has_thread(l, u.grid_width as int, t * nodes + position),
        TreeUniforms::Recursive(u) => has_thread(l, u.grid_width as int, t * nodes + position),
        TreeUniforms::Coalesced(u) => if l.phase is Leaves {
            has_thread_at(l, position, t - u.dispatch_offset)
        } else {
            has_thread_at(l, position - u.dispatch_offset, t)
        },
    }
}

/// Whether a kernel computes the first inner level together with the leaves.
pub open spec fn is_fused(kernel: Kernel) -> bool {
    kernel is HashLeavesAndLevel1LinearThreadgroup
}

/// Whether `position` and `t` denote a node of `level`.
pub open spec fn in_level(u: TreeUniforms, level: nat, t: int, position: int) -> bool {
    &&& 0 <= t < subtrees(u)
    &&& 0 <= position < subtree_leaves(u) / pow2(level) as int
}

/// Whether `level` lies below the root. The root has no place among the digests: it is part of the cap.
pub open spec fn below_root(u: TreeUniforms, level: nat) -> bool {
    subtree_leaves(u) / pow2(level) as int >= 2
}

/// Whether `after` has, in the level that a launch computes, what it makes of the digests `before`: the
/// nodes whose threads are launched are computed, the others left alone.
pub open spec fn computes(
    l: Launch,
    words: Seq<u64>,
    hash: spec_fn(Seq<u64>) -> HashOut,
    compress: spec_fn(HashOut, HashOut) -> HashOut,
    before: Seq<HashOut>,
    after: Seq<HashOut>,
) -> bool {
    let u = l.uniforms;
    let level = launch_level(u);
    let n = subtree_leaves(u);
    let nodes = n / pow2(level) as int;
    let width = leaf_size(u);
    &&& after.len() == before.len()
    &&& l.phase is Leaves && !is_fused(l.kernel) ==> forall|t: int, p: int|
        in_level(u, 0, t, p) ==> after[place(u, t, 0, p)] == if #[trigger] reaches(l, n, t, p) {
            hash(leaf(words, width, t * n + p))
        } else {
            before[place(u, t, 0, p)]
        }
    &&& l.phase is Leaves && is_fused(l.kernel) ==> forall|t: int, p: int|
        in_level(u, 1, t, p) && #[trigger] reaches(l, n / 2, t, p) ==> {
            let left = hash(leaf(words, width, t * n + 2 * p));
            let right = hash(leaf(words, width, t * n + 2 * p + 1));
            &&& after[place(u, t, 0, 2 * p)] == left
            &&& after[place(u, t, 0, 2 * p + 1)] == right
            &&& after[place(u, t, 1, p)] == compress(left, right)
        }
    &&& l.phase is Level ==> forall|t: int, p: int|
        in_level(u, level, t, p) ==> after[place(u, t, level, p)] == if #[trigger] reaches(
            l,
            nodes,
            t,
            p,
        ) {
            compress(
                before[place(u, t, (level - 1) as nat, 2 * p)],
                before[place(u, t, (level - 1) as nat, 2 * p + 1)],
            )
        } else {
            before[place(u, t, level, p)]
        }
}

/// Whether `after` is what a launch makes of the digests `before`: it computes its level, and leaves the
/// nodes of all other levels alone.
pub open spec fn hashes(
    l: Launch,
    words: Seq<u64>,
    hash: spec_fn(Seq<u64>) -> HashOut,
    compress: spec_fn(HashOut, HashOut) -> HashOut,
    before: Seq<HashOut>,
    after: Seq<HashOut>,
) -> bool {
    let u = l.uniforms;
    &&& computes(l, words, hash, compress, before, after)
    &&& forall|t: int, other: nat, p: int|
        in_level(u, other, t, p) && below_root(u, other) && other != launch_level(u) && !(other == 1
            && l.phase is Leaves && is_fused(l.kernel)) ==> #[trigger] after[place(u, t, other, p)]
            == before[place(u, t, other, p)]
}

/// Whether `caps` is what a launch makes of the digests: for each subtree whose thread is launched, the
/// digest of its two topmost nodes.
pub open spec fn hashes_caps(
    l: Launch,
    compress: spec_fn(HashOut, HashOut) -> HashOut,
    layers: nat,
    digests: Seq<HashOut>,
    caps: Seq<HashOut>,
) -> bool {
    let u = l.uniforms;
    &&& caps.len() == subtrees(u)
    &&& forall|t: int|
        0 <= t < subtrees(u) && #[trigger] has_thread_at(l, t, 0) ==> caps[t] == compress(
            digests[place(u, t, (layers - 1) as nat, 0)],
            digests[place(u, t, (layers - 1) as nat, 1)],
        )
}

/// Whether all nodes of `level` have their digests in place.
pub open spec fn level_done(
    u: TreeUniforms,
    words: Seq<u64>,
    width: int,
    hash: spec_fn(Seq<u64>) -> HashOut,
    compress: spec_fn(HashOut, HashOut) -> HashOut,
    digests: Seq<HashOut>,
    level: nat,
) -> bool {
    forall|t: int, p: int|
        in_level(u, level, t, p) ==> #[trigger] digests[place(u, t, level, p)] == node(
            words,
            width,
            hash,
            compress,
            level,
            t * (subtree_leaves(u) / pow2(level) as int) + p,
        )
}

/// Whether two launches work on the same tree.
pub open spec fn same_tree(a: TreeUniforms, b: TreeUniforms) -> bool {
    &&& subtree_leaves(a) == subtree_leaves(b)
    &&& subtrees(a) == subtrees(b)
    &&& forall|t: int, level: nat, p: int| #[trigger]
        place(a, t, level, p) == place(b, t, level, p)
}

/// A level has half the nodes of the level below.
pub proof fn lemma_half_level(k: nat, level: nat)
    requires
        0 < level <= k,
    ensures
        pow2(k) / pow2((level - 1) as nat) == 2 * (pow2(k) / pow2(level)),
        pow2(k) / pow2(level) == pow2((k - level) as nat),
{
    lemma_pow2_adds(level, (k - level) as nat);
    lemma_pow2_adds((level - 1) as nat, (k - level + 1) as nat);
    lemma_pow2_pos(level);
    lemma_pow2_pos((level - 1) as nat);
    lemma_pow2_unfold((k - level + 1) as nat);
    lemma_div_multiples_vanish(pow2((k - level) as nat) as int, pow2(level) as int);
    lemma_div_multiples_vanish(
        pow2((k - level + 1) as nat) as int,
        pow2((level - 1) as nat) as int,
    );
}

/// A level of a subtree with `2^k` leaves is below the root where it is not level `k`.
pub proof fn lemma_below_root(u: TreeUniforms, k: nat, level: nat)
    requires
        subtree_leaves(u) == pow2(k),
        level < k,
    ensures
        below_root(u, level),
{
    lemma_half_level(k, level + 1);
    lemma_pow2_pos((k - level - 1) as nat);
}

/// A launch leaves the levels alone that it does not compute.
pub proof fn lemma_kept(
    l: Launch,
    u: TreeUniforms,
    words: Seq<u64>,
    width: int,
    hash: spec_fn(Seq<u64>) -> HashOut,
    compress: spec_fn(HashOut, HashOut) -> HashOut,
    before: Seq<HashOut>,
    after: Seq<HashOut>,
    level: nat,
)
    requires
        same_tree(l.uniforms, u),
        hashes(l, words, hash, compress, before, after),
        level != launch_level(l.uniforms),
        !(l.phase is Leaves),
        below_root(u, level),
        level_done(u, words, width, hash, compress, before, level),
    ensures
        level_done(u, words, width, hash, compress, after, level),
{
    assert forall|t: int, p: int| in_level(u, level, t, p) implies #[trigger] after[place(
        u,
        t,
        level,
        p,
    )] == node(
        words,
        width,
        hash,
        compress,
        level,
        t * (subtree_leaves(u) / pow2(level) as int) + p,
    ) by {
        assert(in_level(l.uniforms, level, t, p));
        assert(place(l.uniforms, t, level, p) == place(u, t, level, p));
        assert(after[place(l.uniforms, t, level, p)] == before[place(l.uniforms, t, level, p)]);
        assert(before[place(u, t, level, p)] == node(
            words,
            width,
            hash,
            compress,
            level,
            t * (subtree_leaves(u) / pow2(level) as int) + p,
        ));
    }
}

/// A launch that reaches all nodes of a level computes it from the level below.
pub proof fn lemma_level_computed(
    l: Launch,
    u: TreeUniforms,
    k: nat,
    words: Seq<u64>,
    width: int,
    hash: spec_fn(Seq<u64>) -> HashOut,
    compress: spec_fn(HashOut, HashOut) -> HashOut,
    before: Seq<HashOut>,
    after: Seq<HashOut>,
    level: nat,
)
    requires
        same_tree(l.uniforms, u),
        subtree_leaves(u) == pow2(k),
        hashes(l, words, hash, compress, before, after),
        l.phase is Level,
        level == launch_level(l.uniforms),
        0 < level <= k,
        forall|t: int, p: int|
            in_level(u, level, t, p) ==> #[trigger] reaches(
                l,
                pow2(k) as int / pow2(level) as int,
                t,
                p,
            ),
        level_done(u, words, width, hash, compress, before, (level - 1) as nat),
    ensures
        level_done(u, words, width, hash, compress, after, level),
{
    let below = (level - 1) as nat;
    let nodes = pow2(k) as int / pow2(level) as int;
    lemma_half_level(k, level);
    assert forall|t: int, p: int| in_level(u, level, t, p) implies #[trigger] after[place(
        u,
        t,
        level,
        p,
    )] == node(words, width, hash, compress, level, t * nodes + p) by {
        assert(in_level(l.uniforms, level, t, p));
        assert(reaches(l, nodes, t, p));
        assert(place(l.uniforms, t, level, p) == place(u, t, level, p));
        assert(place(l.uniforms, t, below, 2 * p) == place(u, t, below, 2 * p));
        assert(place(l.uniforms, t, below, 2 * p + 1) == place(u, t, below, 2 * p + 1));
        assert(in_level(u, below, t, 2 * p));
        assert(in_level(u, below, t, 2 * p + 1));
        assert(t * (2 * nodes) + 2 * p == 2 * (t * nodes + p)) by (nonlinear_arith);
        assert(before[place(u, t, below, 2 * p)] == node(
            words,
            width,
            hash,
            compress,
            below,
            2 * (t * nodes + p),
        ));
        assert(before[place(u, t, below, 2 * p + 1)] == node(
            words,
            width,
            hash,
            compress,
            below,
            2 * (t * nodes + p) + 1,
        ));
    }
}

/// A launch that reaches all leaves computes their level.
pub proof fn lemma_leaves_computed(
    l: Launch,
    k: nat,
    words: Seq<u64>,
    hash: spec_fn(Seq<u64>) -> HashOut,
    compress: spec_fn(HashOut, HashOut) -> HashOut,
    before: Seq<HashOut>,
    after: Seq<HashOut>,
)
    requires
        subtree_leaves(l.uniforms) == pow2(k),
        hashes(l, words, hash, compress, before, after),
        l.phase is Leaves,
        !is_fused(l.kernel),
        forall|t: int, p: int|
            in_level(l.uniforms, 0, t, p) ==> #[trigger] reaches(l, pow2(k) as int, t, p),
    ensures
        level_done(l.uniforms, words, leaf_size(l.uniforms), hash, compress, after, 0),
{
    let u = l.uniforms;
    lemma2_to64();
    assert forall|t: int, p: int| in_level(u, 0, t, p) implies #[trigger] after[place(
        u,
        t,
        0,
        p,
    )] == node(
        words,
        leaf_size(u),
        hash,
        compress,
        0,
        t * (pow2(k) as int / pow2(0) as int) + p,
    ) by {
        assert(reaches(l, pow2(k) as int, t, p));
    }
}

/// A fused launch that reaches all nodes of the first inner level computes it and the leaves.
proof fn lemma_fused_computed(
    l: Launch,
    k: nat,
    words: Seq<u64>,
    hash: spec_fn(Seq<u64>) -> HashOut,
    compress: spec_fn(HashOut, HashOut) -> HashOut,
    before: Seq<HashOut>,
    after: Seq<HashOut>,
)
    requires
        k > 0,
        subtree_leaves(l.uniforms) == pow2(k),
        hashes(l, words, hash, compress, before, after),
        l.phase is Leaves,
        is_fused(l.kernel),
        forall|t: int, p: int|
            in_level(l.uniforms, 1, t, p) ==> #[trigger] reaches(l, pow2(k) as int / 2, t, p),
    ensures
        level_done(l.uniforms, words, leaf_size(l.uniforms), hash, compress, after, 0),
        level_done(l.uniforms, words, leaf_size(l.uniforms), hash, compress, after, 1),
{
    let u = l.uniforms;
    let width = leaf_size(u);
    let n = pow2(k) as int;
    lemma2_to64();
    lemma_half_level(k, 1);
    assert forall|t: int, p: int| in_level(u, 0, t, p) implies #[trigger] after[place(
        u,
        t,
        0,
        p,
    )] == node(words, width, hash, compress, 0, t * (n / pow2(0) as int) + p) by {
        let pair = p / 2;
        assert(in_level(u, 1, t, pair));
        assert(reaches(l, n / 2, t, pair));
        assert(p == 2 * pair || p == 2 * pair + 1);
    }
    assert forall|t: int, p: int| in_level(u, 1, t, p) implies #[trigger] after[place(
        u,
        t,
        1,
        p,
    )] == node(words, width, hash, compress, 1, t * (n / pow2(1) as int) + p) by {
        assert(reaches(l, n / 2, t, p));
        let index = t * (n / 2) + p;
        assert(2 * index == t * n + 2 * p) by (nonlinear_arith)
            requires
                index == t * (n / 2) + p,
                n == 2 * (n / 2),
        ;
        assert(node(words, width, hash, compress, 0, 2 * index) == hash(
            leaf(words, width, 2 * index),
        ));
        assert(node(words, width, hash, compress, 0, 2 * index + 1) == hash(
            leaf(words, width, 2 * index + 1),
        ));
    }
}

/// Whether the 32-bit parameters of the kernels can describe the tree and its grids.
pub open spec fn fits_device(shape: TreeShape, leaf_length: usize, sizes: GroupSizes) -> bool {
    &&& 2 * shape.leaf_count <= u32::MAX
    &&& leaf_length <= u32::MAX
    &&& 0 < sizes.leaves
    &&& sizes.leaves * MAX_GRID_DIM <= u32::MAX
    &&& 0 < sizes.level
    &&& sizes.level * MAX_GRID_DIM <= u32::MAX
    &&& 0 < sizes.caps
}

/// A grid of groups has a thread for each of `count` numbers.
pub proof fn lemma_grid_has_thread(l: Launch, count: nat, threads: nat, number: int)
    requires
        0 < threads,
        threads * MAX_GRID_DIM <= u32::MAX,
        count <= u32::MAX,
        0 <= number < count,
        l.grid == Grid::Groups(plan::group_grid(count as int, threads as int)),
        l.threads_per_group == crate::launch::MTLSize::spec_line(threads as int),
    ensures
        has_thread(l, plan::grid_row(count as int, threads as int) as int, number),
{
    let g = crate::launch::groups_for(count as int, threads as int);
    crate::launch::theorem_groups_cover(count, threads);
    assert(g <= count) by (nonlinear_arith)
        requires
            g > 0 ==> (g - 1) * threads < count,
            threads >= 1,
            count >= 0,
    ;
    plan::theorem_group_grid_covers(count, threads);
    let grid = plan::group_grid(count as int, threads as int);
    let row = grid.width * threads;
    assert(grid.width <= MAX_GRID_DIM);
    assert(0 <= row <= threads * MAX_GRID_DIM) by (nonlinear_arith)
        requires
            0 <= grid.width <= MAX_GRID_DIM,
            row == grid.width * threads,
            threads > 0,
    ;
    assert(grid.width * grid.height * threads == grid.height * row) by (nonlinear_arith)
        requires
            row == grid.width * threads,
    ;
    assert(row > 0) by (nonlinear_arith)
        requires
            grid.height * row > 0,
            row >= 0,
    ;
    assert(plan::grid_row(count as int, threads as int) == row);
    flat::lemma_flat_position(number, grid.height as int, row);
    assert(has_thread_at(l, number % row, number / row));
}

/// The launches of a tree without that of the cap.
pub open spec fn tree_body(
    shape: TreeShape,
    recipe: Recipe,
    leaf_length: usize,
    sizes: GroupSizes,
) -> Seq<Launch> {
    plan::tree_schedule(shape, recipe, leaf_length, sizes).take(
        1 + plan::level_count(shape, recipe) as int,
    )
}

/// Whether `states` are the digests before the first, between all, and after the last of `launches`.
pub open spec fn is_run(
    launches: Seq<Launch>,
    words: Seq<u64>,
    hash: spec_fn(Seq<u64>) -> HashOut,
    compress: spec_fn(HashOut, HashOut) -> HashOut,
    states: Seq<Seq<HashOut>>,
) -> bool {
    &&& states.len() == launches.len() + 1
    &&& forall|i: int|
        0 <= i < launches.len() ==> hashes(
            #[trigger] launches[i],
            words,
            hash,
            compress,
            states[i],
            states[i + 1],
        )
}

/// Whether a recipe's leaf kernel computes the first inner level exactly where the recipe says so, and
/// does so only where there is one.
pub open spec fn consistent(shape: TreeShape, recipe: Recipe) -> bool {
    &&& is_fused(recipe.leaves) == recipe.fused
    &&& recipe.fused ==> shape.num_layers > 1
}

/// The parameters of the first launch describe the tree.
proof fn lemma_first_uniforms(
    shape: TreeShape,
    recipe: Recipe,
    leaf_length: usize,
    sizes: GroupSizes,
)
    requires
        shape.valid(),
        fits_device(shape, leaf_length, sizes),
    ensures
        ({
            let u = plan::leaves_launch(shape, recipe, leaf_length, sizes).uniforms;
            &&& subtree_leaves(u) == pow2(shape.num_layers as nat)
            &&& subtrees(u) == shape.num_caps
            &&& leaf_size(u) == leaf_length
            &&& launch_level(u) == 0
        }),
        forall|level: int|
            0 <= level < shape.num_layers ==> ({
                let u = plan::leaves_launch(shape, recipe, leaf_length, sizes).uniforms;
                let v = (#[trigger] plan::level_launch(
                    shape,
                    recipe,
                    leaf_length,
                    sizes,
                    level,
                )).uniforms;
                same_tree(v, u) && launch_level(v) == level
            }),
{
    shape.lemma_bounds();
    lemma_pow2_pos(shape.num_layers as nat);
    lemma_div_multiples_vanish(shape.num_caps as int, shape.subtree_leaves_len as int);
    bits::lemma_pow2_monotonic(shape.num_layers as nat, shape.tree_height as nat);
    bits::lemma_pow2_monotonic(shape.cap_height as nat, shape.tree_height as nat);
}

/// The leaf launch computes the leaves, and a fused one the first inner level too.
proof fn lemma_first_launch(
    shape: TreeShape,
    recipe: Recipe,
    leaf_length: usize,
    sizes: GroupSizes,
    words: Seq<u64>,
    hash: spec_fn(Seq<u64>) -> HashOut,
    compress: spec_fn(HashOut, HashOut) -> HashOut,
    before: Seq<HashOut>,
    after: Seq<HashOut>,
)
    requires
        shape.valid(),
        fits_device(shape, leaf_length, sizes),
        consistent(shape, recipe),
        hashes(
            plan::leaves_launch(shape, recipe, leaf_length, sizes),
            words,
            hash,
            compress,
            before,
            after,
        ),
    ensures
        forall|level: nat|
            level < plan::start_level(recipe) ==> #[trigger] level_done(
                plan::leaves_launch(shape, recipe, leaf_length, sizes).uniforms,
                words,
                leaf_length as int,
                hash,
                compress,
                after,
                level,
            ),
{
    let l = plan::leaves_launch(shape, recipe, leaf_length, sizes);
    let k = shape.num_layers as nat;
    let n = pow2(k) as int;
    let count = plan::leaf_threads(shape, recipe) as nat;
    shape.lemma_bounds();
    lemma_first_uniforms(shape, recipe, leaf_length, sizes);
    lemma2_to64();
    lemma_half_level(k, 1);
    if recipe.fused {
        let half = n / 2;
        assert(count == half * shape.num_caps) by (nonlinear_arith)
            requires
                count == (n * shape.num_caps) / 2,
                n == 2 * half,
        ;
        assert forall|t: int, p: int| in_level(l.uniforms, 1, t, p) implies #[trigger] reaches(
            l,
            half,
            t,
            p,
        ) by {
            lemma_node_number(t, p, half, shape.num_caps as int);
            lemma_grid_has_thread(l, count, sizes.leaves as nat, t * half + p);
        }
        lemma_fused_computed(l, k, words, hash, compress, before, after);
    } else {
        assert forall|t: int, p: int| in_level(l.uniforms, 0, t, p) implies #[trigger] reaches(
            l,
            n,
            t,
            p,
        ) by {
            lemma_node_number(t, p, n, shape.num_caps as int);
            lemma_grid_has_thread(l, count, sizes.leaves as nat, t * n + p);
        }
        lemma_leaves_computed(l, k, words, hash, compress, before, after);
    }
}

/// The number of a node, counted through all subtrees, is within the level.
proof fn lemma_node_number(t: int, p: int, nodes: int, count: int)
    requires
        0 <= t < count,
        0 <= p < nodes,
    ensures
        0 <= t * nodes + p < nodes * count,
{
    assert(0 <= t * nodes && t * nodes + nodes <= nodes * count) by (nonlinear_arith)
        requires
            0 <= t,
            t + 1 <= count,
            nodes > 0,
    ;
}

/// The launch of a level reaches all of its nodes.
proof fn lemma_level_reached(
    shape: TreeShape,
    recipe: Recipe,
    leaf_length: usize,
    sizes: GroupSizes,
    level: nat,
    t: int,
    p: int,
)
    requires
        shape.valid(),
        fits_device(shape, leaf_length, sizes),
        0 < level < shape.num_layers,
        0 <= t < shape.num_caps,
        0 <= p < pow2((shape.num_layers - level) as nat),
    ensures
        reaches(
            plan::level_launch(shape, recipe, leaf_length, sizes, level as int),
            pow2(shape.num_layers as nat) as int / pow2(level) as int,
            t,
            p,
        ),
{
    let k = shape.num_layers as nat;
    let l = plan::level_launch(shape, recipe, leaf_length, sizes, level as int);
    let nodes = pow2((k - level) as nat) as int;
    shape.lemma_bounds();
    lemma_half_level(k, level);
    lemma_pow2_adds(level, (k - level) as nat);
    lemma_pow2_pos(level);
    let m = shape.num_caps as int;
    assert(shape.leaf_count == (nodes * m) * pow2(level)) by (nonlinear_arith)
        requires
            shape.leaf_count == pow2(k) * m,
            pow2(k) == pow2(level) * nodes,
    ;
    lemma_div_multiples_vanish(nodes * m, pow2(level) as int);
    lemma_mul_is_commutative(nodes * m, pow2(level) as int);
    let count = plan::level_nodes(shape, level as int) as nat;
    assert(count == nodes * m);
    lemma_node_number(t, p, nodes, m);
    assert(nodes * m <= (nodes * m) * pow2(level)) by (nonlinear_arith)
        requires
            pow2(level) >= 1,
            nodes * m >= 0,
    ;
    lemma_grid_has_thread(l, count, sizes.level as nat, t * nodes + p);
}

/// After `i` launches of inner levels, those levels and the ones below are in place.
proof fn lemma_levels(
    shape: TreeShape,
    recipe: Recipe,
    leaf_length: usize,
    sizes: GroupSizes,
    words: Seq<u64>,
    hash: spec_fn(Seq<u64>) -> HashOut,
    compress: spec_fn(HashOut, HashOut) -> HashOut,
    states: Seq<Seq<HashOut>>,
    i: int,
)
    requires
        shape.valid(),
        fits_device(shape, leaf_length, sizes),
        consistent(shape, recipe),
        is_run(tree_body(shape, recipe, leaf_length, sizes), words, hash, compress, states),
        0 <= i <= plan::level_count(shape, recipe),
    ensures
        forall|level: nat|
            level < plan::start_level(recipe) + i ==> #[trigger] level_done(
                plan::leaves_launch(shape, recipe, leaf_length, sizes).uniforms,
                words,
                leaf_length as int,
                hash,
                compress,
                states[i + 1],
                level,
            ),
    decreases i,
{
    let body = tree_body(shape, recipe, leaf_length, sizes);
    let u = plan::leaves_launch(shape, recipe, leaf_length, sizes).uniforms;
    lemma_first_uniforms(shape, recipe, leaf_length, sizes);
    assert(hashes(body[i], words, hash, compress, states[i], states[i + 1]));
    if i == 0 {
        lemma_first_launch(
            shape,
            recipe,
            leaf_length,
            sizes,
            words,
            hash,
            compress,
            states[0],
            states[1],
        );
    } else {
        let before = i - 1;
        lemma_levels(
            shape,
            recipe,
            leaf_length,
            sizes,
            words,
            hash,
            compress,
            states,
            before,
        );
        let top = (plan::start_level(recipe) + before) as nat;
        assert(states[before + 1] == states[i]);
        let l = plan::level_launch(shape, recipe, leaf_length, sizes, top as int);
        let k = shape.num_layers as nat;
        assert(body[i] == l);
        lemma_half_level(k, top);
        assert forall|t: int, p: int| in_level(u, top, t, p) implies #[trigger] reaches(
            l,
            pow2(k) as int / pow2(top) as int,
            t,
            p,
        ) by {
            lemma_level_reached(shape, recipe, leaf_length, sizes, top, t, p);
        }
        assert(level_done(
            u,
            words,
            leaf_length as int,
            hash,
            compress,
            states[i],
            (top - 1) as nat,
        ));
        lemma_level_computed(
            l,
            u,
            k,
            words,
            leaf_length as int,
            hash,
            compress,
            states[i],
            states[i + 1],
            top,
        );
        assert forall|level: nat| level < plan::start_level(recipe) + i implies #[trigger]
            level_done(
            u,
            words,
            leaf_length as int,
            hash,
            compress,
            states[i + 1],
            level,
        ) by {
            if level < top {
                assert(level_done(
                    u,
                    words,
                    leaf_length as int,
                    hash,
                    compress,
                    states[i],
                    level,
                ));
                lemma_below_root(u, k, level);
                lemma_kept(
                    l,
                    u,
                    words,
                    leaf_length as int,
                    hash,
                    compress,
                    states[i],
                    states[i + 1],
                    level,
                );
            }
        }
    }
}

/// Whether every node's digest stands at its index in the heap of its subtree.
pub open spec fn holds_heaps(
    shape: TreeShape,
    words: Seq<u64>,
    leaf_length: int,
    hash: spec_fn(Seq<u64>) -> HashOut,
    compress: spec_fn(HashOut, HashOut) -> HashOut,
    digests: Seq<HashOut>,
) -> bool {
    forall|t: int, level: nat, p: int|
        is_node(shape, t, level, p) ==> digests[t * (2 * shape.subtree_leaves_len - 1)
            + layout::linear_index(shape.num_layers as nat, level, p)] == node(
            words,
            leaf_length,
            hash,
            compress,
            level,
            t * pow2((shape.num_layers - level) as nat) + p,
        )
}

/// Whether every node's digest stands at its index in the rootless heap of its subtree.
pub open spec fn holds_rootless_heaps(
    shape: TreeShape,
    words: Seq<u64>,
    leaf_length: int,
    hash: spec_fn(Seq<u64>) -> HashOut,
    compress: spec_fn(HashOut, HashOut) -> HashOut,
    digests: Seq<HashOut>,
) -> bool {
    forall|t: int, level: nat, p: int|
        is_node(shape, t, level, p) ==> digests[t * (2 * (shape.subtree_leaves_len - 1))
            + layout::rootless_index(shape.num_layers as nat, level, p)] == node(
            words,
            leaf_length,
            hash,
            compress,
            level,
            t * pow2((shape.num_layers - level) as nat) + p,
        )
}

/// Whether every node's digest stands at its index in the recursive layout, whose subtrees take
/// `tree_length` places each.
pub open spec fn holds_recursive(
    shape: TreeShape,
    tree_length: int,
    words: Seq<u64>,
    leaf_length: int,
    hash: spec_fn(Seq<u64>) -> HashOut,
    compress: spec_fn(HashOut, HashOut) -> HashOut,
    digests: Seq<HashOut>,
) -> bool {
    forall|t: int, level: nat, p: int|
        is_node(shape, t, level, p) ==> digests[layout::digest_index(
            shape.num_layers as nat,
            tree_length,
            level,
            t * pow2((shape.num_layers - level) as nat) + p,
        )] == node(
            words,
            leaf_length,
            hash,
            compress,
            level,
            t * pow2((shape.num_layers - level) as nat) + p,
        )
}

/// Whether subtree `t` has a node `p` at `level`, below its root.
pub open spec fn is_node(shape: TreeShape, t: int, level: nat, p: int) -> bool {
    &&& 0 <= t < shape.num_caps
    &&& level < shape.num_layers
    &&& 0 <= p < pow2((shape.num_layers - level) as nat)
}

/// Whether `caps` are the digests of the subtrees' roots.
pub open spec fn are_roots(
    shape: TreeShape,
    words: Seq<u64>,
    leaf_length: int,
    hash: spec_fn(Seq<u64>) -> HashOut,
    compress: spec_fn(HashOut, HashOut) -> HashOut,
    caps: Seq<HashOut>,
) -> bool {
    caps == Seq::new(
        shape.num_caps as nat,
        |t: int| node(words, leaf_length, hash, compress, shape.num_layers as nat, t),
    )
}

/// All nodes are in place once all launches have run.
proof fn lemma_all_levels(
    shape: TreeShape,
    recipe: Recipe,
    leaf_length: usize,
    sizes: GroupSizes,
    words: Seq<u64>,
    hash: spec_fn(Seq<u64>) -> HashOut,
    compress: spec_fn(HashOut, HashOut) -> HashOut,
    states: Seq<Seq<HashOut>>,
    t: int,
    level: nat,
    p: int,
)
    requires
        shape.valid(),
        fits_device(shape, leaf_length, sizes),
        consistent(shape, recipe),
        is_run(tree_body(shape, recipe, leaf_length, sizes), words, hash, compress, states),
        is_node(shape, t, level, p),
    ensures
        states.last()[place(
            plan::leaves_launch(shape, recipe, leaf_length, sizes).uniforms,
            t,
            level,
            p,
        )] == node(
            words,
            leaf_length as int,
            hash,
            compress,
            level,
            t * pow2((shape.num_layers - level) as nat) + p,
        ),
{
    let u = plan::leaves_launch(shape, recipe, leaf_length, sizes).uniforms;
    let k = shape.num_layers as nat;
    let i = plan::level_count(shape, recipe) as int;
    lemma_levels(shape, recipe, leaf_length, sizes, words, hash, compress, states, i);
    lemma_first_uniforms(shape, recipe, leaf_length, sizes);
    assert(states[i + 1] == states.last());
    assert(level_done(u, words, leaf_length as int, hash, compress, states.last(), level));
    assert(pow2(k) as int / pow2(level) as int == pow2((k - level) as nat)) by {
        lemma2_to64();
        if level > 0 {
            lemma_half_level(k, level);
        } else {
            assert(pow2(k) as int / 1 == pow2(k));
        }
    }
    assert(in_level(u, level, t, p));
}

/// Running the launches of a tree on the linear layout, with a place for every root, leaves every
/// node's digest at its index in the heap of its subtree.
pub proof fn theorem_heaps_are_hashed(
    shape: TreeShape,
    recipe: Recipe,
    leaf_length: usize,
    sizes: GroupSizes,
    words: Seq<u64>,
    hash: spec_fn(Seq<u64>) -> HashOut,
    compress: spec_fn(HashOut, HashOut) -> HashOut,
    states: Seq<Seq<HashOut>>,
)
    requires
        shape.wf(DigestLayout::Heap),
        recipe.uniforms is Linear,
        fits_device(shape, leaf_length, sizes),
        consistent(shape, recipe),
        is_run(tree_body(shape, recipe, leaf_length, sizes), words, hash, compress, states),
    ensures
        holds_heaps(shape, words, leaf_length as int, hash, compress, states.last()),
{
    shape.lemma_bounds();
    bits::lemma_pow2_monotonic(shape.num_layers as nat, shape.tree_height as nat);
    assert forall|t: int, level: nat, p: int| is_node(shape, t, level, p) implies states.last()[t
        * (2 * shape.subtree_leaves_len - 1) + layout::linear_index(
        shape.num_layers as nat,
        level,
        p,
    )] == node(
        words,
        leaf_length as int,
        hash,
        compress,
        level,
        t * pow2((shape.num_layers - level) as nat) + p,
    ) by {
        lemma_all_levels(
            shape,
            recipe,
            leaf_length,
            sizes,
            words,
            hash,
            compress,
            states,
            t,
            level,
            p,
        );
        layout::theorem_places_select_layout(shape.num_layers as nat, level, p);
    }
}

/// Running the launches of a tree on the linear layout, without places for the roots, leaves every
/// node's digest at its index in the rootless heap of its subtree.
pub proof fn theorem_rootless_heaps_are_hashed(
    shape: TreeShape,
    recipe: Recipe,
    leaf_length: usize,
    sizes: GroupSizes,
    words: Seq<u64>,
    hash: spec_fn(Seq<u64>) -> HashOut,
    compress: spec_fn(HashOut, HashOut) -> HashOut,
    states: Seq<Seq<HashOut>>,
)
    requires
        shape.wf(DigestLayout::Rootless),
        recipe.uniforms is Linear,
        fits_device(shape, leaf_length, sizes),
        consistent(shape, recipe),
        is_run(tree_body(shape, recipe, leaf_length, sizes), words, hash, compress, states),
    ensures
        holds_rootless_heaps(shape, words, leaf_length as int, hash, compress, states.last()),
{
    shape.lemma_bounds();
    bits::lemma_pow2_monotonic(shape.num_layers as nat, shape.tree_height as nat);
    assert forall|t: int, level: nat, p: int| is_node(shape, t, level, p) implies states.last()[t
        * (2 * (shape.subtree_leaves_len - 1)) + layout::rootless_index(
        shape.num_layers as nat,
        level,
        p,
    )] == node(
        words,
        leaf_length as int,
        hash,
        compress,
        level,
        t * pow2((shape.num_layers - level) as nat) + p,
    ) by {
        lemma_all_levels(
            shape,
            recipe,
            leaf_length,
            sizes,
            words,
            hash,
            compress,
            states,
            t,
            level,
            p,
        );
        layout::theorem_places_select_layout(shape.num_layers as nat, level, p);
    }
}

/// Running the launches of a tree on the recursive layout leaves every node's digest at its index in
/// that layout.
pub proof fn theorem_recursive_layout_is_hashed(
    shape: TreeShape,
    recipe: Recipe,
    leaf_length: usize,
    sizes: GroupSizes,
    words: Seq<u64>,
    hash: spec_fn(Seq<u64>) -> HashOut,
    compress: spec_fn(HashOut, HashOut) -> HashOut,
    states: Seq<Seq<HashOut>>,
)
    requires
        shape.wf(DigestLayout::Rootless),
        recipe.uniforms is Recursive,
        fits_device(shape, leaf_length, sizes),
        consistent(shape, recipe),
        is_run(tree_body(shape, recipe, leaf_length, sizes), words, hash, compress, states),
    ensures
        holds_recursive(
            shape,
            shape.subtree_digests_len as int,
            words,
            leaf_length as int,
            hash,
            compress,
            states.last(),
        ),
{
    shape.lemma_bounds();
    bits::lemma_pow2_monotonic(shape.num_layers as nat, shape.tree_height as nat);
    let tree_length = shape.subtree_digests_len as int;
    assert forall|t: int, level: nat, p: int| is_node(shape, t, level, p) implies states.last()[
    layout::digest_index(
        shape.num_layers as nat,
        tree_length,
        level,
        t * pow2((shape.num_layers - level) as nat) + p,
    )] == node(
        words,
        leaf_length as int,
        hash,
        compress,
        level,
        t * pow2((shape.num_layers - level) as nat) + p,
    ) by {
        lemma_all_levels(
            shape,
            recipe,
            leaf_length,
            sizes,
            words,
            hash,
            compress,
            states,
            t,
            level,
            p,
        );
        flat::lemma_flat_index(t, p, pow2((shape.num_layers - level) as nat) as int);
    }
}

/// The launch of the cap leaves the digests of the subtrees' roots.
pub proof fn theorem_cap_is_hashed(
    shape: TreeShape,
    recipe: Recipe,
    leaf_length: usize,
    sizes: GroupSizes,
    words: Seq<u64>,
    hash: spec_fn(Seq<u64>) -> HashOut,
    compress: spec_fn(HashOut, HashOut) -> HashOut,
    states: Seq<Seq<HashOut>>,
    caps: Seq<HashOut>,
)
    requires
        shape.valid(),
        recipe.caps is Some,
        fits_device(shape, leaf_length, sizes),
        consistent(shape, recipe),
        is_run(tree_body(shape, recipe, leaf_length, sizes), words, hash, compress, states),
        hashes_caps(
            plan::tree_schedule(shape, recipe, leaf_length, sizes).last(),
            compress,
            shape.num_layers as nat,
            states.last(),
            caps,
        ),
    ensures
        are_roots(shape, words, leaf_length as int, hash, compress, caps),
{
    let l = plan::tree_schedule(shape, recipe, leaf_length, sizes).last();
    let u = plan::leaves_launch(shape, recipe, leaf_length, sizes).uniforms;
    let top = (shape.num_layers - 1) as nat;
    let m = shape.num_caps as int;
    let threads = sizes.caps as int;
    shape.lemma_bounds();
    lemma_first_uniforms(shape, recipe, leaf_length, sizes);
    assert(l == plan::caps_launch(shape, recipe, recipe.caps->0, leaf_length, sizes));
    assert(same_tree(l.uniforms, u));
    let g = crate::launch::groups_for(m, threads);
    crate::launch::theorem_groups_cover(m as nat, threads as nat);
    assert(g >= 1) by (nonlinear_arith)
        requires
            g * threads >= m,
            m >= 1,
            threads >= 1,
    ;
    assert(g <= m) by (nonlinear_arith)
        requires
            (g - 1) * threads < m,
            threads >= 1,
            g >= 1,
    ;
    let width = if threads <= m {
        threads
    } else {
        m
    };
    assert(g * width >= m) by (nonlinear_arith)
        requires
            g * threads >= m,
            g >= 1,
            width == threads || width == m,
            m >= 1,
    ;
    lemma2_to64();
    let roots = Seq::new(
        m as nat,
        |t: int| node(words, leaf_length as int, hash, compress, shape.num_layers as nat, t),
    );
    assert forall|t: int| 0 <= t < m implies #[trigger] caps[t] == roots[t] by {
        assert(has_thread_at(l, t, 0));
        lemma_all_levels(
            shape,
            recipe,
            leaf_length,
            sizes,
            words,
            hash,
            compress,
            states,
            t,
            top,
            0,
        );
        lemma_all_levels(
            shape,
            recipe,
            leaf_length,
            sizes,
            words,
            hash,
            compress,
            states,
            t,
            top,
            1,
        );
        assert((shape.num_layers - top) as nat == 1 && pow2(1) == 2);
        assert(t * 2 == 2 * t);
        assert(roots[t] == compress(
            node(words, leaf_length as int, hash, compress, top, 2 * t),
            node(words, leaf_length as int, hash, compress, top, 2 * t + 1),
        ));
        assert(place(l.uniforms, t, top, 0) == place(u, t, top, 0));
        assert(place(l.uniforms, t, top, 1) == place(u, t, top, 1));
    }
    assert(caps =~= roots);
}

/// What the launches on the linear layout leave is, after the conversion, the recursive layout of the
/// tree, with no place but those of its nodes.
pub proof fn theorem_converted_tree(
    shape: TreeShape,
    words: Seq<u64>,
    leaf_length: int,
    hash: spec_fn(Seq<u64>) -> HashOut,
    compress: spec_fn(HashOut, HashOut) -> HashOut,
    digests: Seq<HashOut>,
)
    requires
        shape.wf(DigestLayout::Heap),
        digests.len() == shape.total_digests,
        holds_heaps(shape, words, leaf_length, hash, compress, digests),
    ensures
        holds_recursive(
            shape,
            layout::subtree_slots(shape.num_layers as nat),
            words,
            leaf_length,
            hash,
            compress,
            utils::recursive_digests(digests, shape.num_layers as nat, shape.num_caps as nat),
        ),
{
    let k = shape.num_layers as nat;
    let tree_length = layout::subtree_slots(k) as nat;
    let result = utils::recursive_digests(digests, k, shape.num_caps as nat);
    utils::theorem_conversion_is_complete(digests, k, shape.num_caps as nat);
    lemma_pow2_pos(k);
    assert forall|t: int, level: nat, p: int| is_node(shape, t, level, p) implies result[
    layout::digest_index(
        k,
        tree_length as int,
        level,
        t * pow2((k - level) as nat) + p,
    )] == node(
        words,
        leaf_length,
        hash,
        compress,
        level,
        t * pow2((k - level) as nat) + p,
    ) by {
        utils::theorem_conversion_places_nodes(
            digests,
            k,
            tree_length,
            shape.num_caps as nat,
            t,
            level,
            p,
        );
    }
}

/// The recipes in use compute the first inner level with the leaves exactly where they say so, and only
/// where there is one.
pub proof fn theorem_recipes_are_consistent(shape: TreeShape, flags: TgFlags)
    ensures
        consistent(shape, crate::gpu::metal::merkle_linear::linear_recipe()),
        consistent(shape, crate::gpu::metal::merkle_threadgroup::threadgroup_recipe()),
        consistent(
            shape,
            crate::gpu::metal::merkle_linear_threadgroup::linear_threadgroup_recipe(
                shape.num_layers as int,
                flags,
            ),
        ),
        consistent(shape, crate::hash::metal::merkle::linear_threadgroup_recipe()),
        !is_fused(crate::gpu::metal::coalesced_plan::coalesced_kernels().leaves),
{
}

/// A tree over a chunk of `2^k` leaves has the nodes of the whole tree above those leaves: node `index`
/// of `level` over chunk `c` is node `c * 2^(k-level) + index` of the whole.
pub proof fn theorem_chunk_nodes(
    words: Seq<u64>,
    leaf_size: int,
    hash: spec_fn(Seq<u64>) -> HashOut,
    compress: spec_fn(HashOut, HashOut) -> HashOut,
    k: nat,
    c: int,
    level: nat,
    index: int,
)
    requires
        0 <= leaf_size,
        0 <= c,
        (c + 1) * pow2(k) * leaf_size <= words.len(),
        level <= k,
        0 <= index < pow2((k - level) as nat),
    ensures
        node(
            words.subrange(c * pow2(k) * leaf_size, (c + 1) * pow2(k) * leaf_size),
            leaf_size,
            hash,
            compress,
            level,
            index,
        ) == node(
            words,
            leaf_size,
            hash,
            compress,
            level,
            c * pow2((k - level) as nat) + index,
        ),
    decreases level,
{
    let n = pow2(k) as int;
    let first = c * n * leaf_size;
    let end = (c + 1) * n * leaf_size;
    let chunk = words.subrange(first, end);
    if level == 0 {
        let whole_index = c * n + index;
        assert(0 <= first && first + n * leaf_size == end && index * leaf_size + leaf_size <= n
            * leaf_size && 0 <= index * leaf_size && whole_index * leaf_size == first + index
            * leaf_size) by (nonlinear_arith)
            requires
                first == c * n * leaf_size,
                end == (c + 1) * n * leaf_size,
                whole_index == c * n + index,
                0 <= c,
                0 <= leaf_size,
                0 <= index,
                index + 1 <= n,
        ;
        assert(leaf(chunk, leaf_size, index) =~= leaf(words, leaf_size, whole_index));
    } else {
        let below = (level - 1) as nat;
        let width = pow2((k - level) as nat) as int;
        lemma_pow2_unfold((k - below) as nat);
        assert(c * (2 * width) == 2 * (c * width)) by (nonlinear_arith);
        theorem_chunk_nodes(words, leaf_size, hash, compress, k, c, below, 2 * index);
        theorem_chunk_nodes(words, leaf_size, hash, compress, k, c, below, 2 * index + 1);
    }
}

} // verus!
