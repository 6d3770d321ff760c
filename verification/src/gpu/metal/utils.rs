//! Kernel parameters, digest layouts and thread grids.

use crate::bits;
use crate::flat;
use crate::gpu::metal::layout;
use crate::launch::MTLSize;
use vstd::arithmetic::div_mod::*;
use vstd::arithmetic::mul::*;
use vstd::arithmetic::power2::*;
use vstd::prelude::*;

verus! {

/// Bytes of the round constants that a thread group keeps.
pub const POSEIDON_RC_SIZE: usize = 2880;

/// Bytes of the mixing matrix that a thread group keeps.
pub const POSEIDON_MDS_SIZE: usize = 96;

/// Bytes of all constants that a thread group keeps.
pub const POSEIDON_CONST_SIZE: usize = 2976;

/// The widest grid that is launched.
pub const MAX_GRID_DIM: usize = 32768;

/// A digest: four field elements.
#[derive(Clone, Copy, Debug, PartialEq, Eq)]
pub struct HashOut {
    pub elements: [u64; 4],
}

impl HashOut {
    /// The digest of four zeros.
    pub open spec fn spec_zero() -> HashOut {
        HashOut { elements: [0, 0, 0, 0] }
    }

    /// The digest of four zeros.
    pub fn zero() -> (r: HashOut)
        ensures
            r == Self::spec_zero(),
    {
        HashOut { elements: [0, 0, 0, 0] }
    }
}

impl Default for HashOut {
    fn default() -> (r: HashOut)
        ensures
            r == HashOut::spec_zero(),
    {
        HashOut::zero()
    }
}

/// Parameters of the kernels that work on the linear layout.
#[derive(Clone, Copy, Debug, PartialEq, Eq, Structural)]
pub struct LinearUniforms {
    /// Tree level to compute.
    pub level: u32,
    /// Digests in a subtree.
    pub subtree_digests_len: u32,
    /// Leaves in a subtree.
    pub subtree_leaves_len: u32,
    /// Field elements in a leaf.
    pub leaf_size: u32,
    /// Leaves in the tree.
    pub leaf_count: u32,
    /// Subtrees in the tree.
    pub subtree_count: u32,
    /// Threads in a row of the grid.
    pub grid_width: u32,
}

/// Parameters of the coalesced kernels, which run on a grid of nodes by subtrees.
#[derive(Clone, Copy, Debug, PartialEq, Eq, Structural)]
pub struct CoalescedUniforms {
    /// Tree level to compute.
    pub level: u32,
    /// Digests in a subtree.
    pub subtree_digests_len: u32,
    /// Leaves in a subtree.
    pub subtree_leaves_len: u32,
    /// Field elements in a leaf.
    pub leaf_size: u32,
    /// Leaves in the tree.
    pub leaf_count: u32,
    /// Subtrees in the tree.
    pub subtree_count: u32,
    /// Nodes of the level in a subtree.
    pub nodes_per_subtree: u32,
    /// Nodes that the launch computes.
    pub nodes_per_dispatch: u32,
    /// The first node that the launch computes.
    pub dispatch_offset: u32,
    /// Whether memory accesses are counted.
    pub enable_counters: u32,
}

/// Counts of memory accesses that an instrumented kernel leaves.
#[derive(Clone, Copy, Debug, PartialEq, Eq, Structural)]
pub struct AccessCounters {
    /// All accesses.
    pub total_accesses: u32,
    /// Accesses to consecutive addresses.
    pub sequential_accesses: u32,
}

impl Default for AccessCounters {
    fn default() -> (r: AccessCounters)
        ensures
            r.total_accesses == 0,
            r.sequential_accesses == 0,
    {
        AccessCounters { total_accesses: 0, sequential_accesses: 0 }
    }
}

/// The grid of one row, or of rows of `MAX_GRID_DIM`, that covers `count` thread groups.
pub open spec fn size_for_count(count: int) -> MTLSize {
    if count <= MAX_GRID_DIM {
        MTLSize::spec_line(count)
    } else {
        MTLSize::spec_plane(MAX_GRID_DIM as int, (count + MAX_GRID_DIM - 1) / MAX_GRID_DIM as int)
    }
}

/// The grid that covers `count` thread groups.
pub fn get_size_for_count(count: usize) -> (r: MTLSize)
    requires
        count + MAX_GRID_DIM - 1 <= usize::MAX,
    ensures
        r == size_for_count(count as int),
        r.width <= MAX_GRID_DIM,
        r.width * r.height >= count,
        r.depth == 1,
        count > 0 ==> r.width * (r.height - 1) < count,
{
    if count <= MAX_GRID_DIM {
        MTLSize::line(count)
    } else {
        MTLSize::plane(MAX_GRID_DIM, (count + (MAX_GRID_DIM - 1)) / MAX_GRID_DIM)
    }
}

/// The index, in the recursive layout, of node `index` of `level`. The subtrees have `num_layers`
/// layers and take `tree_length` places each.
pub fn get_node_hash_index_in_digests(
    num_layers: usize,
    tree_length: usize,
    level: usize,
    index: usize,
) -> (r: usize)
    requires
        level <= num_layers,
        num_layers + 1 < usize::BITS,
        layout::digest_index(num_layers as nat, tree_length as int, level as nat, index as int)
            <= usize::MAX,
    ensures
        r == layout::digest_index(
            num_layers as nat,
            tree_length as int,
            level as nat,
            index as int,
        ),
{
    let width: usize = bits::shl_one(num_layers - level);
    let tree_index: usize = index / width;
    let position: usize = index % width;
    let pair: usize = position / 2;
    let parity: usize = position % 2;
    proof {
        let above = pow2((num_layers - level) as nat) as int;
        lemma_mod_division_less_than_divisor(index as int, above);
        lemma_pow2_unfold((level + 1) as nat);
        lemma_pow2_pos(level as nat);
        lemma_pow2_adds(level as nat, (num_layers - level) as nat);
        lemma_pow2_unfold((num_layers + 1) as nat);
        let p = pow2(level as nat) as int;
        assert(0 <= pair * (2 * p) <= p * above) by (nonlinear_arith)
            requires
                0 <= 2 * pair <= above,
                p > 0,
        ;
        vstd::bits::lemma_usize_pow2_no_overflow((num_layers + 1) as nat);
        assert(p <= p * above) by (nonlinear_arith)
            requires
                above >= 1,
                p >= 1,
        ;
        lemma_mul_nonnegative(tree_index as int, tree_length as int);
        lemma_mul_nonnegative(pair as int, pow2((level + 1) as nat) as int);
        assert(2 * (pair * pow2((level + 1) as nat) + p - 1) + parity + tree_index * tree_length
            <= usize::MAX);
    }
    let siblings_index: usize = bits::shl(pair, level + 1) + (bits::shl_one(level) - 1);
    let d_index: usize = 2 * siblings_index + parity;
    d_index + tree_index * tree_length
}

/// The places that the nodes of a subtree take in the recursive layout; a subtree of one leaf takes
/// one.
pub open spec fn reached_slots(num_layers: nat) -> int {
    if num_layers == 0 {
        1
    } else {
        layout::subtree_slots(num_layers)
    }
}

/// The place in the linear layout of all subtrees of the node that stands in slot `slot` of subtree
/// `subtree` in the recursive layout.
pub open spec fn linear_source(num_layers: nat, subtree: int, slot: int) -> int {
    subtree * (2 * pow2(num_layers) - 1) + layout::linear_index(
        num_layers,
        layout::slot_level(slot),
        layout::slot_position(slot),
    )
}

/// Whether subtree `subtree` has a node, present in a linear layout of `linear_len` digests, for
/// place `i` of the recursive layout.
pub open spec fn reaches(
    num_layers: nat,
    tree_length: int,
    linear_len: int,
    subtree: int,
    i: int,
) -> bool {
    let slot = i - subtree * tree_length;
    0 <= slot < reached_slots(num_layers) && linear_source(num_layers, subtree, slot) < linear_len
}

/// What place `i` of the recursive layout holds once the first `subtrees` subtrees are converted:
/// the digest of the last of them that has a node for it, or zero.
pub open spec fn converted_at(
    linear: Seq<HashOut>,
    num_layers: nat,
    tree_length: int,
    subtrees: nat,
    i: int,
) -> HashOut
    decreases subtrees,
{
    if subtrees == 0 {
        HashOut::spec_zero()
    } else {
        let t = subtrees - 1;
        if reaches(num_layers, tree_length, linear.len() as int, t, i) {
            linear[linear_source(num_layers, t, i - t * tree_length)]
        } else {
            converted_at(linear, num_layers, tree_length, t as nat, i)
        }
    }
}

/// The recursive layout that the linear layout of `num_caps` subtrees is converted to.
pub open spec fn converted(
    linear: Seq<HashOut>,
    num_layers: nat,
    tree_length: nat,
    num_caps: nat,
) -> Seq<HashOut> {
    Seq::new(
        tree_length * num_caps,
        |i: int| converted_at(linear, num_layers, tree_length as int, num_caps, i),
    )
}

/// Whether the node in slot `slot` comes before node `position` of `level`.
spec fn before(slot: int, level: int, position: int) -> bool {
    layout::slot_level(slot) < level || (layout::slot_level(slot) == level
        && layout::slot_position(slot) < position)
}

/// What place `i` holds while subtree `t` is converted up to node `position` of `level`.
spec fn converted_partly(
    linear: Seq<HashOut>,
    num_layers: nat,
    tree_length: int,
    t: int,
    level: int,
    position: int,
    i: int,
) -> HashOut {
    let slot = i - t * tree_length;
    if reaches(num_layers, tree_length, linear.len() as int, t, i) && before(slot, level, position) {
        linear[linear_source(num_layers, t, slot)]
    } else {
        converted_at(linear, num_layers, tree_length, t as nat, i)
    }
}

/// The slots of a subtree and its nodes correspond, also for a subtree of one leaf.
proof fn lemma_slot_node(num_layers: nat, slot: int)
    requires
        0 <= slot < reached_slots(num_layers),
    ensures
        layout::slot_level(slot) < num_layers || num_layers == 0 && layout::slot_level(slot) == 0,
        0 <= layout::slot_position(slot) < pow2((num_layers - layout::slot_level(slot)) as nat),
        layout::node_slot(layout::slot_level(slot), layout::slot_position(slot)) == slot,
{
    if num_layers == 0 {
        lemma2_to64();
        assert(bits::two_adic_valuation(1) == 0);
        assert(layout::slot_level(0) == 0);
        assert(layout::slot_position(0) == 0);
    } else {
        layout::theorem_slot_holds_node(num_layers, slot);
    }
}

/// A node's slot is among those of its subtree, also for a subtree of one leaf.
proof fn lemma_node_slot(num_layers: nat, level: nat, position: int)
    requires
        level < num_layers || num_layers == 0 && level == 0,
        0 <= position < pow2((num_layers - level) as nat),
    ensures
        0 <= layout::node_slot(level, position) < reached_slots(num_layers),
        layout::slot_level(layout::node_slot(level, position)) == level,
        layout::slot_position(layout::node_slot(level, position)) == position,
{
    layout::theorem_slot_determines_node(level, position);
    if num_layers == 0 {
        lemma2_to64();
    } else {
        layout::theorem_slot_in_range(num_layers, level, position);
    }
}

/// Converting one node changes what was converted before only in the node's own place.
proof fn lemma_convert_step(
    linear: Seq<HashOut>,
    num_layers: nat,
    tree_length: int,
    t: int,
    level: nat,
    position: int,
    i: int,
)
    requires
        level < num_layers || num_layers == 0 && level == 0,
        0 <= position < pow2((num_layers - level) as nat),
    ensures
        ({
            let slot = layout::node_slot(level, position);
            let source = linear_source(num_layers, t, slot);
            converted_partly(
                linear,
                num_layers,
                tree_length,
                t,
                level as int,
                position + 1,
                i,
            ) == if i == slot + t * tree_length && source < linear.len() {
                linear[source]
            } else {
                converted_partly(linear, num_layers, tree_length, t, level as int, position, i)
            }
        }),
{
    let slot = i - t * tree_length;
    lemma_node_slot(num_layers, level, position);
    if 0 <= slot < reached_slots(num_layers) {
        lemma_slot_node(num_layers, slot);
    }
}

/// Digests in the recursive layout, from digests in the linear layout of `num_caps` subtrees of
/// `num_layers` layers. Each subtree takes `tree_length` places in the result.
pub fn convert_linear_to_recursive(
    linear_digests: &Vec<HashOut>,
    num_layers: usize,
    tree_length: usize,
    num_caps: usize,
) -> (result: Vec<HashOut>)
    requires
        num_layers + 1 < usize::BITS,
        tree_length * num_caps <= usize::MAX,
        num_caps > 0 ==> tree_length * (num_caps - 1) + reached_slots(num_layers as nat)
            <= usize::MAX,
        (2 * pow2(num_layers as nat) - 1) * num_caps <= usize::MAX,
    ensures
        result@ == converted(
            linear_digests@,
            num_layers as nat,
            tree_length as nat,
            num_caps as nat,
        ),
{
    let subtree_leaves_len: usize = bits::shl_one(num_layers);
    proof {
        vstd::bits::lemma_usize_pow2_no_overflow((num_layers + 1) as nat);
        lemma_pow2_unfold((num_layers + 1) as nat);
    }
    let subtree_digests_len: usize = 2 * subtree_leaves_len - 1;
    let total_digests: usize = tree_length * num_caps;
    let ghost layers = num_layers as nat;
    let ghost tl = tree_length as int;
    let ghost linear = linear_digests@;
    let mut result: Vec<HashOut> = Vec::with_capacity(total_digests);
    while result.len() < total_digests
        invariant
            result@.len() <= total_digests,
            forall|i: int| 0 <= i < result@.len() ==> #[trigger] result@[i] == HashOut::spec_zero(),
        decreases total_digests - result.len(),
    {
        result.push(HashOut::zero());
    }
    let mut subtree_idx: usize = 0;
    proof {
        assert(subtree_leaves_len * num_caps <= subtree_digests_len * num_caps) by (nonlinear_arith)
            requires
                subtree_leaves_len <= subtree_digests_len,
                num_caps >= 0,
        ;
    }
    while subtree_idx < num_caps
        invariant
            subtree_idx <= num_caps,
            num_layers + 1 < usize::BITS,
            layers == num_layers,
            tl == tree_length,
            linear == linear_digests@,
            subtree_leaves_len == pow2(layers),
            subtree_digests_len == 2 * subtree_leaves_len - 1,
            total_digests == tree_length * num_caps,
            tree_length * (num_caps - 1) + reached_slots(layers) <= usize::MAX || num_caps == 0,
            subtree_digests_len * num_caps <= usize::MAX,
            subtree_leaves_len * num_caps <= usize::MAX,
            result@.len() == total_digests,
            forall|i: int|
                0 <= i < result@.len() ==> #[trigger] result@[i] == converted_at(
                    linear,
                    layers,
                    tl,
                    subtree_idx as nat,
                    i,
                ),
        decreases num_caps - subtree_idx,
    {
        let ghost t = subtree_idx as int;
        proof {
            assert(subtree_idx * subtree_digests_len + subtree_digests_len <= num_caps
                * subtree_digests_len) by (nonlinear_arith)
                requires
                    subtree_idx + 1 <= num_caps,
                    subtree_digests_len >= 0,
            ;
            lemma_mul_is_commutative(subtree_digests_len as int, num_caps as int);
            lemma_mul_nonnegative(t, subtree_digests_len as int);
            assert forall|i: int| 0 <= i < result@.len() implies #[trigger] result@[i]
                == converted_partly(linear, layers, tl, t, 0, 0, i) by {
                let slot = i - t * tl;
                if 0 <= slot < reached_slots(layers) {
                    lemma_slot_node(layers, slot);
                }
            }
        }
        let mut level: usize = 0;
        while level < num_layers || level == 0
            invariant
                subtree_idx < num_caps,
                t == subtree_idx,
                num_layers + 1 < usize::BITS,
                layers == num_layers,
                tl == tree_length,
                linear == linear_digests@,
                subtree_leaves_len == pow2(layers),
                subtree_digests_len == 2 * subtree_leaves_len - 1,
                total_digests == tree_length * num_caps,
                tree_length * (num_caps - 1) + reached_slots(layers) <= usize::MAX || num_caps == 0,
                0 <= subtree_idx * subtree_digests_len,
                subtree_idx * subtree_digests_len + subtree_digests_len <= usize::MAX,
                subtree_leaves_len * num_caps <= usize::MAX,
                level <= num_layers || num_layers == 0 && level == 1,
                result@.len() == total_digests,
                forall|i: int|
                    0 <= i < result@.len() ==> #[trigger] result@[i] == converted_partly(
                        linear,
                        layers,
                        tl,
                        t,
                        level as int,
                        0,
                        i,
                    ),
            decreases num_layers + 1 - level,
        {
            let nodes_at_level: usize = bits::shl_one(num_layers - level);
            let subtree_base: usize = subtree_idx * subtree_digests_len;
            let level_start: usize = nodes_at_level - 1;
            let mut node_idx: usize = 0;
            while node_idx < nodes_at_level
                invariant
                    subtree_idx < num_caps,
                    t == subtree_idx,
                    num_layers + 1 < usize::BITS,
                    layers == num_layers,
                    tl == tree_length,
                    linear == linear_digests@,
                    subtree_leaves_len == pow2(layers),
                    subtree_digests_len == 2 * subtree_leaves_len - 1,
                    total_digests == tree_length * num_caps,
                    tree_length * (num_caps - 1) + reached_slots(layers) <= usize::MAX || num_caps == 0,
                    subtree_base == subtree_idx * subtree_digests_len,
                    subtree_base + subtree_digests_len <= usize::MAX,
                    subtree_leaves_len * num_caps <= usize::MAX,
                    level < num_layers || num_layers == 0 && level == 0,
                    nodes_at_level == pow2((layers - level) as nat),
                    level_start == nodes_at_level - 1,
                    node_idx <= nodes_at_level,
                    result@.len() == total_digests,
                    forall|i: int|
                        0 <= i < result@.len() ==> #[trigger] result@[i] == converted_partly(
                            linear,
                            layers,
                            tl,
                            t,
                            level as int,
                            node_idx as int,
                            i,
                        ),
                decreases nodes_at_level - node_idx,
            {
                let ghost slot = layout::node_slot(level as nat, node_idx as int);
                let ghost place = slot + t * tl;
                proof {
                    lemma_node_slot(layers, level as nat, node_idx as int);
                    layout::theorem_linear_in_range(layers, level as nat, node_idx as int);
                    let width = nodes_at_level as int;
                    flat::lemma_flat_index(t, node_idx as int, width);
                    bits::lemma_pow2_monotonic((layers - level) as nat, layers);
                    assert(t * width + width <= pow2(layers) * num_caps) by (nonlinear_arith)
                        requires
                            0 <= t,
                            t + 1 <= num_caps,
                            0 < width <= pow2(layers),
                    {
                        assert((t + 1) * width <= num_caps * width) by (nonlinear_arith)
                            requires
                                t + 1 <= num_caps,
                                width > 0,
                        ;
                        assert(num_caps * width <= num_caps * pow2(layers)) by (nonlinear_arith)
                            requires
                                width <= pow2(layers),
                                num_caps >= 0,
                        ;
                    }
                    assert(t * tl <= tl * (num_caps - 1)) by (nonlinear_arith)
                        requires
                            0 <= t <= num_caps - 1,
                            tl >= 0,
                    ;
                }
                let linear_idx: usize = subtree_base + level_start + node_idx;
                let global_idx: usize = subtree_idx * nodes_at_level + node_idx;
                let recursive_idx: usize = get_node_hash_index_in_digests(
                    num_layers,
                    tree_length,
                    level,
                    global_idx,
                );
                proof {
                    assert(recursive_idx == place);
                    assert(linear_idx == linear_source(layers, t, slot));
                    assert forall|i: int| 0 <= i < result@.len() implies converted_partly(
                        linear,
                        layers,
                        tl,
                        t,
                        level as int,
                        node_idx + 1,
                        i,
                    ) == (if i == place && linear_idx < linear.len() {
                        linear[linear_idx as int]
                    } else {
                        #[trigger] result@[i]
                    }) by {
                        lemma_convert_step(
                            linear,
                            layers,
                            tl,
                            t,
                            level as nat,
                            node_idx as int,
                            i,
                        );
                    }
                }
                if linear_idx < linear_digests.len() && recursive_idx < result.len() {
                    result.set(recursive_idx, linear_digests[linear_idx]);
                }
                node_idx = node_idx + 1;
            }
            proof {
                assert forall|i: int| 0 <= i < result@.len() implies #[trigger] result@[i]
                    == converted_partly(linear, layers, tl, t, level + 1, 0, i) by {
                    let slot = i - t * tl;
                    if 0 <= slot < reached_slots(layers) {
                        lemma_slot_node(layers, slot);
                    }
                }
            }
            level = level + 1;
        }
        proof {
            assert forall|i: int| 0 <= i < result@.len() implies #[trigger] result@[i]
                == converted_at(linear, layers, tl, (t + 1) as nat, i) by {
                let slot = i - t * tl;
                if 0 <= slot < reached_slots(layers) {
                    lemma_slot_node(layers, slot);
                }
            }
        }
        subtree_idx = subtree_idx + 1;
    }
    proof {
        assert(result@ =~= converted(linear, layers, tree_length as nat, num_caps as nat));
    }
    result
}

/// Where the subtrees do not overlap and all digests are given, every place holds its node's digest,
/// and the places beyond a subtree's nodes hold zero.
pub proof fn lemma_converted_at(
    linear: Seq<HashOut>,
    num_layers: nat,
    tree_length: int,
    subtrees: nat,
    t: int,
    slot: int,
)
    requires
        0 <= t < subtrees,
        0 <= slot < tree_length,
        reached_slots(num_layers) <= tree_length,
        linear.len() >= (2 * pow2(num_layers) - 1) * subtrees,
    ensures
        slot < reached_slots(num_layers) ==> 0 <= linear_source(num_layers, t, slot)
            < linear.len(),
        converted_at(linear, num_layers, tree_length, subtrees, t * tree_length + slot) == if slot
            < reached_slots(num_layers) {
            linear[linear_source(num_layers, t, slot)]
        } else {
            HashOut::spec_zero()
        },
    decreases subtrees,
{
    let m = subtrees - 1;
    let i = t * tree_length + slot;
    let size = 2 * pow2(num_layers) - 1;
    lemma_pow2_pos(num_layers);
    if slot < reached_slots(num_layers) {
        lemma_slot_node(num_layers, slot);
        layout::theorem_linear_in_range(
            num_layers,
            layout::slot_level(slot),
            layout::slot_position(slot),
        );
        assert(0 <= t * size && t * size + size <= size * subtrees) by (nonlinear_arith)
            requires
                0 <= t,
                t + 1 <= subtrees,
                size >= 0,
        ;
    }
    if t < m {
        assert(i - m * tree_length < 0) by (nonlinear_arith)
            requires
                i == t * tree_length + slot,
                0 <= slot < tree_length,
                t + 1 <= m,
        ;
        assert(size * m <= size * subtrees) by (nonlinear_arith)
            requires
                size >= 0,
                m <= subtrees,
        ;
        lemma_converted_at(linear, num_layers, tree_length, m as nat, t, slot);
    } else if slot >= reached_slots(num_layers) {
        lemma_not_converted(linear, num_layers, tree_length, m as nat, i);
    }
}

/// No subtree reaches a place that lies beyond them.
proof fn lemma_not_converted(
    linear: Seq<HashOut>,
    num_layers: nat,
    tree_length: int,
    subtrees: nat,
    i: int,
)
    requires
        reached_slots(num_layers) <= tree_length,
        i >= subtrees * tree_length,
    ensures
        converted_at(linear, num_layers, tree_length, subtrees, i) == HashOut::spec_zero(),
    decreases subtrees,
{
    if subtrees > 0 {
        let m = subtrees - 1;
        assert(m * tree_length + tree_length == subtrees * tree_length) by (nonlinear_arith)
            requires
                m + 1 == subtrees,
        ;
        lemma_reached_slots_positive(num_layers);
        lemma_not_converted(linear, num_layers, tree_length, m as nat, i);
    }
}

/// A subtree has a place.
proof fn lemma_reached_slots_positive(num_layers: nat)
    ensures
        reached_slots(num_layers) >= 1,
{
    if num_layers > 0 {
        lemma2_to64();
        bits::lemma_pow2_monotonic(1, num_layers);
    }
}

/// Every node's digest is found, after the conversion, at the node's index in the recursive layout.
pub proof fn theorem_conversion_places_nodes(
    linear: Seq<HashOut>,
    num_layers: nat,
    tree_length: nat,
    num_caps: nat,
    t: int,
    level: nat,
    position: int,
)
    requires
        0 <= t < num_caps,
        level < num_layers || num_layers == 0 && level == 0,
        0 <= position < pow2((num_layers - level) as nat),
        reached_slots(num_layers) <= tree_length,
        linear.len() >= (2 * pow2(num_layers) - 1) * num_caps,
    ensures
        ({
            let index = t * pow2((num_layers - level) as nat) + position;
            let place = layout::digest_index(num_layers, tree_length as int, level, index);
            let source = t * (2 * pow2(num_layers) - 1) + layout::linear_index(
                num_layers,
                level,
                position,
            );
            let result = converted(linear, num_layers, tree_length, num_caps);
            &&& 0 <= place < result.len()
            &&& 0 <= source < linear.len()
            &&& result[place] == linear[source]
        }),
{
    let width = pow2((num_layers - level) as nat) as int;
    let slot = layout::node_slot(level, position);
    lemma_node_slot(num_layers, level, position);
    flat::lemma_flat_index(t, position, width);
    lemma_converted_at(linear, num_layers, tree_length as int, num_caps, t, slot);
    assert(0 <= t * tree_length && t * tree_length + tree_length <= tree_length * num_caps)
        by (nonlinear_arith)
        requires
            0 <= t,
            t + 1 <= num_caps,
            tree_length >= 0,
    ;
}

/// The recursive layout of a heap of digests, without gaps: place `i` belongs to subtree
/// `i / tree_length` for the `tree_length` digests of a subtree.
pub open spec fn recursive_digests(linear: Seq<HashOut>, num_layers: nat, num_caps: nat) -> Seq<
    HashOut,
> {
    let tree_length = layout::subtree_slots(num_layers);
    Seq::new(
        (tree_length * num_caps) as nat,
        |i: int| linear[linear_source(num_layers, i / tree_length, i % tree_length)],
    )
}

/// Without gaps, the conversion fills every place.
pub proof fn theorem_conversion_is_complete(linear: Seq<HashOut>, num_layers: nat, num_caps: nat)
    requires
        linear.len() >= (2 * pow2(num_layers) - 1) * num_caps,
    ensures
        converted(linear, num_layers, layout::subtree_slots(num_layers) as nat, num_caps)
            == recursive_digests(linear, num_layers, num_caps),
{
    let tree_length = layout::subtree_slots(num_layers);
    lemma_reached_slots_positive(num_layers);
    let a = converted(linear, num_layers, tree_length as nat, num_caps);
    let b = recursive_digests(linear, num_layers, num_caps);
    lemma2_to64();
    lemma_mul_basics(num_caps as int);
    assert forall|i: int| 0 <= i < a.len() implies #[trigger] a[i] == b[i] by {
        lemma_mul_is_commutative(tree_length, num_caps as int);
        flat::lemma_flat_position(i, num_caps as int, tree_length);
        lemma_converted_at(
            linear,
            num_layers,
            tree_length,
            num_caps,
            i / tree_length,
            i % tree_length,
        );
    }
    assert(a =~= b);
}

} // verus!
