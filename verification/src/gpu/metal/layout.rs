//! Where the digests of a Merkle tree are stored.
//!
//! A tree of `2^h` leaves with a cap of height `c` consists of `2^c` subtrees of `h - c` layers.
//! Level zero of a subtree holds its leaf digests; level `l` of a subtree with `k` layers has
//! `2^(k-l)` nodes. A subtree's root is a cap entry and not among its digests.
//!
//! The *recursive* layout is the one that proofs are read from. Sibling digests are adjacent in it,
//! and a pair of siblings stands between the digests of the subtrees below them. The *linear*
//! layout is the one that the kernels write: a binary heap, whose level `l` starts at
//! `2^(k-l) - 1`.

use crate::bits;
use vstd::arithmetic::div_mod::*;
use vstd::arithmetic::mul::*;
use vstd::arithmetic::power2::*;
use vstd::prelude::*;

verus! {

/// The number of digests of a subtree with `layers` layers in the recursive layout.
pub open spec fn subtree_slots(layers: nat) -> int {
    2 * (pow2(layers) - 1)
}

/// The slot, in the recursive layout of its subtree, of node `position` at `level`.
pub open spec fn node_slot(level: nat, position: int) -> int {
    2 * ((position / 2) * pow2(level + 1) + pow2(level) - 1) + position % 2
}

/// The level of the node in slot `slot`.
pub open spec fn slot_level(slot: int) -> nat {
    bits::two_adic_valuation((slot / 2 + 1) as nat)
}

/// The position in its level of the node in slot `slot`.
pub open spec fn slot_position(slot: int) -> int {
    (slot / 2 + 1) / pow2(slot_level(slot)) as int - 1 + slot % 2
}

/// The index of a node in the recursive layout of all subtrees, each `tree_length` long. `index`
/// counts the nodes of the level through all subtrees.
pub open spec fn digest_index(layers: nat, tree_length: int, level: nat, index: int) -> int {
    let width = pow2((layers - level) as nat) as int;
    node_slot(level, index % width) + (index / width) * tree_length
}

/// The index of a node in the linear layout of its subtree.
pub open spec fn linear_index(layers: nat, level: nat, position: int) -> int {
    pow2((layers - level) as nat) - 1 + position
}

/// Twice a power of two is the next one.
proof fn lemma_pow2_double(k: nat)
    ensures
        pow2(k + 1) == 2 * pow2(k),
        pow2(k) > 0,
{
    lemma_pow2_unfold(k + 1);
    lemma_pow2_pos(k);
}

/// The valuation of a power of two times an odd number.
proof fn lemma_valuation_of_product(level: nat, odd: nat)
    requires
        odd % 2 == 1,
    ensures
        bits::two_adic_valuation(pow2(level) * odd) == level,
        (pow2(level) * odd) / pow2(level) == odd,
    decreases level,
{
    lemma2_to64();
    lemma_pow2_pos(level);
    lemma_div_multiples_vanish(odd as int, pow2(level) as int);
    let n = pow2(level) * odd;
    if level > 0 {
        let l = (level - 1) as nat;
        lemma_pow2_double(l);
        assert(n == 2 * (pow2(l) * odd)) by (nonlinear_arith)
            requires
                n == pow2(level) * odd,
                pow2(level) == 2 * pow2(l),
        ;
        assert(pow2(l) * odd > 0) by (nonlinear_arith)
            requires
                pow2(l) > 0,
                odd > 0,
        ;
        lemma_valuation_of_product(l, odd);
    } else {
        assert(1 * odd == odd);
    }
}

/// A node's slot determines the node.
pub proof fn theorem_slot_determines_node(level: nat, position: int)
    requires
        0 <= position,
    ensures
        node_slot(level, position) >= 0,
        slot_level(node_slot(level, position)) == level,
        slot_position(node_slot(level, position)) == position,
{
    let pair = position / 2;
    let odd = (2 * pair + 1) as nat;
    let slot = node_slot(level, position);
    lemma_pow2_double(level);
    assert(pair * pow2(level + 1) + pow2(level) == pow2(level) * odd) by (nonlinear_arith)
        requires
            pow2(level + 1) == 2 * pow2(level),
            odd == 2 * pair + 1,
    ;
    assert(pow2(level) * odd >= 1) by (nonlinear_arith)
        requires
            pow2(level) >= 1,
            odd >= 1,
    ;
    assert(slot / 2 + 1 == pow2(level) * odd);
    assert(slot % 2 == position % 2);
    lemma_valuation_of_product(level, odd);
}

/// The slots of a subtree's nodes lie within the subtree.
pub proof fn theorem_slot_in_range(layers: nat, level: nat, position: int)
    requires
        level < layers,
        0 <= position < pow2((layers - level) as nat),
    ensures
        0 <= node_slot(level, position) < subtree_slots(layers),
{
    theorem_slot_determines_node(level, position);
    let pair = position / 2;
    let above = pow2((layers - level - 1) as nat);
    lemma_pow2_double((layers - level - 1) as nat);
    assert(pair <= above - 1);
    lemma_pow2_double(level);
    lemma_pow2_adds(level + 1, (layers - level - 1) as nat);
    assert(pair * pow2(level + 1) <= pow2(layers) - pow2(level + 1)) by (nonlinear_arith)
        requires
            pair <= above - 1,
            pow2(layers) == pow2(level + 1) * above,
            pow2(level + 1) > 0,
    ;
}

/// Every slot of a subtree holds a node.
pub proof fn theorem_slot_holds_node(layers: nat, slot: int)
    requires
        0 <= slot < subtree_slots(layers),
    ensures
        slot_level(slot) < layers,
        0 <= slot_position(slot) < pow2((layers - slot_level(slot)) as nat),
        node_slot(slot_level(slot), slot_position(slot)) == slot,
{
    let n = (slot / 2 + 1) as nat;
    let level = slot_level(slot);
    bits::lemma_two_adic_valuation(n);
    lemma_pow2_double(level);
    let p = pow2(level) as int;
    let odd = n as int / p;
    if level >= layers {
        bits::lemma_pow2_monotonic(layers, level);
        assert(n >= pow2(level)) by (nonlinear_arith)
            requires
                n == p * odd,
                odd >= 1,
                p == pow2(level),
        ;
    }
    let width = pow2((layers - level) as nat);
    lemma_pow2_adds(level, (layers - level) as nat);
    assert(odd < width) by (nonlinear_arith)
        requires
            n == p * odd,
            n < p * width,
            p > 0,
    ;
    lemma_pow2_double((layers - level - 1) as nat);
    let position = slot_position(slot);
    assert(position / 2 == (odd - 1) / 2);
    let pair = position / 2;
    assert(pair * pow2(level + 1) + pow2(level) == n) by (nonlinear_arith)
        requires
            n == p * odd,
            odd == 2 * pair + 1,
            pow2(level + 1) == 2 * p,
            p == pow2(level),
    ;
}

/// Sibling digests are adjacent in the recursive layout, the left one at an even slot.
pub proof fn theorem_siblings_adjacent(level: nat, pair: int)
    requires
        0 <= pair,
    ensures
        node_slot(level, 2 * pair) % 2 == 0,
        node_slot(level, 2 * pair + 1) == node_slot(level, 2 * pair) + 1,
{
}

/// A pair of siblings stands between the digests of the trees below them: node `position` of `level`,
/// where it lies below the left sibling, has its slot among those right before the pair, and where it
/// lies below the right one, among those right after it.
pub proof fn theorem_siblings_in_between(level: nat, pair: int, below: nat, position: int)
    requires
        0 <= pair,
        0 <= position,
        below < level,
    ensures
        position / pow2((level - below) as nat) as int == 2 * pair ==> node_slot(level, 2 * pair)
            - subtree_slots(level) <= node_slot(below, position) < node_slot(level, 2 * pair),
        position / pow2((level - below) as nat) as int == 2 * pair + 1 ==> node_slot(
            level,
            2 * pair + 1,
        ) < node_slot(below, position) <= node_slot(level, 2 * pair + 1) + subtree_slots(level),
{
    let span = pow2((level - below) as nat) as int;
    let half = pow2((level - below - 1) as nat) as int;
    let p = pow2(below) as int;
    lemma_pow2_double((level - below - 1) as nat);
    lemma_pow2_double(below);
    lemma_pow2_double(level);
    lemma_pow2_adds(below, (level - below) as nat);
    lemma_fundamental_div_mod(position, span);
    lemma_mod_division_less_than_divisor(position, span);
    let r = position % span;
    let s = r / 2;
    let full = pow2(level) as int;
    assert(full == 2 * (p * half)) by (nonlinear_arith)
        requires
            full == p * span,
            span == 2 * half,
    ;
    assert(s * (2 * p) <= full - 2 * p && 0 <= s * (2 * p)) by (nonlinear_arith)
        requires
            0 <= s <= half - 1,
            full == 2 * (p * half),
            p > 0,
    ;
    if position / span == 2 * pair {
        assert(span * (2 * pair) == 2 * (pair * span)) by (nonlinear_arith);
        assert(position / 2 == pair * span + s);
        assert((pair * span + s) * (2 * p) == pair * (2 * full) + s * (2 * p)) by (nonlinear_arith)
            requires
                full == p * span,
        ;
    }
    if position / span == 2 * pair + 1 {
        assert(span * (2 * pair + 1) == 2 * (pair * span + half)) by (nonlinear_arith)
            requires
                span == 2 * half,
        ;
        assert(position / 2 == pair * span + half + s);
        assert((pair * span + half + s) * (2 * p) == pair * (2 * full) + full + s * (2 * p))
            by (nonlinear_arith)
            requires
                full == p * span,
                full == 2 * (p * half),
        ;
    }
}

/// The subtrees stand one after another, `tree_length` places apart: node `position` of `level` of
/// subtree `t` is in its slot of that subtree.
pub proof fn theorem_digest_place(
    layers: nat,
    tree_length: int,
    level: nat,
    t: int,
    position: int,
)
    requires
        level <= layers,
        0 <= t,
        0 <= position < pow2((layers - level) as nat),
    ensures
        digest_index(
            layers,
            tree_length,
            level,
            t * pow2((layers - level) as nat) + position,
        ) == t * tree_length + node_slot(level, position),
{
    crate::flat::lemma_flat_index(t, position, pow2((layers - level) as nat) as int);
}

/// The root of a heap stands first.
pub proof fn theorem_linear_root(layers: nat)
    ensures
        linear_index(layers, layers, 0) == 0,
{
    lemma2_to64();
}

/// The linear layout is a binary heap: the children of a node stand at twice its index, plus one
/// and plus two.
pub proof fn theorem_linear_children(layers: nat, level: nat, position: int)
    requires
        0 < level <= layers,
    ensures
        linear_index(layers, (level - 1) as nat, 2 * position) == 2 * linear_index(
            layers,
            level,
            position,
        ) + 1,
        linear_index(layers, (level - 1) as nat, 2 * position + 1) == 2 * linear_index(
            layers,
            level,
            position,
        ) + 2,
{
    lemma_pow2_double((layers - level) as nat);
}

/// The linear indices of a subtree's nodes lie within the `2^(layers+1) - 1` places of the subtree.
pub proof fn theorem_linear_in_range(layers: nat, level: nat, position: int)
    requires
        level <= layers,
        0 <= position < pow2((layers - level) as nat),
    ensures
        0 <= linear_index(layers, level, position) < 2 * pow2(layers) - 1,
{
    lemma_pow2_pos((layers - level) as nat);
    bits::lemma_pow2_monotonic((layers - level) as nat, layers);
}

/// Different nodes have different linear indices.
pub proof fn theorem_linear_distinct(
    layers: nat,
    level_a: nat,
    position_a: int,
    level_b: nat,
    position_b: int,
)
    requires
        level_a <= layers,
        level_b <= layers,
        0 <= position_a < pow2((layers - level_a) as nat),
        0 <= position_b < pow2((layers - level_b) as nat),
        linear_index(layers, level_a, position_a) == linear_index(layers, level_b, position_b),
    ensures
        level_a == level_b,
        position_a == position_b,
{
    if level_a < level_b {
        lemma_pow2_double((layers - level_b) as nat);
        bits::lemma_pow2_monotonic((layers - level_b + 1) as nat, (layers - level_a) as nat);
    } else if level_b < level_a {
        lemma_pow2_double((layers - level_a) as nat);
        bits::lemma_pow2_monotonic((layers - level_a + 1) as nat, (layers - level_b) as nat);
    }
}

/// The index of a node in the rootless layout of its subtree: a binary heap without its root.
pub open spec fn rootless_index(layers: nat, level: nat, position: int) -> int {
    pow2((layers - level) as nat) - 2 + position
}

/// Where a kernel that works on the linear layout stores a node of a subtree with `leaves_len`
/// leaves and `digests_len` places.
pub open spec fn kernel_index(
    digests_len: int,
    leaves_len: int,
    level: nat,
    position: int,
) -> int {
    if level == 0 {
        (digests_len - leaves_len) + position
    } else {
        digests_len - 2 * leaves_len + leaves_len / pow2(level) as int + position
    }
}

/// The number of places decides which layout the kernels produce: the linear one with a place for
/// the root, the rootless one without.
pub proof fn theorem_places_select_layout(layers: nat, level: nat, position: int)
    requires
        level <= layers,
    ensures
        kernel_index(2 * pow2(layers) - 1, pow2(layers) as int, level, position) == linear_index(
            layers,
            level,
            position,
        ),
        kernel_index(2 * (pow2(layers) - 1), pow2(layers) as int, level, position)
            == rootless_index(layers, level, position),
{
    lemma_pow2_pos(level);
    lemma_pow2_adds(level, (layers - level) as nat);
    lemma_div_multiples_vanish(pow2((layers - level) as nat) as int, pow2(level) as int);
}

/// The children of a node in the rootless layout stand at twice its index, plus two and plus three.
pub proof fn theorem_rootless_children(layers: nat, level: nat, position: int)
    requires
        0 < level <= layers,
    ensures
        rootless_index(layers, (level - 1) as nat, 2 * position) == 2 * rootless_index(
            layers,
            level,
            position,
        ) + 2,
        rootless_index(layers, (level - 1) as nat, 2 * position + 1) == 2 * rootless_index(
            layers,
            level,
            position,
        ) + 3,
{
    lemma_pow2_double((layers - level) as nat);
}

/// The rootless indices of a subtree's nodes below its root lie within its `2(n - 1)` places, and
/// different nodes have different ones.
pub proof fn theorem_rootless_in_range(layers: nat, level: nat, position: int)
    requires
        level < layers,
        0 <= position < pow2((layers - level) as nat),
    ensures
        0 <= rootless_index(layers, level, position) < subtree_slots(layers),
        rootless_index(layers, level, position) == linear_index(layers, level, position) - 1,
{
    lemma_pow2_double((layers - level - 1) as nat);
    bits::lemma_pow2_monotonic((layers - level) as nat, layers);
}

/// Every place of the rootless layout holds a node.
pub proof fn theorem_rootless_holds_node(layers: nat, place: int) -> (node: (nat, int))
    requires
        0 <= place < subtree_slots(layers),
    ensures
        node.0 < layers,
        0 <= node.1 < pow2((layers - node.0) as nat),
        rootless_index(layers, node.0, node.1) == place,
    decreases layers,
{
    lemma2_to64();
    if layers == 0 {
        assert(false);
        (0, 0)
    } else {
        let below = (layers - 1) as nat;
        lemma_pow2_double(below);
        if place >= pow2(layers) - 2 {
            (0, place - (pow2(layers) - 2))
        } else {
            let (level, position) = theorem_rootless_holds_node(below, place);
            assert((layers - (level + 1)) as nat == (below - level) as nat);
            (level + 1, position)
        }
    }
}

/// With `subtree_slots` digests for each of `2^cap` subtrees, the recursive layout holds all nodes
/// of a tree of `2^height` leaves below its cap: `2 * 2^height - 1` nodes less `2 * 2^cap - 1`.
pub proof fn theorem_digest_count(height: nat, cap: nat)
    requires
        cap <= height,
    ensures
        pow2(cap) * subtree_slots((height - cap) as nat) == (2 * pow2(height) - 1) - (2 * pow2(cap)
            - 1),
{
    lemma_pow2_adds(cap, (height - cap) as nat);
    let n = pow2((height - cap) as nat);
    assert(pow2(cap) * (2 * (n - 1)) == 2 * (pow2(cap) * n) - 2 * pow2(cap)) by (nonlinear_arith);
}

} // verus!
