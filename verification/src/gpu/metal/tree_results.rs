//! The tree over given leaves, and that it is what the results of every kernel family make up.

use crate::bits;
use crate::flat;
use crate::gpu::metal::coalesced_kernels;
use crate::gpu::metal::coalesced_plan::{self, CoalescedKernels, CoalescedSizes};
use crate::gpu::metal::layout;
use crate::gpu::metal::merkle_threadgroup;
use crate::gpu::metal::merkle_tree::{self, MerkleTree};
use crate::gpu::metal::plan::{self, DigestLayout, GroupSizes, Recipe, TreeShape};
use crate::gpu::metal::tree_kernels;
use crate::gpu::metal::utils::{self, HashOut};
use vstd::arithmetic::mul::*;
use vstd::arithmetic::power2::*;
use vstd::prelude::*;

verus! {

/// The digests, in the recursive layout, of `num_caps` subtrees with `layers` layers: place `i` belongs
/// to subtree `i / slots`, for the `slots` places of a subtree.
pub open spec fn tree_digests(
    words: Seq<u64>,
    leaf_length: int,
    hash: spec_fn(Seq<u64>) -> HashOut,
    compress: spec_fn(HashOut, HashOut) -> HashOut,
    layers: nat,
    num_caps: nat,
) -> Seq<HashOut> {
    let slots = layout::subtree_slots(layers);
    Seq::new(
        (slots * num_caps) as nat,
        |i: int|
            {
                let level = layout::slot_level(i % slots);
                tree_kernels::node(
                    words,
                    leaf_length,
                    hash,
                    compress,
                    level,
                    (i / slots) * pow2((layers - level) as nat) + layout::slot_position(i % slots),
                )
            },
    )
}

/// The cap: the roots of `num_caps` subtrees with `layers` layers.
pub open spec fn tree_cap(
    words: Seq<u64>,
    leaf_length: int,
    hash: spec_fn(Seq<u64>) -> HashOut,
    compress: spec_fn(HashOut, HashOut) -> HashOut,
    layers: nat,
    num_caps: nat,
) -> Seq<HashOut> {
    Seq::new(
        num_caps,
        |t: int| tree_kernels::node(words, leaf_length, hash, compress, layers, t),
    )
}

/// Whether leaves are of one length and as many as a tree of height `tree_height` has.
pub open spec fn are_leaves(leaves: Seq<Vec<u64>>, tree_height: nat) -> bool {
    &&& leaves.len() == pow2(tree_height)
    &&& forall|k: int| 0 <= k < leaves.len() ==> #[trigger] leaves[k]@.len() == leaves[0]@.len()
}

/// Whether `tree` is the Merkle tree over `leaves` with a cap of height `cap_height`.
pub open spec fn is_tree_of(
    leaves: Seq<Vec<u64>>,
    cap_height: nat,
    hash: spec_fn(Seq<u64>) -> HashOut,
    compress: spec_fn(HashOut, HashOut) -> HashOut,
    tree: MerkleTree,
) -> bool {
    let words = merkle_tree::concatenated(leaves);
    let length = leaves[0]@.len() as int;
    let layers = (bits::log2(leaves.len() as int) - cap_height) as nat;
    &&& tree.leaves@ == words
    &&& tree.leaf_length == length
    &&& tree.digests@ == tree_digests(words, length, hash, compress, layers, pow2(cap_height))
    &&& tree.cap@ == tree_cap(words, length, hash, compress, layers, pow2(cap_height))
}

/// A tree has as many cap entries as its cap height says, and a digest for every node below the cap.
pub proof fn theorem_tree_counts(
    leaves: Seq<Vec<u64>>,
    tree_height: nat,
    cap_height: nat,
    hash: spec_fn(Seq<u64>) -> HashOut,
    compress: spec_fn(HashOut, HashOut) -> HashOut,
    tree: MerkleTree,
)
    requires
        are_leaves(leaves, tree_height),
        cap_height <= tree_height,
        is_tree_of(leaves, cap_height, hash, compress, tree),
    ensures
        tree.cap@.len() == pow2(cap_height),
        tree.digests@.len() == (2 * leaves.len() - 1) - (2 * pow2(cap_height) - 1),
{
    bits::lemma_log2(tree_height);
    layout::theorem_digest_count(tree_height, cap_height);
    let slots = layout::subtree_slots((tree_height - cap_height) as nat);
    lemma_pow2_pos((tree_height - cap_height) as nat);
    lemma_mul_is_commutative(slots, pow2(cap_height) as int);
}

/// Whether the launches of a plan, run over the elements of `leaves`, and the conversion of what they
/// left give `tree`.
pub open spec fn is_device_run(
    leaves: Seq<Vec<u64>>,
    cap_height: nat,
    hash: spec_fn(Seq<u64>) -> HashOut,
    compress: spec_fn(HashOut, HashOut) -> HashOut,
    tree: MerkleTree,
    shape: TreeShape,
    recipe: Recipe,
    sizes: GroupSizes,
    states: Seq<Seq<HashOut>>,
) -> bool {
    let words = merkle_tree::concatenated(leaves);
    &&& shape.wf(DigestLayout::Heap)
    &&& shape.leaf_count == leaves.len()
    &&& shape.cap_height == cap_height
    &&& recipe.uniforms is Linear
    &&& recipe.caps is Some
    &&& tree_kernels::consistent(shape, recipe)
    &&& tree_kernels::fits_device(shape, tree.leaf_length, sizes)
    &&& tree_kernels::is_run(
        tree_kernels::tree_body(shape, recipe, tree.leaf_length, sizes),
        words,
        hash,
        compress,
        states,
    )
    &&& tree_kernels::hashes_caps(
        plan::tree_schedule(shape, recipe, tree.leaf_length, sizes).last(),
        compress,
        shape.num_layers as nat,
        states.last(),
        tree.cap@,
    )
    &&& states.last().len() == shape.total_digests
    &&& tree.leaves@ == words
    &&& tree.leaf_length == leaves[0]@.len()
    &&& tree.digests@ == utils::recursive_digests(
        states.last(),
        shape.num_layers as nat,
        shape.num_caps as nat,
    )
}

/// Whether `tree` is what the device gives for `leaves`.
pub open spec fn is_device_tree(
    leaves: Seq<Vec<u64>>,
    cap_height: nat,
    hash: spec_fn(Seq<u64>) -> HashOut,
    compress: spec_fn(HashOut, HashOut) -> HashOut,
    tree: MerkleTree,
) -> bool {
    exists|shape: TreeShape, recipe: Recipe, sizes: GroupSizes, states: Seq<Seq<HashOut>>|
        is_device_run(
            leaves,
            cap_height,
            hash,
            compress,
            tree,
            shape,
            recipe,
            sizes,
            states,
        )
}

/// What the device gives is the tree over the leaves.
pub proof fn theorem_device_tree(
    leaves: Seq<Vec<u64>>,
    cap_height: nat,
    hash: spec_fn(Seq<u64>) -> HashOut,
    compress: spec_fn(HashOut, HashOut) -> HashOut,
    tree: MerkleTree,
)
    requires
        is_device_tree(leaves, cap_height, hash, compress, tree),
    ensures
        is_tree_of(leaves, cap_height, hash, compress, tree),
{
    let (shape, recipe, sizes, states) = choose|
        shape: TreeShape,
        recipe: Recipe,
        sizes: GroupSizes,
        states: Seq<Seq<HashOut>>,
    |
        is_device_run(
            leaves,
            cap_height,
            hash,
            compress,
            tree,
            shape,
            recipe,
            sizes,
            states,
        );
    let words = merkle_tree::concatenated(leaves);
    let length = tree.leaf_length;
    bits::lemma_log2(shape.tree_height as nat);
    shape.lemma_bounds();
    tree_kernels::theorem_heaps_are_hashed(
        shape,
        recipe,
        length,
        sizes,
        words,
        hash,
        compress,
        states,
    );
    tree_kernels::theorem_converted_tree(
        shape,
        words,
        length as int,
        hash,
        compress,
        states.last(),
    );
    tree_kernels::theorem_cap_is_hashed(
        shape,
        recipe,
        length,
        sizes,
        words,
        hash,
        compress,
        states,
        tree.cap@,
    );
    lemma_digests_in_place(shape, words, length as int, hash, compress, tree.digests@);
}

/// A recursive layout with every node in its place is that of the tree.
proof fn lemma_digests_in_place(
    shape: TreeShape,
    words: Seq<u64>,
    leaf_length: int,
    hash: spec_fn(Seq<u64>) -> HashOut,
    compress: spec_fn(HashOut, HashOut) -> HashOut,
    digests: Seq<HashOut>,
)
    requires
        shape.valid(),
        digests.len() == layout::subtree_slots(shape.num_layers as nat) * shape.num_caps,
        tree_kernels::holds_recursive(
            shape,
            layout::subtree_slots(shape.num_layers as nat),
            words,
            leaf_length,
            hash,
            compress,
            digests,
        ),
    ensures
        digests == tree_digests(
            words,
            leaf_length,
            hash,
            compress,
            shape.num_layers as nat,
            shape.num_caps as nat,
        ),
{
    let k = shape.num_layers as nat;
    let slots = layout::subtree_slots(k);
    let wanted = tree_digests(words, leaf_length, hash, compress, k, shape.num_caps as nat);
    shape.lemma_bounds();
    assert forall|i: int| 0 <= i < digests.len() implies #[trigger] digests[i] == wanted[i] by {
        let t = i / slots;
        let slot = i % slots;
        lemma_mul_is_commutative(slots, shape.num_caps as int);
        flat::lemma_flat_position(i, shape.num_caps as int, slots);
        layout::theorem_slot_holds_node(k, slot);
        let level = layout::slot_level(slot);
        let p = layout::slot_position(slot);
        let width = pow2((k - level) as nat) as int;
        flat::lemma_flat_index(t, p, width);
        assert(tree_kernels::is_node(shape, t, level, p));
        assert(layout::digest_index(k, slots, level, t * width + p) == slot + t * slots);
    }
    assert(digests =~= wanted);
}

/// What the coalesced kernels leave is, after the conversion, the digests and the cap of the tree.
pub proof fn theorem_coalesced_results(
    shape: TreeShape,
    kernels: CoalescedKernels,
    leaf_length: usize,
    sizes: CoalescedSizes,
    words: Seq<u64>,
    hash: spec_fn(Seq<u64>) -> HashOut,
    compress: spec_fn(HashOut, HashOut) -> HashOut,
    states: Seq<Seq<HashOut>>,
    caps: Seq<HashOut>,
)
    requires
        shape.wf(DigestLayout::Heap),
        coalesced_kernels::fits_device(shape, leaf_length),
        coalesced_kernels::unfused(kernels),
        tree_kernels::is_run(
            coalesced_kernels::coalesced_body(shape, kernels, leaf_length, sizes),
            words,
            hash,
            compress,
            states,
        ),
        tree_kernels::hashes_caps(
            coalesced_plan::coalesced_schedule(shape, kernels, leaf_length, sizes).last(),
            compress,
            shape.num_layers as nat,
            states.last(),
            caps,
        ),
        states.last().len() == shape.total_digests,
    ensures
        utils::recursive_digests(states.last(), shape.num_layers as nat, shape.num_caps as nat)
            == tree_digests(
            words,
            leaf_length as int,
            hash,
            compress,
            shape.num_layers as nat,
            shape.num_caps as nat,
        ),
        caps == tree_cap(
            words,
            leaf_length as int,
            hash,
            compress,
            shape.num_layers as nat,
            shape.num_caps as nat,
        ),
{
    let length = leaf_length as int;
    let digests = utils::recursive_digests(
        states.last(),
        shape.num_layers as nat,
        shape.num_caps as nat,
    );
    shape.lemma_bounds();
    coalesced_kernels::theorem_heaps_are_hashed(
        shape,
        kernels,
        leaf_length,
        sizes,
        words,
        hash,
        compress,
        states,
    );
    tree_kernels::theorem_converted_tree(shape, words, length, hash, compress, states.last());
    coalesced_kernels::theorem_cap_is_hashed(
        shape,
        kernels,
        leaf_length,
        sizes,
        words,
        hash,
        compress,
        states,
        caps,
    );
    lemma_digests_in_place(shape, words, length, hash, compress, digests);
}

/// What the kernels on the recursive layout leave is the digests of the tree, and the hashes of the
/// pairs of them that stand in the middle of the subtrees are its cap.
pub proof fn theorem_recursive_results(
    shape: TreeShape,
    recipe: Recipe,
    leaf_length: usize,
    sizes: GroupSizes,
    words: Seq<u64>,
    hash: spec_fn(Seq<u64>) -> HashOut,
    compress: spec_fn(HashOut, HashOut) -> HashOut,
    states: Seq<Seq<HashOut>>,
)
    requires
        shape.wf(DigestLayout::Rootless),
        recipe.uniforms is Recursive,
        tree_kernels::fits_device(shape, leaf_length, sizes),
        tree_kernels::consistent(shape, recipe),
        tree_kernels::is_run(
            tree_kernels::tree_body(shape, recipe, leaf_length, sizes),
            words,
            hash,
            compress,
            states,
        ),
        states.last().len() == shape.total_digests,
    ensures
        states.last() == tree_digests(
            words,
            leaf_length as int,
            hash,
            compress,
            shape.num_layers as nat,
            shape.num_caps as nat,
        ),
        Seq::new(
            shape.num_caps as nat,
            |i: int|
                {
                    let n = layout::subtree_slots(shape.num_layers as nat);
                    let left = i * n + n / 2 - 1;
                    compress(states.last()[left], states.last()[left + 1])
                },
        ) == tree_cap(
            words,
            leaf_length as int,
            hash,
            compress,
            shape.num_layers as nat,
            shape.num_caps as nat,
        ),
{
    let length = leaf_length as int;
    let digests = states.last();
    let k = shape.num_layers as nat;
    let top = (k - 1) as nat;
    let n = layout::subtree_slots(k);
    shape.lemma_bounds();
    lemma2_to64();
    tree_kernels::theorem_recursive_layout_is_hashed(
        shape,
        recipe,
        leaf_length,
        sizes,
        words,
        hash,
        compress,
        states,
    );
    lemma_digests_in_place(shape, words, length, hash, compress, digests);
    let cap = Seq::new(
        shape.num_caps as nat,
        |i: int|
            {
                let left = i * n + n / 2 - 1;
                compress(digests[left], digests[left + 1])
            },
    );
    let wanted = tree_cap(words, length, hash, compress, k, shape.num_caps as nat);
    assert forall|i: int| 0 <= i < shape.num_caps implies #[trigger] cap[i] == wanted[i] by {
        let left = i * n + n / 2 - 1;
        merkle_threadgroup::theorem_cap_children(shape, i);
        assert((k - top) as nat == 1 && pow2(1) == 2);
        assert(tree_kernels::is_node(shape, i, top, 0));
        assert(tree_kernels::is_node(shape, i, top, 1));
        assert(i * 2 + 0 == 2 * i);
        assert(digests[left] == tree_kernels::node(words, length, hash, compress, top, 2 * i));
        assert(digests[left + 1] == tree_kernels::node(
            words,
            length,
            hash,
            compress,
            top,
            2 * i + 1,
        ));
    }
    assert(cap =~= wanted);
}

} // verus!
