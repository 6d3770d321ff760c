//! Merkle trees, and where they are built.

use crate::bits;
use crate::flat;
use crate::gpu::metal::utils::HashOut;
use vstd::prelude::*;

verus! {

/// A Merkle tree: its leaves one after another, its digests and its cap.
#[derive(Debug)]
pub struct MerkleTree {
    pub leaves: Vec<u64>,
    pub leaf_length: usize,
    pub digests: Vec<HashOut>,
    pub cap: Vec<HashOut>,
}

impl MerkleTree {
    /// The tree with these parts.
    pub fn new_from_fields(
        leaves: Vec<u64>,
        leaf_length: usize,
        digests: Vec<HashOut>,
        cap: Vec<HashOut>,
    ) -> (r: MerkleTree)
        ensures
            r.leaves == leaves,
            r.leaf_length == leaf_length,
            r.digests == digests,
            r.cap == cap,
    {
        MerkleTree { leaves, leaf_length, digests, cap }
    }

    /// The elements of leaf `index`.
    pub fn get(&self, index: usize) -> (r: Vec<u64>)
        requires
            (index + 1) * self.leaf_length <= self.leaves@.len(),
        ensures
            r@ == self.leaves@.subrange(
                index * self.leaf_length,
                index * self.leaf_length + self.leaf_length,
            ),
    {
        let total: usize = self.leaves.len();
        proof {
            assert((index + 1) * self.leaf_length == index * self.leaf_length + self.leaf_length)
                by (nonlinear_arith);
            vstd::arithmetic::mul::lemma_mul_nonnegative(index as int, self.leaf_length as int);
        }
        let start: usize = index * self.leaf_length;
        flat::copy_range(&self.leaves, start, start + self.leaf_length)
    }
}

/// The elements of all leaves, one leaf after another.
pub open spec fn concatenated(leaves: Seq<Vec<u64>>) -> Seq<u64>
    decreases leaves.len(),
{
    if leaves.len() == 0 {
        Seq::empty()
    } else {
        concatenated(leaves.drop_last()) + leaves.last()@
    }
}

/// A part of the leaves has no more elements than all of them.
proof fn lemma_concatenated_prefix(leaves: Seq<Vec<u64>>, n: int)
    requires
        0 <= n <= leaves.len(),
    ensures
        concatenated(leaves.take(n)).len() <= concatenated(leaves).len(),
    decreases leaves.len(),
{
    if n < leaves.len() {
        lemma_concatenated_prefix(leaves.drop_last(), n);
        assert(leaves.drop_last().take(n) =~= leaves.take(n));
    } else {
        assert(leaves.take(n) =~= leaves);
    }
}

/// Leaves of one length stand at the multiples of that length.
pub proof fn theorem_concatenated_leaf(leaves: Seq<Vec<u64>>, length: nat, i: int)
    requires
        forall|k: int| 0 <= k < leaves.len() ==> #[trigger] leaves[k]@.len() == length,
        0 <= i < leaves.len(),
    ensures
        concatenated(leaves).len() == leaves.len() * length,
        0 <= i * length,
        i * length + length <= leaves.len() * length,
        concatenated(leaves).subrange(i * length, i * length + length) == leaves[i]@,
    decreases leaves.len(),
{
    let front = leaves.drop_last();
    let n = (leaves.len() - 1) as nat;
    lemma_concatenated_len(leaves, length);
    lemma_concatenated_len(front, length);
    assert(0 <= i * length && i * length + length <= (i + 1) * length) by (nonlinear_arith)
        requires
            i >= 0,
            length >= 0,
    ;
    assert((i + 1) * length <= leaves.len() * length) by (nonlinear_arith)
        requires
            i + 1 <= leaves.len(),
            length >= 0,
    ;
    assert(leaves[n as int]@.len() == length);
    if i < n {
        theorem_concatenated_leaf(front, length, i);
        assert((i + 1) * length <= n * length) by (nonlinear_arith)
            requires
                i + 1 <= n,
                length >= 0,
        ;
        assert(concatenated(leaves).subrange(i * length, i * length + length) =~= concatenated(
            front,
        ).subrange(i * length, i * length + length));
    } else {
        assert(concatenated(leaves).subrange(i * length, i * length + length) =~= leaves.last()@);
    }
}

/// The number of elements of leaves of one length.
proof fn lemma_concatenated_len(leaves: Seq<Vec<u64>>, length: nat)
    requires
        forall|k: int| 0 <= k < leaves.len() ==> #[trigger] leaves[k]@.len() == length,
    ensures
        concatenated(leaves).len() == leaves.len() * length,
    decreases leaves.len(),
{
    if leaves.len() > 0 {
        let front = leaves.drop_last();
        assert forall|k: int| 0 <= k < front.len() implies #[trigger] front[k]@.len() == length by {
            assert(leaves[k]@.len() == length);
        }
        lemma_concatenated_len(front, length);
        assert(leaves[leaves.len() - 1]@.len() == length);
        assert(leaves.len() * length == front.len() * length + length) by (nonlinear_arith)
            requires
                leaves.len() == front.len() + 1,
        ;
    } else {
        assert(0 * length == 0) by (nonlinear_arith);
    }
}

/// The elements of consecutive leaves of one length.
pub proof fn theorem_concatenated_range(leaves: Seq<Vec<u64>>, length: nat, start: int, end: int)
    requires
        forall|k: int| 0 <= k < leaves.len() ==> #[trigger] leaves[k]@.len() == length,
        0 <= start <= end <= leaves.len(),
    ensures
        0 <= start * length,
        start * length <= end * length,
        end * length <= concatenated(leaves).len(),
        concatenated(leaves.subrange(start, end)) == concatenated(leaves).subrange(
            start * length,
            end * length,
        ),
    decreases end - start,
{
    let all = concatenated(leaves);
    lemma_concatenated_len(leaves, length);
    assert(0 <= start * length && start * length <= end * length && end * length <= leaves.len()
        * length) by (nonlinear_arith)
        requires
            0 <= start <= end <= leaves.len(),
            length >= 0,
    ;
    if start < end {
        let last = end - 1;
        theorem_concatenated_range(leaves, length, start, last);
        theorem_concatenated_leaf(leaves, length, last);
        assert(last * length + length == end * length) by (nonlinear_arith)
            requires
                last + 1 == end,
        ;
        assert(leaves.subrange(start, end).drop_last() =~= leaves.subrange(start, last));
        assert(all.subrange(start * length, end * length) =~= all.subrange(
            start * length,
            last * length,
        ) + all.subrange(last * length, end * length));
    } else {
        assert(leaves.subrange(start, end) =~= Seq::empty());
        assert(all.subrange(start * length, end * length) =~= Seq::empty());
    }
}

/// The elements of all leaves, one leaf after another.
pub fn concat(leaves: &Vec<Vec<u64>>) -> (r: Vec<u64>)
    requires
        concatenated(leaves@).len() <= usize::MAX,
    ensures
        r@ == concatenated(leaves@),
{
    let mut r: Vec<u64> = Vec::new();
    let mut i: usize = 0;
    while i < leaves.len()
        invariant
            i <= leaves@.len(),
            r@ == concatenated(leaves@.take(i as int)),
            concatenated(leaves@).len() <= usize::MAX,
        decreases leaves.len() - i,
    {
        proof {
            lemma_concatenated_prefix(leaves@, i + 1);
            assert(leaves@.take(i + 1).drop_last() =~= leaves@.take(i as int));
        }
        flat::append_words(&mut r, &leaves[i]);
        i = i + 1;
    }
    proof {
        assert(leaves@.take(i as int) =~= leaves@);
    }
    r
}

/// Where a tree is built.
#[derive(Clone, Copy, Debug, PartialEq, Eq, Structural)]
pub enum Route {
    /// On the processor.
    Cpu,
    /// On the device, with digests in the recursive layout.
    Recursive,
    /// On the device, by the kernels of the function that was asked.
    Device,
}

/// The smallest height for which the device is used.
pub const MIN_DEVICE_HEIGHT: usize = 13;

/// The smallest height of trees for which the linear layout does not pay.
pub const LARGE_TREE_HEIGHT: usize = 21;

/// A tree to build: where, its height, and its leaves.
#[derive(Debug)]
pub struct RoutedTree {
    pub route: Route,
    pub tree_height: usize,
    pub leaf_length: usize,
    /// The elements of all leaves, where the device hashes them.
    pub leaves: Option<Vec<u64>>,
}

/// Whether a number of leaves with a cap height can be built.
pub open spec fn buildable(leaves: Seq<Vec<u64>>, cap_height: int) -> bool {
    &&& bits::power_of_two(leaves.len() as int)
    &&& cap_height <= bits::log2(leaves.len() as int)
    &&& concatenated(leaves).len() <= usize::MAX
}

/// Whether a tree is too small for the device, or consists of its cap.
pub open spec fn stays_on_cpu(tree_height: int, cap_height: int) -> bool {
    cap_height == tree_height || tree_height < MIN_DEVICE_HEIGHT
}

/// The route where large trees go to `large`.
pub open spec fn route_of(tree_height: int, cap_height: int, large: Route) -> Route {
    if stays_on_cpu(tree_height, cap_height) {
        Route::Cpu
    } else if tree_height >= LARGE_TREE_HEIGHT {
        large
    } else {
        Route::Device
    }
}

/// Whether `r` is the route of the tree with these leaves.
pub open spec fn is_routed(
    leaves: Seq<Vec<u64>>,
    cap_height: int,
    large: Route,
    r: RoutedTree,
) -> bool {
    &&& r.tree_height == bits::log2(leaves.len() as int)
    &&& r.leaf_length == leaves[0]@.len()
    &&& r.route == route_of(r.tree_height as int, cap_height, large)
    &&& r.leaves is Some <==> r.route is Device
    &&& r.leaves matches Some(words) ==> words@ == concatenated(leaves)
}

/// A tree that is its own cap is never for the device, nor one of fewer than `2^13` leaves; one of
/// `2^13` up to `2^20` leaves always is; a larger one goes where large ones go.
pub proof fn theorem_routes(tree_height: int, cap_height: int, large: Route)
    ensures
        cap_height == tree_height ==> route_of(tree_height, cap_height, large) is Cpu,
        tree_height < 13 ==> route_of(tree_height, cap_height, large) is Cpu,
        cap_height != tree_height && 13 <= tree_height <= 20 ==> route_of(
            tree_height,
            cap_height,
            large,
        ) is Device,
        cap_height != tree_height && 21 <= tree_height ==> route_of(tree_height, cap_height, large)
            == large,
{
}

/// The device is handed every leaf, in its place, and is handed leaves only where it is to hash them.
pub proof fn theorem_routed_leaves(
    leaves: Seq<Vec<u64>>,
    cap_height: int,
    large: Route,
    r: RoutedTree,
    i: int,
)
    requires
        is_routed(leaves, cap_height, large, r),
        forall|k: int|
            0 <= k < leaves.len() ==> #[trigger] leaves[k]@.len() == leaves[0]@.len(),
        0 <= i < leaves.len(),
    ensures
        r.leaves matches Some(words) ==> words@.len() == leaves.len() * r.leaf_length
            && words@.subrange(i * r.leaf_length, i * r.leaf_length + r.leaf_length)
            == leaves[i]@,
        r.leaves is Some <==> r.route is Device,
{
    theorem_concatenated_leaf(leaves, leaves[0]@.len(), i);
}

/// Routes a tree, with trees of [`LARGE_TREE_HEIGHT`] and more going to `large`.
pub fn route_tree(leaves: &Vec<Vec<u64>>, cap_height: usize, large: Route) -> (r: RoutedTree)
    requires
        buildable(leaves@, cap_height as int),
    ensures
        is_routed(leaves@, cap_height as int, large, r),
{
    let leaf_count: usize = leaves.len();
    let tree_height: usize = bits::log2_strict(leaf_count);
    proof {
        vstd::arithmetic::power2::lemma_pow2_pos(tree_height as nat);
    }
    let leaf_length: usize = leaves[0].len();
    let route: Route = if cap_height == tree_height || tree_height < MIN_DEVICE_HEIGHT {
        Route::Cpu
    } else if tree_height >= LARGE_TREE_HEIGHT {
        large
    } else {
        Route::Device
    };
    let words: Option<Vec<u64>> = match route {
        Route::Device => Some(concat(leaves)),
        _ => None,
    };
    RoutedTree { route, tree_height, leaf_length, leaves: words }
}

} // verus!
