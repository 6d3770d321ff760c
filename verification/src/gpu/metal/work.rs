//! Everything that a device needs to hash a tree, and what becomes of its results.

use crate::gpu::metal::allocation::{self, Allocation};
use crate::gpu::metal::buffer_pool::{self, Buffer, BufferPool};
use crate::gpu::metal::plan::{
    encode_tree, DigestLayout, GroupSizes, Launch, Recipe, TreeShape,
};
use vstd::arithmetic::power2::*;
use vstd::prelude::*;

verus! {

/// Which buffers are cleared before use.
#[derive(Clone, Copy, Debug, PartialEq, Eq, Structural)]
pub enum ClearPolicy {
    /// Those that the device creates.
    Created,
    /// All.
    All,
}

/// A tree to hash: its shape, its buffers with the bytes of them to clear, and its launches.
#[derive(Debug)]
pub struct TreeWork {
    pub shape: TreeShape,
    pub digests: Allocation,
    pub clear_digests: Option<usize>,
    pub caps: Option<Allocation>,
    pub clear_caps: Option<usize>,
    pub launches: Vec<Launch>,
}

/// Bytes of a digest.
pub const DIGEST_BYTES: usize = 32;

/// The bytes of a new buffer for `bytes` bytes to clear.
pub open spec fn bytes_to_clear(policy: ClearPolicy, from_pool: bool, bytes: int) -> Option<usize> {
    if policy is All || !from_pool {
        Some(allocation::aligned(bytes, allocation::ALIGNMENT as int) as usize)
    } else {
        None
    }
}

/// Whether a buffer for `bytes` bytes was requested, with the bytes of it to clear.
pub open spec fn is_reserved(
    before: &BufferPool,
    policy: ClearPolicy,
    bytes: int,
    allocated: Allocation,
    clear: Option<usize>,
    after: &BufferPool,
) -> bool {
    &&& allocation::is_allocation(before, bytes as usize, allocated, after)
    &&& clear == bytes_to_clear(policy, allocated.spec_from_pool(), bytes)
}

/// What was never in use is cleared: a created buffer from its start on, as far as it was asked for. A
/// buffer of the pool is cleared where all are.
pub proof fn theorem_cleared(
    before: &BufferPool,
    policy: ClearPolicy,
    bytes: usize,
    allocated: Allocation,
    clear: Option<usize>,
    after: &BufferPool,
)
    requires
        bytes <= pow2((usize::BITS - 1) as nat),
        is_reserved(before, policy, bytes as int, allocated, clear, after),
    ensures
        allocated is Create ==> clear is Some,
        allocated is Pooled ==> (clear is Some <==> policy is All),
        clear matches Some(cleared) ==> bytes <= cleared < bytes + 256 && cleared as int % 256 == 0,
        allocated matches Allocation::Create { size } ==> clear->0 <= size,
        allocated matches Allocation::Create { size } ==> bytes <= size,
{
    lemma2_to64();
    lemma2_to64_rest();
    allocation::theorem_aligned(bytes as int, 256);
    if let Allocation::Create { size } = allocated {
        allocation::theorem_created_buffer_suffices(before, bytes, size, after);
    }
}

/// The buffers of a tree have room for its digests and its cap, 32 bytes each, and are cleared where
/// they were never in use.
pub proof fn theorem_tree_buffers(
    before: &BufferPool,
    digest_layout: DigestLayout,
    tree_height: usize,
    cap_height: usize,
    recipe: Recipe,
    policy: ClearPolicy,
    leaf_length: usize,
    sizes: GroupSizes,
    work: TreeWork,
    after: &BufferPool,
)
    requires
        is_tree_work(
            before,
            digest_layout,
            tree_height,
            cap_height,
            recipe,
            policy,
            leaf_length,
            sizes,
            work,
            after,
        ),
    ensures
        ({
            let leaves = pow2((tree_height - cap_height) as nat);
            let subtrees = pow2(cap_height as nat);
            let digests = if digest_layout is Heap {
                (2 * leaves - 1) * subtrees
            } else {
                (2 * leaves - 2) * subtrees
            };
            &&& work.shape.leaf_count == pow2(tree_height as nat)
            &&& work.shape.num_caps == subtrees
            &&& work.shape.total_digests == digests
            &&& work.digests matches Allocation::Create { size } ==> {
                &&& size >= 32 * digests
                &&& work.clear_digests matches Some(cleared) && 32 * digests <= cleared <= size
            }
            &&& policy is All ==> work.clear_digests is Some
            &&& work.caps is Some <==> recipe.caps is Some
            &&& work.caps matches Some(Allocation::Create { size }) ==> {
                &&& size >= 32 * subtrees
                &&& work.clear_caps matches Some(cleared) && 32 * subtrees <= cleared <= size
            }
            &&& policy is All && work.caps is Some ==> work.clear_caps is Some
        }),
{
    let shape = work.shape;
    shape.lemma_bounds();
    let digest_bytes = (shape.total_digests * 32) as usize;
    let cap_bytes = (shape.num_caps * 32) as usize;
    match work.caps {
        Some(caps) => {
            let between = choose|between: BufferPool| #[trigger]
                are_reserved(before, policy, work, caps, &between, after);
            theorem_cleared(
                before,
                policy,
                digest_bytes,
                work.digests,
                work.clear_digests,
                &between,
            );
            theorem_cleared(&between, policy, cap_bytes, caps, work.clear_caps, after);
        },
        None => {
            theorem_cleared(
                before,
                policy,
                digest_bytes,
                work.digests,
                work.clear_digests,
                after,
            );
        },
    }
}

/// The digests are served first: where the pool has a buffer of their class, they get the one that came
/// back last, and else a new one.
pub proof fn theorem_digests_come_first(
    before: &BufferPool,
    policy: ClearPolicy,
    work: TreeWork,
    caps: Allocation,
    between: &BufferPool,
    after: &BufferPool,
)
    requires
        work.shape.valid(),
        are_reserved(before, policy, work, caps, between, after),
    ensures
        ({
            let bytes = allocation::aligned(32 * work.shape.total_digests, 256);
            let free = before.stack(buffer_pool::class_of(bytes));
            if free.len() > 0 {
                work.digests == Allocation::Pooled(free.last())
            } else {
                work.digests is Create
            }
        }),
        ({
            let bytes = allocation::aligned(32 * work.shape.num_caps, 256);
            let free = between.stack(buffer_pool::class_of(bytes));
            if free.len() > 0 {
                caps == Allocation::Pooled(free.last())
            } else {
                caps is Create
            }
        }),
{
    work.shape.lemma_bounds();
    allocation::theorem_pool_comes_first(
        before,
        (work.shape.total_digests * 32) as usize,
        work.digests,
        between,
    );
    allocation::theorem_pool_comes_first(
        between,
        (work.shape.num_caps * 32) as usize,
        caps,
        after,
    );
}

/// Requests a buffer for `bytes` bytes.
pub fn reserve(pool: &mut BufferPool, policy: ClearPolicy, bytes: usize) -> (r: (
    Allocation,
    Option<usize>,
))
    requires
        old(pool).wf(),
        bytes <= pow2((usize::BITS - 1) as nat),
    ensures
        final(pool).wf(),
        is_reserved(old(pool), policy, bytes as int, r.0, r.1, final(pool)),
{
    let allocated: Allocation = allocation::allocate(pool, bytes);
    let all: bool = match policy {
        ClearPolicy::All => true,
        ClearPolicy::Created => false,
    };
    proof {
        lemma2_to64();
        lemma2_to64_rest();
    }
    let clear: Option<usize> = if all || !allocated.from_pool() {
        Some(allocation::align_to_256(bytes))
    } else {
        None
    };
    (allocated, clear)
}

/// Whether the digests of a tree were requested first, and its cap then.
pub open spec fn are_reserved(
    before: &BufferPool,
    policy: ClearPolicy,
    work: TreeWork,
    caps: Allocation,
    between: &BufferPool,
    after: &BufferPool,
) -> bool {
    &&& is_reserved(
        before,
        policy,
        work.shape.total_digests * DIGEST_BYTES,
        work.digests,
        work.clear_digests,
        between,
    )
    &&& is_reserved(
        between,
        policy,
        work.shape.num_caps * DIGEST_BYTES,
        caps,
        work.clear_caps,
        after,
    )
}

/// Whether `work` is the plan of a tree, with its buffers requested from the pool: first the
/// digests, then the cap where the device computes it.
pub open spec fn is_tree_work(
    before: &BufferPool,
    digest_layout: DigestLayout,
    tree_height: usize,
    cap_height: usize,
    recipe: Recipe,
    policy: ClearPolicy,
    leaf_length: usize,
    sizes: GroupSizes,
    work: TreeWork,
    after: &BufferPool,
) -> bool {
    let shape = work.shape;
    &&& shape.wf(digest_layout)
    &&& shape.tree_height == tree_height
    &&& shape.cap_height == cap_height
    &&& work.launches@ == crate::gpu::metal::plan::tree_schedule(shape, recipe, leaf_length, sizes)
    &&& match work.caps {
        Some(caps) => {
            &&& recipe.caps is Some
            &&& exists|between: BufferPool| #[trigger]
                are_reserved(before, policy, work, caps, &between, after)
        },
        None => {
            &&& recipe.caps is None
            &&& work.clear_caps is None
            &&& is_reserved(
                before,
                policy,
                shape.total_digests * DIGEST_BYTES,
                work.digests,
                work.clear_digests,
                after,
            )
        },
    }
}

/// Plans a tree and requests its buffers.
pub fn plan_tree(
    pool: &mut BufferPool,
    digest_layout: DigestLayout,
    tree_height: usize,
    cap_height: usize,
    recipe: &Recipe,
    policy: ClearPolicy,
    leaf_length: usize,
    sizes: &GroupSizes,
) -> (work: TreeWork)
    requires
        old(pool).wf(),
        TreeShape::plannable(tree_height as int, cap_height as int),
        sizes.ok(),
    ensures
        final(pool).wf(),
        is_tree_work(
            old(pool),
            digest_layout,
            tree_height,
            cap_height,
            *recipe,
            policy,
            leaf_length,
            *sizes,
            work,
            final(pool),
        ),
{
    let shape: TreeShape = TreeShape::new(digest_layout, tree_height, cap_height);
    proof {
        shape.lemma_bounds();
    }
    let (digests, clear_digests) = reserve(pool, policy, shape.total_digests * DIGEST_BYTES);
    let ghost between: BufferPool = *pool;
    let mut caps: Option<Allocation> = None;
    let mut clear_caps: Option<usize> = None;
    if recipe.caps.is_some() {
        let (allocated, clear) = reserve(pool, policy, shape.num_caps * DIGEST_BYTES);
        caps = Some(allocated);
        clear_caps = clear;
    }
    let launches: Vec<Launch> = encode_tree(&shape, recipe, leaf_length, sizes);
    let work: TreeWork = TreeWork { shape, digests, clear_digests, caps, clear_caps, launches };
    proof {
        if recipe.caps is Some {
            assert(are_reserved(old(pool), policy, work, caps->0, &between, pool));
        }
    }
    work
}

/// Whether two buffers were given back, the digests first.
pub open spec fn is_returned(
    before: &BufferPool,
    digests: Buffer,
    caps: Buffer,
    after: &BufferPool,
) -> bool {
    exists|between: BufferPool|
        #[trigger] buffer_pool::is_put(before, digests, &between) && buffer_pool::is_put(
            &between,
            caps,
            after,
        )
}

/// Buffers that a pool has room for are both in it once they are given back: the next requests for their
/// classes get the cap's first, where the classes are the same, and the digests' then.
pub proof fn theorem_returned(
    before: &BufferPool,
    digests: Buffer,
    caps: Buffer,
    after: &BufferPool,
    caps_size: usize,
    found_caps: Option<Buffer>,
    between: &BufferPool,
    digests_size: usize,
    found_digests: Option<Buffer>,
    last: &BufferPool,
)
    requires
        is_returned(before, digests, caps, after),
        before.spec_bytes() + buffer_pool::class_of(digests.length as int) + buffer_pool::class_of(
            caps.length as int,
        ) <= buffer_pool::MAX_POOL_BYTES,
        0 <= buffer_pool::class_of(caps.length as int),
        buffer_pool::class_of(caps_size as int) == buffer_pool::class_of(caps.length as int),
        buffer_pool::class_of(digests_size as int) == buffer_pool::class_of(digests.length as int),
        buffer_pool::is_get(after, caps_size, found_caps, between),
        buffer_pool::is_get(between, digests_size, found_digests, last),
    ensures
        found_caps == Some(caps),
        found_digests == Some(digests),
        last.spec_bytes() == before.spec_bytes(),
        forall|class: int| #[trigger] last.stack(class) == before.stack(class),
{
    let middle = choose|middle: BufferPool|
        #[trigger] buffer_pool::is_put(before, digests, &middle) && buffer_pool::is_put(
            &middle,
            caps,
            after,
        );
    buffer_pool::theorem_put_then_get(&middle, caps, after, caps_size, found_caps, between);
    let class = buffer_pool::class_of(digests.length as int);
    assert(between.stack(class) == middle.stack(class));
    assert(middle.stack(class) == before.stack(class).push(digests));
    assert(before.stack(class).push(digests).drop_last() =~= before.stack(class));
    assert forall|other: int| #[trigger] last.stack(other) == before.stack(other) by {
        if other != class {
            assert(last.stack(other) == between.stack(other));
            assert(between.stack(other) == middle.stack(other));
            assert(middle.stack(other) == before.stack(other));
        }
    }
}

/// Gives the buffers of a tree back.
pub fn return_buffers(pool: &mut BufferPool, digests: Buffer, caps: Buffer)
    requires
        old(pool).wf(),
        digests.length <= pow2((usize::BITS - 1) as nat),
        caps.length <= pow2((usize::BITS - 1) as nat),
    ensures
        final(pool).wf(),
        is_returned(old(pool), digests, caps, final(pool)),
{
    pool.put(digests);
    let ghost between: BufferPool = *pool;
    pool.put(caps);
    proof {
        assert(buffer_pool::is_put(old(pool), digests, &between));
    }
}

} // verus!
