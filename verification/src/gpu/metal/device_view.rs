//! What the device is handed for a launch: its parameters as words, its flags, and its shared memory.

use crate::bits;
use crate::gpu::metal::coalesced_kernels;
use crate::gpu::metal::coalesced_plan::{self, CoalescedKernels, CoalescedSizes};
use crate::gpu::metal::layout;
use crate::gpu::metal::merkle_coalesced;
use crate::gpu::metal::merkle_linear;
use crate::gpu::metal::merkle_linear_threadgroup;
use crate::gpu::metal::merkle_threadgroup;
use crate::gpu::metal::pipeline::{Kernel, ShaderLibrary};
use crate::gpu::metal::plan::{
    self, DigestLayout, Grid, GroupSizes, Launch, MemoryPolicy, Phase, Recipe, RecursiveUniforms,
    TgFlags, TreeShape, TreeUniforms,
};
use crate::gpu::metal::tree_kernels;
use crate::gpu::metal::utils::{
    CoalescedUniforms, HashOut, LinearUniforms, POSEIDON_CONST_SIZE, POSEIDON_MDS_SIZE,
    POSEIDON_RC_SIZE,
};
use vstd::arithmetic::power2::*;
use vstd::prelude::*;

verus! {

/// Whether a kernel works on the recursive layout.
pub open spec fn is_recursive(kernel: Kernel) -> bool {
    ||| kernel is HashLeaves
    ||| kernel is HashTreeLevel
    ||| kernel is HashLeavesThreadgroup
    ||| kernel is HashTreeLevelThreadgroup
}

/// Whether a kernel runs on a grid of nodes by subtrees.
pub open spec fn is_coalesced(kernel: Kernel) -> bool {
    ||| kernel is HashLeavesCoalesced
    ||| kernel is HashTreeLevelCoalesced
    ||| kernel is HashCapsCoalesced
    ||| kernel is HashTreeLevelCoalescedInstrumented
}

/// Whether the threads of a group share memory.
pub open spec fn shares_memory(kernel: Kernel) -> bool {
    ||| is_coalesced(kernel)
    ||| kernel is HashLeavesThreadgroup
    ||| kernel is HashTreeLevelThreadgroup
    ||| kernel is HashLeavesLinearThreadgroup
    ||| kernel is HashLeavesAndLevel1LinearThreadgroup
    ||| kernel is HashTreeLevelLinearThreadgroup
    ||| kernel is HashCapsLinearThreadgroup
}

/// A kernel's library is that of its layout and of how its threads work together.
pub proof fn theorem_libraries(kernel: Kernel)
    ensures
        kernel.spec_library() is Coalesced <==> is_coalesced(kernel),
        kernel.spec_library() is Base <==> is_recursive(kernel) && !shares_memory(kernel),
        kernel.spec_library() is Threadgroup <==> is_recursive(kernel) && shares_memory(kernel),
        kernel.spec_library() is Linear <==> !is_recursive(kernel) && !shares_memory(kernel),
        kernel.spec_library() is LinearThreadgroup <==> !is_recursive(kernel) && !is_coalesced(
            kernel,
        ) && shares_memory(kernel),
{
}

/// The name of every library begins as that of the base library, and goes on with what sets it apart.
pub proof fn theorem_library_names()
    ensures
        ShaderLibrary::Base.spec_file_stem() == "poseidon_merkle_hasher"@,
        ShaderLibrary::Linear.spec_file_stem() == ShaderLibrary::Base.spec_file_stem() + "_linear"@,
        ShaderLibrary::Threadgroup.spec_file_stem() == ShaderLibrary::Base.spec_file_stem()
            + "_threadgroup"@,
        ShaderLibrary::LinearThreadgroup.spec_file_stem() == ShaderLibrary::Linear.spec_file_stem()
            + "_threadgroup"@,
        ShaderLibrary::Coalesced.spec_file_stem() == ShaderLibrary::Base.spec_file_stem()
            + "_coalesced"@,
{
    reveal_strlit("poseidon_merkle_hasher");
    reveal_strlit("poseidon_merkle_hasher_linear");
    reveal_strlit("poseidon_merkle_hasher_threadgroup");
    reveal_strlit("poseidon_merkle_hasher_linear_threadgroup");
    reveal_strlit("poseidon_merkle_hasher_coalesced");
    reveal_strlit("_linear");
    reveal_strlit("_threadgroup");
    reveal_strlit("_coalesced");
    assert(ShaderLibrary::Linear.spec_file_stem() =~= ShaderLibrary::Base.spec_file_stem()
        + "_linear"@);
    assert(ShaderLibrary::Threadgroup.spec_file_stem() =~= ShaderLibrary::Base.spec_file_stem()
        + "_threadgroup"@);
    assert(ShaderLibrary::LinearThreadgroup.spec_file_stem()
        =~= ShaderLibrary::Linear.spec_file_stem() + "_threadgroup"@);
    assert(ShaderLibrary::Coalesced.spec_file_stem() =~= ShaderLibrary::Base.spec_file_stem()
        + "_coalesced"@);
}

/// The parameters that a kernel reads from its words.
pub open spec fn read_parameters(kernel: Kernel, words: Seq<u32>) -> TreeUniforms {
    if is_recursive(kernel) {
        TreeUniforms::Recursive(
            RecursiveUniforms {
                level: words[0],
                tree_length: words[1],
                num_layers: words[2],
                leaf_length: words[3],
                leaf_count: words[4],
                grid_width: words[5],
            },
        )
    } else if is_coalesced(kernel) {
        TreeUniforms::Coalesced(
            CoalescedUniforms {
                level: words[0],
                subtree_digests_len: words[1],
                subtree_leaves_len: words[2],
                leaf_size: words[3],
                leaf_count: words[4],
                subtree_count: words[5],
                nodes_per_subtree: words[6],
                nodes_per_dispatch: words[7],
                dispatch_offset: words[8],
                enable_counters: words[9],
            },
        )
    } else {
        TreeUniforms::Linear(
            LinearUniforms {
                level: words[0],
                subtree_digests_len: words[1],
                subtree_leaves_len: words[2],
                leaf_size: words[3],
                leaf_count: words[4],
                subtree_count: words[5],
                grid_width: words[6],
            },
        )
    }
}

/// A launch as its kernel sees it, which has the parameters as words only.
pub open spec fn received(l: Launch) -> Launch {
    Launch { uniforms: read_parameters(l.kernel, l.uniforms.spec_words()), ..l }
}

/// Launches as their kernels see them.
pub open spec fn all_received(launches: Seq<Launch>) -> Seq<Launch> {
    Seq::new(launches.len(), |i: int| received(launches[i]))
}

/// Whether a launch's parameters are of the kind that its kernel reads.
pub open spec fn is_addressed(l: Launch) -> bool {
    &&& l.uniforms is Recursive <==> is_recursive(l.kernel)
    &&& l.uniforms is Coalesced <==> is_coalesced(l.kernel)
}

/// Which word holds which parameter.
pub proof fn theorem_words(u: TreeUniforms)
    ensures
        u matches TreeUniforms::Recursive(r) ==> {
            &&& u.spec_words().len() == 6
            &&& u.spec_words()[0] == r.level
            &&& u.spec_words()[1] == r.tree_length
            &&& u.spec_words()[2] == r.num_layers
            &&& u.spec_words()[3] == r.leaf_length
            &&& u.spec_words()[4] == r.leaf_count
            &&& u.spec_words()[5] == r.grid_width
        },
        u matches TreeUniforms::Linear(r) ==> {
            &&& u.spec_words().len() == 7
            &&& u.spec_words()[0] == r.level
            &&& u.spec_words()[1] == r.subtree_digests_len
            &&& u.spec_words()[2] == r.subtree_leaves_len
            &&& u.spec_words()[3] == r.leaf_size
            &&& u.spec_words()[4] == r.leaf_count
            &&& u.spec_words()[5] == r.subtree_count
            &&& u.spec_words()[6] == r.grid_width
        },
        u matches TreeUniforms::Coalesced(r) ==> {
            &&& u.spec_words().len() == 10
            &&& u.spec_words()[0] == r.level
            &&& u.spec_words()[1] == r.subtree_digests_len
            &&& u.spec_words()[2] == r.subtree_leaves_len
            &&& u.spec_words()[3] == r.leaf_size
            &&& u.spec_words()[4] == r.leaf_count
            &&& u.spec_words()[5] == r.subtree_count
            &&& u.spec_words()[6] == r.nodes_per_subtree
            &&& u.spec_words()[7] == r.nodes_per_dispatch
            &&& u.spec_words()[8] == r.dispatch_offset
            &&& u.spec_words()[9] == r.enable_counters
        },
{
}

/// A kernel reads from the words what the launch was planned with.
pub proof fn theorem_received(l: Launch)
    requires
        is_addressed(l),
    ensures
        received(l) == l,
{
    theorem_words(l.uniforms);
}

/// Whether the kernels of a recipe read the parameters that it has for them, and share memory exactly
/// where it is set.
pub open spec fn is_fitting(recipe: Recipe) -> bool {
    &&& fits(recipe, recipe.leaves)
    &&& fits(recipe, recipe.level)
    &&& recipe.caps matches Some(kernel) ==> fits(recipe, kernel)
}

/// Whether a kernel of a recipe reads the parameters that it has for it, and shares memory exactly where
/// it is set.
pub open spec fn fits(recipe: Recipe, kernel: Kernel) -> bool {
    &&& !is_coalesced(kernel)
    &&& recipe.uniforms is Recursive <==> is_recursive(kernel)
    &&& recipe.memory is Unset <==> !shares_memory(kernel)
}

/// All recipes are fitting.
pub proof fn theorem_recipes_fit(num_layers: int, flags: TgFlags)
    ensures
        is_fitting(merkle_linear::linear_recipe()),
        is_fitting(merkle_threadgroup::threadgroup_recipe()),
        is_fitting(merkle_linear_threadgroup::linear_threadgroup_recipe(num_layers, flags)),
        is_fitting(crate::hash::metal::merkle::linear_threadgroup_recipe()),
        is_coalesced(coalesced_plan::coalesced_kernels().leaves),
        is_coalesced(coalesced_plan::coalesced_kernels().level),
        is_coalesced(coalesced_plan::coalesced_kernels().caps),
{
}

/// The kernels of every recipe run on what they are made for: leaf kernels on leaves, level kernels on
/// levels, cap kernels on the cap. The processor computes the cap only of trees in the recursive layout.
/// Flags are handed to the kernels exactly where the caller chooses them.
pub proof fn theorem_recipe_kernels(num_layers: int, flags: TgFlags)
    ensures
        ({
            let r = merkle_linear::linear_recipe();
            &&& r.leaves is HashLeavesLinear
            &&& r.level is HashTreeLevelLinear
            &&& r.caps == Some(Kernel::HashCapsLinear)
            &&& r.memory is Unset
        }),
        ({
            let r = merkle_threadgroup::threadgroup_recipe();
            &&& r.leaves is HashLeavesThreadgroup
            &&& r.level is HashTreeLevelThreadgroup
            &&& r.caps is None
            &&& r.memory is Full
        }),
        ({
            let r = merkle_linear_threadgroup::linear_threadgroup_recipe(num_layers, flags);
            &&& num_layers > 1 ==> r.leaves is HashLeavesAndLevel1LinearThreadgroup
            &&& num_layers <= 1 ==> r.leaves is HashLeavesLinearThreadgroup
            &&& r.fused == (num_layers > 1)
            &&& r.level is HashTreeLevelLinearThreadgroup
            &&& r.caps == Some(Kernel::HashCapsLinearThreadgroup)
            &&& r.memory == MemoryPolicy::Flagged(flags)
        }),
        ({
            let r = crate::hash::metal::merkle::linear_threadgroup_recipe();
            &&& r.leaves is HashLeavesLinearThreadgroup
            &&& r.level is HashTreeLevelLinearThreadgroup
            &&& r.caps == Some(Kernel::HashCapsLinearThreadgroup)
            &&& r.memory is Full
        }),
        coalesced_plan::coalesced_kernels().leaves is HashLeavesCoalesced,
        coalesced_plan::coalesced_kernels().level is HashTreeLevelCoalesced,
        coalesced_plan::coalesced_kernels().caps is HashCapsCoalesced,
{
}

/// The kernels of a tree read from the words what its launches were planned with.
pub proof fn theorem_tree_received(
    shape: TreeShape,
    recipe: Recipe,
    leaf_length: usize,
    sizes: GroupSizes,
)
    requires
        is_fitting(recipe),
    ensures
        all_received(plan::tree_schedule(shape, recipe, leaf_length, sizes))
            == plan::tree_schedule(shape, recipe, leaf_length, sizes),
{
    let schedule = plan::tree_schedule(shape, recipe, leaf_length, sizes);
    assert forall|i: int| 0 <= i < schedule.len() implies received(#[trigger] schedule[i])
        == schedule[i] by {
        assert(is_addressed(schedule[i]));
        theorem_received(schedule[i]);
    }
    assert(all_received(schedule) =~= schedule);
}

/// The kernels of a coalesced tree read from the words what its launches were planned with.
pub proof fn theorem_coalesced_tree_received(
    shape: TreeShape,
    kernels: CoalescedKernels,
    leaf_length: usize,
    sizes: CoalescedSizes,
)
    requires
        is_coalesced(kernels.leaves),
        is_coalesced(kernels.level),
        is_coalesced(kernels.caps),
    ensures
        all_received(coalesced_plan::coalesced_schedule(shape, kernels, leaf_length, sizes))
            == coalesced_plan::coalesced_schedule(shape, kernels, leaf_length, sizes),
{
    let schedule = coalesced_plan::coalesced_schedule(shape, kernels, leaf_length, sizes);
    assert forall|i: int| 0 <= i < schedule.len() implies received(#[trigger] schedule[i])
        == schedule[i] by {
        assert(is_addressed(schedule[i]));
        theorem_received(schedule[i]);
    }
    assert(all_received(schedule) =~= schedule);
}

/// Kernels that have the parameters as words only leave the nodes of the tree, each in its place.
pub proof fn theorem_hashed_from_words(
    shape: TreeShape,
    recipe: Recipe,
    leaf_length: usize,
    sizes: GroupSizes,
    words: Seq<u64>,
    hash: spec_fn(Seq<u64>) -> HashOut,
    compress: spec_fn(HashOut, HashOut) -> HashOut,
    states: Seq<Seq<HashOut>>,
)
    requires
        shape.valid(),
        is_fitting(recipe),
        tree_kernels::fits_device(shape, leaf_length, sizes),
        tree_kernels::consistent(shape, recipe),
        tree_kernels::is_run(
            all_received(tree_kernels::tree_body(shape, recipe, leaf_length, sizes)),
            words,
            hash,
            compress,
            states,
        ),
    ensures
        shape.wf(DigestLayout::Heap) && recipe.uniforms is Linear ==> tree_kernels::holds_heaps(
            shape,
            words,
            leaf_length as int,
            hash,
            compress,
            states.last(),
        ),
        shape.wf(DigestLayout::Rootless) && recipe.uniforms is Linear
            ==> tree_kernels::holds_rootless_heaps(
            shape,
            words,
            leaf_length as int,
            hash,
            compress,
            states.last(),
        ),
        shape.wf(DigestLayout::Rootless) && recipe.uniforms is Recursive
            ==> tree_kernels::holds_recursive(
            shape,
            layout::subtree_slots(shape.num_layers as nat),
            words,
            leaf_length as int,
            hash,
            compress,
            states.last(),
        ),
{
    let schedule = plan::tree_schedule(shape, recipe, leaf_length, sizes);
    let body = tree_kernels::tree_body(shape, recipe, leaf_length, sizes);
    theorem_tree_received(shape, recipe, leaf_length, sizes);
    assert(all_received(body) =~= body) by {
        assert forall|i: int| 0 <= i < body.len() implies received(#[trigger] body[i])
            == body[i] by {
            assert(body[i] == schedule[i]);
            assert(all_received(schedule)[i] == schedule[i]);
        }
    }
    if shape.wf(DigestLayout::Heap) && recipe.uniforms is Linear {
        tree_kernels::theorem_heaps_are_hashed(
            shape,
            recipe,
            leaf_length,
            sizes,
            words,
            hash,
            compress,
            states,
        );
    }
    if shape.wf(DigestLayout::Rootless) {
        plan::theorem_rootless_digest_count(shape);
        if recipe.uniforms is Linear {
            tree_kernels::theorem_rootless_heaps_are_hashed(
                shape,
                recipe,
                leaf_length,
                sizes,
                words,
                hash,
                compress,
                states,
            );
        } else {
            tree_kernels::theorem_recursive_layout_is_hashed(
                shape,
                recipe,
                leaf_length,
                sizes,
                words,
                hash,
                compress,
                states,
            );
        }
    }
}

/// The kernel of the cap, which has the parameters as words only, leaves the roots of the subtrees.
pub proof fn theorem_cap_from_words(
    shape: TreeShape,
    recipe: Recipe,
    leaf_length: usize,
    sizes: GroupSizes,
    words: Seq<u64>,
    hash: spec_fn(Seq<u64>) -> HashOut,
    compress: spec_fn(HashOut, HashOut) -> HashOut,
    states: Seq<Seq<HashOut>>,
    caps: Seq<HashOut>,
)
    requires
        shape.valid(),
        recipe.caps is Some,
        is_fitting(recipe),
        tree_kernels::fits_device(shape, leaf_length, sizes),
        tree_kernels::consistent(shape, recipe),
        tree_kernels::is_run(
            all_received(tree_kernels::tree_body(shape, recipe, leaf_length, sizes)),
            words,
            hash,
            compress,
            states,
        ),
        tree_kernels::hashes_caps(
            received(plan::tree_schedule(shape, recipe, leaf_length, sizes).last()),
            compress,
            shape.num_layers as nat,
            states.last(),
            caps,
        ),
    ensures
        tree_kernels::are_roots(shape, words, leaf_length as int, hash, compress, caps),
{
    let schedule = plan::tree_schedule(shape, recipe, leaf_length, sizes);
    let body = tree_kernels::tree_body(shape, recipe, leaf_length, sizes);
    theorem_tree_received(shape, recipe, leaf_length, sizes);
    assert(all_received(body) =~= body) by {
        assert forall|i: int| 0 <= i < body.len() implies received(#[trigger] body[i])
            == body[i] by {
            assert(body[i] == schedule[i]);
            assert(all_received(schedule)[i] == schedule[i]);
        }
    }
    assert(all_received(schedule)[schedule.len() - 1] == schedule.last());
    tree_kernels::theorem_cap_is_hashed(
        shape,
        recipe,
        leaf_length,
        sizes,
        words,
        hash,
        compress,
        states,
        caps,
    );
}

/// Coalesced kernels that have the parameters as words only leave the nodes of the tree, each in its
/// place, and the roots of the subtrees.
pub proof fn theorem_coalesced_hashed_from_words(
    shape: TreeShape,
    leaf_length: usize,
    sizes: CoalescedSizes,
    words: Seq<u64>,
    hash: spec_fn(Seq<u64>) -> HashOut,
    compress: spec_fn(HashOut, HashOut) -> HashOut,
    states: Seq<Seq<HashOut>>,
    caps: Seq<HashOut>,
)
    requires
        shape.valid(),
        coalesced_kernels::fits_device(shape, leaf_length),
        tree_kernels::is_run(
            all_received(
                coalesced_plan::coalesced_schedule(
                    shape,
                    coalesced_plan::coalesced_kernels(),
                    leaf_length,
                    sizes,
                ).drop_last(),
            ),
            words,
            hash,
            compress,
            states,
        ),
        tree_kernels::hashes_caps(
            received(
                coalesced_plan::coalesced_schedule(
                    shape,
                    coalesced_plan::coalesced_kernels(),
                    leaf_length,
                    sizes,
                ).last(),
            ),
            compress,
            shape.num_layers as nat,
            states.last(),
            caps,
        ),
    ensures
        shape.wf(DigestLayout::Heap) ==> tree_kernels::holds_heaps(
            shape,
            words,
            leaf_length as int,
            hash,
            compress,
            states.last(),
        ),
        shape.wf(DigestLayout::Rootless) ==> tree_kernels::holds_rootless_heaps(
            shape,
            words,
            leaf_length as int,
            hash,
            compress,
            states.last(),
        ),
        tree_kernels::are_roots(shape, words, leaf_length as int, hash, compress, caps),
{
    let kernels = coalesced_plan::coalesced_kernels();
    let schedule = coalesced_plan::coalesced_schedule(shape, kernels, leaf_length, sizes);
    let body = schedule.drop_last();
    theorem_coalesced_tree_received(shape, kernels, leaf_length, sizes);
    assert(all_received(body) =~= body) by {
        assert forall|i: int| 0 <= i < body.len() implies received(#[trigger] body[i])
            == body[i] by {
            assert(body[i] == schedule[i]);
            assert(all_received(schedule)[i] == schedule[i]);
        }
    }
    assert(all_received(schedule)[schedule.len() - 1] == schedule.last());
    if shape.wf(DigestLayout::Heap) {
        coalesced_kernels::theorem_heaps_are_hashed(
            shape,
            kernels,
            leaf_length,
            sizes,
            words,
            hash,
            compress,
            states,
        );
    }
    if shape.wf(DigestLayout::Rootless) {
        coalesced_kernels::theorem_rootless_heaps_are_hashed(
            shape,
            kernels,
            leaf_length,
            sizes,
            words,
            hash,
            compress,
            states,
        );
    }
    coalesced_kernels::theorem_cap_is_hashed(
        shape,
        kernels,
        leaf_length,
        sizes,
        words,
        hash,
        compress,
        states,
        caps,
    );
}

/// Whether a launch's kernel keeps the constants of the hash function in shared memory: it does, unless
/// it is handed flags without bit 0.
pub open spec fn keeps_constants(l: Launch) -> bool {
    shares_memory(l.kernel) && (l.flags matches Some(word) ==> word % 2 == 1)
}

/// Whether a launch's kernel keeps children in shared memory: on inner levels it does, unless it is
/// handed flags without bit 1.
pub open spec fn keeps_children(l: Launch) -> bool {
    shares_memory(l.kernel) && l.phase is Level && (l.flags matches Some(word) ==> (word / 2) % 2
        == 1)
}

/// The bytes that the threads of a group keep in shared memory: 2976 for the constants, and the two
/// digests of 32 bytes of its children for each thread.
pub open spec fn kept_bytes(l: Launch) -> int {
    (if keeps_constants(l) {
        2976int
    } else {
        0
    }) + (if keeps_children(l) {
        2 * 32 * l.threads_per_group.width
    } else {
        0
    })
}

/// Whether a launch's kernel has the shared memory that it needs, and no more.
pub open spec fn has_memory(l: Launch) -> bool {
    if shares_memory(l.kernel) {
        l.threadgroup_memory matches Some(bytes) && bytes == kept_bytes(l)
    } else {
        l.threadgroup_memory is None
    }
}

/// The constants of the hash function are eight bytes for each of twelve elements: those of thirty rounds,
/// and the mixing matrix, which is given by one row.
pub proof fn theorem_constant_sizes()
    ensures
        POSEIDON_RC_SIZE == 30 * 12 * 8,
        POSEIDON_MDS_SIZE == 12 * 8,
        POSEIDON_RC_SIZE + POSEIDON_MDS_SIZE == POSEIDON_CONST_SIZE,
{
}

/// The flags word says what the flags say: bit 0 the constants, bit 1 the children, no other bit is set.
pub proof fn theorem_flags_word(flags: TgFlags)
    ensures
        flags.spec_word() < 4,
        (flags.spec_word() % 2 == 1) == flags.constants,
        ((flags.spec_word() / 2) % 2 == 1) == flags.child_cache,
{
}

/// The memory of a group holds the constants and, on inner levels, 64 bytes for each thread, as far as
/// the policy has them kept.
pub proof fn theorem_group_memory(policy: MemoryPolicy, phase: Phase, threads: usize)
    requires
        plan::group_size_ok(threads),
    ensures
        policy is Unset <==> plan::group_memory(policy, phase, threads as int) is None,
        plan::group_memory(policy, phase, threads as int) matches Some(bytes) ==> {
            let constants = policy is Full || policy->Flagged_0.constants;
            let children = phase is Level && (policy is Full || policy->Flagged_0.child_cache);
            &&& constants ==> bytes >= 2976
            &&& children ==> bytes >= 64 * threads
            &&& constants && children ==> bytes >= 2976 + 64 * threads
            &&& !children ==> bytes <= 2976
            &&& !constants ==> bytes <= 64 * threads
            &&& !constants && !children ==> bytes == 0
            &&& bytes <= 2976 + 64 * threads
        },
{
}

/// Every launch of a tree, that of the cap too, has the memory for what its kernel keeps, and hands on
/// the flags that the policy holds.
pub proof fn theorem_tree_memory(
    shape: TreeShape,
    recipe: Recipe,
    leaf_length: usize,
    sizes: GroupSizes,
    i: int,
)
    requires
        shape.valid(),
        is_fitting(recipe),
        sizes.ok(),
        0 <= i < plan::tree_schedule(shape, recipe, leaf_length, sizes).len(),
    ensures
        ({
            let l = plan::tree_schedule(shape, recipe, leaf_length, sizes)[i];
            &&& has_memory(l)
            &&& l.flags is Some <==> recipe.memory is Flagged
            &&& l.flags matches Some(word) ==> {
                &&& word < 4
                &&& (word % 2 == 1) == recipe.memory->Flagged_0.constants
                &&& ((word / 2) % 2 == 1) == recipe.memory->Flagged_0.child_cache
            }
        }),
{
    let l = plan::tree_schedule(shape, recipe, leaf_length, sizes)[i];
    shape.lemma_bounds();
    if recipe.memory is Flagged {
        theorem_flags_word(recipe.memory->Flagged_0);
    }
    assert(sizes.level * 64 == 64 * sizes.level);
}

/// Every launch of a coalesced tree has the memory for what its kernel keeps.
pub proof fn theorem_coalesced_memory(
    shape: TreeShape,
    kernels: CoalescedKernels,
    leaf_length: usize,
    sizes: CoalescedSizes,
    i: int,
)
    requires
        is_coalesced(kernels.leaves),
        is_coalesced(kernels.level),
        is_coalesced(kernels.caps),
        sizes.ok(shape.num_layers as int),
        0 <= i < coalesced_plan::coalesced_schedule(shape, kernels, leaf_length, sizes).len(),
    ensures
        has_memory(coalesced_plan::coalesced_schedule(shape, kernels, leaf_length, sizes)[i]),
{
    if 1 <= i < shape.num_layers {
        let threads = sizes.levels@[i - 1];
        assert(plan::group_size_ok(threads));
        theorem_group_memory(MemoryPolicy::Full, Phase::Level, threads);
        assert(threads as u64 == threads);
        let schedule = coalesced_plan::coalesced_schedule(shape, kernels, leaf_length, sizes);
        assert(schedule[i].threadgroup_memory == plan::group_memory(
            MemoryPolicy::Full,
            Phase::Level,
            threads as int,
        ));
        assert(schedule[i].threads_per_group.width == threads);
        assert(schedule[i].phase is Level);
        assert(schedule[i].flags is None);
        assert(keeps_children(schedule[i]));
    }
}

/// Every launch of a tree whose leaves or levels are hashed in chunks has the memory for what its kernel
/// keeps.
pub proof fn theorem_chunk_memory(
    kernel: Kernel,
    chunk_size: int,
    leaf_length: usize,
    level: usize,
    digests_len: usize,
    leaves_len: usize,
    num_caps: usize,
    threads: Seq<usize>,
    i: int,
)
    requires
        is_coalesced(kernel),
        0 <= i < threads.len(),
        plan::group_size_ok(threads[i]),
    ensures
        ({
            let leaves = merkle_coalesced::leaf_chunk_schedule(
                kernel,
                chunk_size,
                leaf_length,
                digests_len,
                leaves_len,
                num_caps,
                threads[i],
            );
            i < leaves.len() ==> has_memory(leaves[i])
        }),
        ({
            let nodes = merkle_coalesced::level_chunk_schedule(
                kernel,
                chunk_size,
                level,
                digests_len,
                leaves_len,
                num_caps,
                threads,
            );
            i < nodes.len() ==> has_memory(nodes[i])
        }),
{
    let t = threads[i];
    theorem_group_memory(MemoryPolicy::Full, Phase::Level, t);
    assert(t as u64 == t);
    let nodes = merkle_coalesced::level_chunk_schedule(
        kernel,
        chunk_size,
        level,
        digests_len,
        leaves_len,
        num_caps,
        threads,
    );
    if i < nodes.len() {
        assert(nodes[i].threadgroup_memory == plan::group_memory(
            MemoryPolicy::Full,
            Phase::Level,
            t as int,
        ));
        assert(nodes[i].threads_per_group.width == t);
        assert(keeps_children(nodes[i]));
    }
}

/// The words of the parameters of a tree describe it.
proof fn lemma_uniform_words(
    shape: TreeShape,
    kind: plan::UniformKind,
    leaf_length: usize,
    level: int,
    row: u32,
)
    requires
        shape.valid(),
        2 * shape.leaf_count <= u32::MAX,
        leaf_length <= u32::MAX,
        0 <= level <= shape.num_layers,
    ensures
        ({
            let w = plan::tree_uniforms(shape, kind, leaf_length, level, row).spec_words();
            &&& w[0] == level
            &&& w[1] == shape.subtree_digests_len
            &&& w[3] == leaf_length
            &&& w[4] == pow2(shape.tree_height as nat)
            &&& w.last() == row
            &&& kind is Linear ==> {
                &&& w.len() == 7
                &&& w[2] == pow2(shape.num_layers as nat)
                &&& w[5] == pow2(shape.cap_height as nat)
            }
            &&& kind is Recursive ==> {
                &&& w.len() == 6
                &&& w[2] == shape.tree_height - shape.cap_height
            }
        }),
{
    shape.lemma_bounds();
    bits::lemma_pow2_monotonic(shape.num_layers as nat, shape.tree_height as nat);
    bits::lemma_pow2_monotonic(shape.cap_height as nat, shape.tree_height as nat);
}

/// The words of the launches of a tree describe the tree: its level, the digests of a subtree, and so
/// on, up to the threads in a row of the grid. The launch of the cap has those of the launch before it.
#[verifier::rlimit(40)]
pub proof fn theorem_tree_words(
    shape: TreeShape,
    recipe: Recipe,
    leaf_length: usize,
    sizes: GroupSizes,
    i: int,
)
    requires
        shape.valid(),
        tree_kernels::fits_device(shape, leaf_length, sizes),
        recipe.fused ==> shape.num_layers > 1,
        0 <= i < plan::tree_schedule(shape, recipe, leaf_length, sizes).len(),
    ensures
        ({
            let schedule = plan::tree_schedule(shape, recipe, leaf_length, sizes);
            let first = if recipe.fused {
                2
            } else {
                1int
            };
            let levels = shape.num_layers - first;
            let l = schedule[i];
            let w = l.uniforms.spec_words();
            &&& schedule.len() == 1 + levels + if recipe.caps is Some {
                1int
            } else {
                0
            }
            &&& l.phase == if i == 0 {
                Phase::Leaves
            } else if i <= levels {
                Phase::Level
            } else {
                Phase::Caps
            }
            &&& l.kernel == if i == 0 {
                recipe.leaves
            } else if i <= levels {
                recipe.level
            } else {
                recipe.caps->0
            }
            &&& i > levels ==> w == schedule[i - 1].uniforms.spec_words()
            &&& i <= levels ==> {
                &&& w[0] == if i == 0 {
                    0
                } else {
                    first + i - 1
                }
                &&& l.grid matches Grid::Groups(grid) && w.last() == grid.width
                    * l.threads_per_group.width
            }
            &&& w[1] == shape.subtree_digests_len
            &&& w[3] == leaf_length
            &&& w[4] == pow2(shape.tree_height as nat)
            &&& recipe.uniforms is Linear ==> {
                &&& w.len() == 7
                &&& w[2] == pow2(shape.num_layers as nat)
                &&& w[5] == pow2(shape.cap_height as nat)
            }
            &&& recipe.uniforms is Recursive ==> {
                &&& w.len() == 6
                &&& w[2] == shape.tree_height - shape.cap_height
            }
        }),
{
    let schedule = plan::tree_schedule(shape, recipe, leaf_length, sizes);
    let levels = plan::level_count(shape, recipe) as int;
    shape.lemma_bounds();
    // The launch of the cap has the words of the one before.
    let k = if i <= levels {
        i
    } else {
        i - 1
    };
    let level = if k == 0 {
        0
    } else {
        plan::start_level(recipe) + k - 1
    };
    let count = if k == 0 {
        plan::leaf_threads(shape, recipe)
    } else {
        plan::level_nodes(shape, level)
    };
    let threads = if k == 0 {
        sizes.leaves
    } else {
        sizes.level
    };
    let row = plan::grid_row(count, threads as int);
    assert(schedule[k].uniforms == plan::tree_uniforms(
        shape,
        recipe.uniforms,
        leaf_length,
        level,
        row,
    ));
    if i > levels {
        assert(schedule[i].uniforms == schedule[k].uniforms);
    }
    lemma_uniform_words(shape, recipe.uniforms, leaf_length, level, row);
    if k > 0 {
        lemma_pow2_pos(level as nat);
        vstd::arithmetic::div_mod::lemma_div_nonincreasing(
            shape.leaf_count as int,
            pow2(level as nat) as int,
        );
        vstd::arithmetic::div_mod::lemma_div_pos_is_pos(
            shape.leaf_count as int,
            pow2(level as nat) as int,
        );
    }
    lemma_row_fits(count as nat, threads);
    if i <= levels {
        assert(schedule[i].grid == Grid::Groups(plan::group_grid(count, threads as int)));
        assert(schedule[i].threads_per_group.width == threads);
    }
}

/// Rows of 32768 groups, without the last one, hold fewer groups than there are.
proof fn lemma_rows(groups: int, rows: int)
    requires
        rows == (groups + 32767) / 32768,
    ensures
        32768 * (rows - 1) < groups,
{
}

/// A grid of groups is as small as can be: without its last row it would not cover its threads.
proof fn lemma_grid_is_least(count: nat, threads: nat)
    requires
        0 < count,
        0 < threads,
        count + 32768 <= u64::MAX,
    ensures
        ({
            let grid = plan::group_grid(count as int, threads as int);
            &&& grid.width * grid.height * threads >= count
            &&& grid.width * (grid.height - 1) * threads < count
            &&& grid.depth == 1
        }),
{
    let g = crate::launch::groups_for(count as int, threads as int);
    crate::launch::theorem_groups_cover(count, threads);
    assert(1 <= g <= count) by (nonlinear_arith)
        requires
            g > 0 ==> (g - 1) * threads < count,
            g * threads >= count,
            g >= 0,
            threads >= 1,
            count >= 1,
    ;
    plan::theorem_group_grid_covers(count, threads);
    let grid = plan::group_grid(count as int, threads as int);
    let rest = grid.width * (grid.height - 1);
    if g <= 32768 {
        assert(rest == 0) by (nonlinear_arith)
            requires
                rest == grid.width * (grid.height - 1),
                grid.height == 1,
        ;
    } else {
        let rows = (g + 32767) / 32768;
        assert(rest == 32768 * (rows - 1)) by (nonlinear_arith)
            requires
                rest == grid.width * (grid.height - 1),
                grid.width == 32768,
                grid.height == rows,
        ;
        lemma_rows(g, rows);
    }
    assert(rest <= g - 1);
    assert(rest * threads <= (g - 1) * threads) by (nonlinear_arith)
        requires
            rest <= g - 1,
            threads > 0,
    ;
}

/// The grids of a tree: a thread for each leaf, or for each pair of leaves where the first inner level is
/// computed with them, a thread for each node of a level and for each entry of the cap, in groups of the
/// given sizes, and no row of groups, and for the cap no group, that is not needed.
#[verifier::rlimit(40)]
pub proof fn theorem_tree_grids(
    shape: TreeShape,
    recipe: Recipe,
    leaf_length: usize,
    sizes: GroupSizes,
    i: int,
)
    requires
        shape.valid(),
        sizes.ok(),
        recipe.fused ==> shape.num_layers > 1,
        0 <= i < plan::tree_schedule(shape, recipe, leaf_length, sizes).len(),
    ensures
        ({
            let l = plan::tree_schedule(shape, recipe, leaf_length, sizes)[i];
            let level = if recipe.fused {
                i + 1
            } else {
                i
            };
            let count = if l.phase is Leaves && !recipe.fused {
                pow2(shape.tree_height as nat) as int
            } else if l.phase is Caps {
                pow2(shape.cap_height as nat) as int
            } else {
                pow2((shape.tree_height - level) as nat) as int
            };
            let threads = if l.phase is Leaves {
                sizes.leaves
            } else if l.phase is Level {
                sizes.level
            } else {
                sizes.caps
            };
            &&& l.threads_per_group.height == 1
            &&& l.threads_per_group.depth == 1
            &&& !(l.phase is Caps) ==> l.threads_per_group.width == threads
            &&& l.phase is Caps ==> {
                &&& l.threads_per_group.width <= threads
                &&& l.threads_per_group.width <= count
                &&& l.threads_per_group.width == threads || l.threads_per_group.width == count
            }
            &&& l.grid matches Grid::Groups(grid) && {
                &&& grid.depth == 1
                &&& grid.width * grid.height * threads >= count
                &&& grid.width * (grid.height - 1) * threads < count
                &&& l.phase is Caps ==> grid.height == 1 && (grid.width - 1) * threads < count
            }
        }),
{
    let schedule = plan::tree_schedule(shape, recipe, leaf_length, sizes);
    let l = schedule[i];
    shape.lemma_bounds();
    lemma2_to64();
    let h = shape.tree_height as nat;
    if l.phase is Caps {
        let m = shape.num_caps as int;
        let threads = sizes.caps as int;
        let g = crate::launch::groups_for(m, threads);
        crate::launch::theorem_groups_cover(m as nat, threads as nat);
        assert(1 <= g <= m) by (nonlinear_arith)
            requires
                g > 0 ==> (g - 1) * threads < m,
                g * threads >= m,
                g >= 0,
                threads >= 1,
                m >= 1,
        ;
        assert(i == schedule.len() - 1);
        assert(l == plan::caps_launch(shape, recipe, recipe.caps->0, leaf_length, sizes));
        assert(g * 1 == g && g * 0 == 0);
        assert(0 * threads == 0) by (nonlinear_arith);
    } else {
        let level = (if recipe.fused {
            i + 1
        } else {
            i
        }) as nat;
        assert(level <= h);
        lemma_pow2_adds(level, (h - level) as nat);
        lemma_pow2_pos(level);
        lemma_pow2_pos((h - level) as nat);
        vstd::arithmetic::div_mod::lemma_div_multiples_vanish(
            pow2((h - level) as nat) as int,
            pow2(level) as int,
        );
        bits::lemma_pow2_monotonic((h - level) as nat, h);
        let count = pow2((h - level) as nat);
        if i == 0 {
            assert(level == 0 || level == 1);
            assert(plan::leaf_threads(shape, recipe) == count);
            lemma_grid_is_least(count, sizes.leaves as nat);
            assert(l.threads_per_group.width == sizes.leaves);
        } else {
            assert(plan::level_nodes(shape, level as int) == count);
            lemma_grid_is_least(count, sizes.level as nat);
            assert(l.threads_per_group.width == sizes.level);
        }
    }
}

/// The launch of a linear kernel on a single subtree describes that subtree, and hands on no flags and no
/// memory.
pub proof fn theorem_single_subtree_words(
    kernel: Kernel,
    phase: Phase,
    level: u32,
    digests_len: int,
    leaves_len: int,
    leaf_size: int,
    count: int,
    threads: usize,
)
    requires
        0 <= digests_len <= u32::MAX,
        0 <= leaves_len <= u32::MAX,
        0 <= leaf_size <= u32::MAX,
        0 < count <= u32::MAX,
        0 < threads,
        threads * 32768 <= u32::MAX,
    ensures
        ({
            let l = merkle_linear::single_subtree_launch(
                kernel,
                phase,
                level,
                digests_len,
                leaves_len,
                leaf_size,
                count,
                threads as int,
            );
            let w = l.uniforms.spec_words();
            &&& l.kernel == kernel
            &&& l.phase == phase
            &&& l.flags is None
            &&& l.threadgroup_memory is None
            &&& w.len() == 7
            &&& w[0] == level
            &&& w[1] == digests_len
            &&& w[2] == leaves_len
            &&& w[3] == leaf_size
            &&& w[4] == leaves_len
            &&& w[5] == 1
            &&& l.threads_per_group.width == threads
            &&& l.threads_per_group.height == 1
            &&& l.grid matches Grid::Groups(grid) && {
                &&& w[6] == grid.width * threads
                &&& grid.width * grid.height * threads >= count
                &&& grid.width * (grid.height - 1) * threads < count
            }
        }),
{
    lemma_row_fits(count as nat, threads);
    lemma_grid_is_least(count as nat, threads as nat);
}

/// The threads in a row of a grid fit in a word.
proof fn lemma_row_fits(count: nat, threads: usize)
    requires
        0 < threads,
        threads * 32768 <= u32::MAX,
        count <= u32::MAX,
    ensures
        plan::grid_row(count as int, threads as int) == plan::group_grid(
            count as int,
            threads as int,
        ).width * threads,
{
    let g = crate::launch::groups_for(count as int, threads as int);
    crate::launch::theorem_groups_cover(count, threads as nat);
    assert(g <= count) by (nonlinear_arith)
        requires
            g > 0 ==> (g - 1) * threads < count,
            threads >= 1,
            count >= 0,
    ;
    let width = plan::group_grid(count as int, threads as int).width;
    assert(width <= 32768);
    assert(0 <= width * threads <= threads * 32768) by (nonlinear_arith)
        requires
            0 <= width <= 32768,
            threads > 0,
    ;
}

/// The words of the launches of leaves in chunks describe the tree and the chunk: as many nodes are
/// dispatched as the grid has threads.
pub proof fn theorem_leaf_chunk_words(
    kernel: Kernel,
    first: int,
    count: int,
    leaf_length: usize,
    digests_len: usize,
    leaves_len: usize,
    subtrees: int,
    threads: int,
)
    requires
        0 <= first,
        0 <= count,
        first + count <= subtrees <= u32::MAX,
        digests_len <= u32::MAX,
        leaf_length <= u32::MAX,
        leaves_len <= u32::MAX,
        leaves_len * subtrees <= u32::MAX,
        0 < threads <= u64::MAX,
    ensures
        ({
            let l = coalesced_plan::leaf_chunk_launch(
                kernel,
                first,
                count,
                leaf_length,
                digests_len,
                leaves_len,
                subtrees,
                threads,
            );
            let w = l.uniforms.spec_words();
            &&& l.kernel == kernel
            &&& l.phase is Leaves
            &&& l.flags is None
            &&& w.len() == 10
            &&& w[0] == 0
            &&& w[1] == digests_len
            &&& w[2] == leaves_len
            &&& w[3] == leaf_length
            &&& w[4] == w[2] * w[5]
            &&& w[5] == subtrees
            &&& w[6] == leaves_len
            &&& w[7] == leaves_len * count
            &&& w[8] == first
            &&& w[9] == 0
            &&& l.grid matches Grid::Threads(grid) && grid.width == w[6] && grid.height == count
                && grid.depth == 1
            &&& l.threads_per_group.width == threads
            &&& l.threads_per_group.height == 1
            &&& l.threads_per_group.depth == 1
        }),
{
    assert(0 <= leaves_len * count <= leaves_len * subtrees) by (nonlinear_arith)
        requires
            0 <= count <= subtrees,
            leaves_len >= 0,
    ;
}

/// The words of the launches of a level in chunks describe the tree and the chunk: as many nodes are
/// dispatched as the grid has threads.
#[verifier::rlimit(40)]
pub proof fn theorem_level_chunk_words(
    kernel: Kernel,
    level: usize,
    digests_len: usize,
    layers: nat,
    leaves_len: usize,
    subtrees: int,
    count: int,
    first: int,
    threads: int,
)
    requires
        level <= layers,
        leaves_len == pow2(layers),
        0 <= first,
        0 <= count,
        first + count <= pow2((layers - level) as nat),
        0 <= subtrees <= u32::MAX,
        digests_len <= u32::MAX,
        leaves_len <= u32::MAX,
        level <= u32::MAX,
        leaves_len * subtrees <= u32::MAX,
        0 < threads <= u64::MAX,
    ensures
        ({
            let l = coalesced_plan::level_chunk_launch(
                kernel,
                level,
                digests_len,
                leaves_len,
                subtrees,
                count,
                first,
                threads,
            );
            let w = l.uniforms.spec_words();
            &&& l.kernel == kernel
            &&& l.phase is Level
            &&& l.flags is None
            &&& w.len() == 10
            &&& w[0] == level
            &&& w[1] == digests_len
            &&& w[2] == leaves_len
            &&& w[3] == 0
            &&& w[4] == 0
            &&& w[5] == subtrees
            &&& w[6] == pow2((layers - level) as nat)
            &&& w[7] == count * subtrees
            &&& w[8] == first
            &&& w[9] == 0
            &&& l.grid matches Grid::Threads(grid) && grid.width == count && grid.height
                == subtrees && grid.depth == 1
            &&& l.threads_per_group.width == threads
            &&& l.threads_per_group.height == 1
            &&& l.threads_per_group.depth == 1
        }),
{
    let nodes = pow2((layers - level) as nat) as int;
    lemma_pow2_pos(level as nat);
    lemma_pow2_adds(level as nat, (layers - level) as nat);
    vstd::arithmetic::div_mod::lemma_div_multiples_vanish(nodes, pow2(level as nat) as int);
    bits::lemma_pow2_monotonic((layers - level) as nat, layers);
    assert(0 <= count * subtrees <= leaves_len * subtrees) by (nonlinear_arith)
        requires
            0 <= count <= leaves_len,
            subtrees >= 0,
    ;
}

/// The launches of a coalesced tree are those of all leaves, of each inner level and of the cap, whose
/// words describe the tree.
#[verifier::rlimit(40)]
pub proof fn theorem_coalesced_words(
    shape: TreeShape,
    kernels: CoalescedKernels,
    leaf_length: usize,
    sizes: CoalescedSizes,
    i: int,
)
    requires
        shape.valid(),
        2 * shape.leaf_count <= u32::MAX,
        leaf_length <= u32::MAX,
        sizes.ok(shape.num_layers as int),
        0 <= i <= shape.num_layers,
    ensures
        ({
            let schedule = coalesced_plan::coalesced_schedule(
                shape,
                kernels,
                leaf_length,
                sizes,
            );
            let l = schedule[i];
            let w = l.uniforms.spec_words();
            &&& schedule.len() == shape.num_layers + 1
            &&& l.phase == if i == 0 {
                Phase::Leaves
            } else if i < shape.num_layers {
                Phase::Level
            } else {
                Phase::Caps
            }
            &&& l.kernel == if i == 0 {
                kernels.leaves
            } else if i < shape.num_layers {
                kernels.level
            } else {
                kernels.caps
            }
            &&& l.flags is None
            &&& l.threads_per_group.width == if i == 0 {
                sizes.leaves
            } else if i < shape.num_layers {
                sizes.levels@[i - 1]
            } else {
                sizes.caps
            }
            &&& l.threads_per_group.height == 1
            &&& l.threads_per_group.depth == 1
            &&& w.len() == 10
            &&& w[0] == if i < shape.num_layers {
                i
            } else {
                0
            }
            &&& w[1] == shape.subtree_digests_len
            &&& w[2] == shape.subtree_leaves_len
            &&& w[5] == shape.num_caps
            // The nodes of the level in a subtree: the root alone, in the launch of the cap.
            &&& w[6] == pow2((shape.num_layers - i) as nat)
            &&& w[7] == w[5] * w[6]
            &&& w[8] == 0
            &&& w[9] == 0
            &&& i == 0 || i == shape.num_layers ==> w[3] == leaf_length && w[4] == shape.leaf_count
            // A thread for each node.
            &&& l.grid matches Grid::Threads(grid) && {
                &&& grid.depth == 1
                &&& i < shape.num_layers ==> grid.width == w[6] && grid.height == w[5]
                &&& i == shape.num_layers ==> grid.width == w[5] && grid.height == 1
            }
        }),
{
    shape.lemma_bounds();
    lemma2_to64();
    bits::lemma_pow2_monotonic(shape.num_layers as nat, shape.tree_height as nat);
    bits::lemma_pow2_monotonic(shape.cap_height as nat, shape.tree_height as nat);
    let n = shape.subtree_leaves_len;
    let m = shape.num_caps as int;
    if i == 0 {
        theorem_leaf_chunk_words(
            kernels.leaves,
            0,
            m,
            leaf_length,
            shape.subtree_digests_len,
            n,
            m,
            sizes.leaves as int,
        );
        vstd::arithmetic::mul::lemma_mul_is_commutative(n as int, m);
    } else if i < shape.num_layers {
        let nodes = pow2((shape.num_layers - i) as nat) as int;
        assert(plan::group_size_ok(sizes.levels@[i - 1]));
        lemma_pow2_pos(i as nat);
        lemma_pow2_adds(i as nat, (shape.num_layers - i) as nat);
        vstd::arithmetic::div_mod::lemma_div_multiples_vanish(nodes, pow2(i as nat) as int);
        theorem_level_chunk_words(
            kernels.level,
            i as usize,
            shape.subtree_digests_len,
            shape.num_layers as nat,
            n,
            m,
            nodes,
            0,
            sizes.levels@[i - 1] as int,
        );
        vstd::arithmetic::mul::lemma_mul_is_commutative(nodes, m);
    }
}

/// Parameters, and flags or counters after them, are bound behind the buffers that a launch works on:
/// leaves and digests, the digests alone, or the cap and the digests.
pub proof fn theorem_binding_places(phase: Phase)
    ensures
        phase is Leaves ==> phase.spec_uniforms_index() == 2,
        phase is Level ==> phase.spec_uniforms_index() == 1,
        phase is Caps ==> phase.spec_uniforms_index() == 2,
{
}

} // verus!
