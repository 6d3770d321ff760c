//! That the launches of a tree have an effect, whatever the digests buffer holds: no two of the nodes
//! that a kernel stores share a place.

use crate::bits;
use crate::gpu::metal::coalesced_kernels;
use crate::gpu::metal::coalesced_plan::{CoalescedKernels, CoalescedSizes};
use crate::gpu::metal::layout;
use crate::gpu::metal::plan::{
    self, DigestLayout, GroupSizes, Launch, Phase, Recipe, TreeShape, TreeUniforms,
};
use crate::gpu::metal::tree_kernels;
use crate::gpu::metal::utils::HashOut;
use vstd::arithmetic::div_mod::*;
use vstd::arithmetic::mul::*;
use vstd::arithmetic::power2::*;
use vstd::prelude::*;

verus! {

/// The places of a subtree, as the parameters of a launch give them.
pub open spec fn subtree_places(u: TreeUniforms) -> int {
    match u {
        TreeUniforms::Linear(u) => u.subtree_digests_len as int,
        TreeUniforms::Coalesced(u) => u.subtree_digests_len as int,
        TreeUniforms::Recursive(u) => u.tree_length as int,
    }
}

/// Whether the parameters are those of subtrees with `2^k` leaves in one of the layouts.
pub open spec fn is_laid_out(u: TreeUniforms, k: nat) -> bool {
    &&& tree_kernels::subtree_leaves(u) == pow2(k)
    &&& match u {
        TreeUniforms::Recursive(_) => subtree_places(u) == layout::subtree_slots(k),
        _ => subtree_places(u) == 2 * pow2(k) - 1 || subtree_places(u) == 2 * (pow2(k) - 1),
    }
}

/// Whether `t` and `p` denote a node of `level` that has a place.
pub open spec fn is_placed(u: TreeUniforms, level: nat, t: int, p: int) -> bool {
    tree_kernels::in_level(u, level, t, p) && tree_kernels::below_root(u, level)
}

/// A node's place is among those of its subtree.
proof fn lemma_place(u: TreeUniforms, k: nat, level: nat, t: int, p: int)
    requires
        is_laid_out(u, k),
        is_placed(u, level, t, p),
    ensures
        level < k,
        0 <= p < pow2((k - level) as nat),
        0 <= tree_kernels::place(u, 0, level, p) < subtree_places(u),
        tree_kernels::place(u, t, level, p) == t * subtree_places(u) + tree_kernels::place(
            u,
            0,
            level,
            p,
        ),
{
    let n = pow2(k) as int;
    let m = pow2(level) as int;
    lemma_pow2_pos(k);
    lemma_pow2_pos(level);
    if level >= k {
        bits::lemma_pow2_monotonic(k, level);
        lemma_fundamental_div_mod(n, m);
        assert(n / m <= 1) by (nonlinear_arith)
            requires
                n == m * (n / m) + n % m,
                n % m >= 0,
                n <= m,
                m > 0,
        ;
    }
    lemma_pow2_adds(level, (k - level) as nat);
    lemma_div_multiples_vanish(pow2((k - level) as nat) as int, m);
    lemma_mul_basics(subtree_places(u));
    layout::theorem_places_select_layout(k, level, p);
    layout::theorem_linear_in_range(k, level, p);
    layout::theorem_rootless_in_range(k, level, p);
    layout::theorem_slot_in_range(k, level, p);
}

/// Two nodes with one place are the same node.
proof fn lemma_places_distinct(
    u: TreeUniforms,
    k: nat,
    a: nat,
    t: int,
    p: int,
    b: nat,
    s: int,
    q: int,
)
    requires
        is_laid_out(u, k),
        is_placed(u, a, t, p),
        is_placed(u, b, s, q),
        tree_kernels::place(u, t, a, p) == tree_kernels::place(u, s, b, q),
    ensures
        a == b,
        t == s,
        p == q,
{
    let places = subtree_places(u);
    let i = tree_kernels::place(u, 0, a, p);
    let j = tree_kernels::place(u, 0, b, q);
    lemma_place(u, k, a, t, p);
    lemma_place(u, k, b, s, q);
    lemma_fundamental_div_mod_converse(t * places + i, places, t, i);
    lemma_fundamental_div_mod_converse(s * places + j, places, s, j);
    layout::theorem_places_select_layout(k, a, p);
    layout::theorem_places_select_layout(k, b, q);
    lemma_mul_basics(places);
    match u {
        TreeUniforms::Recursive(_) => {
            layout::theorem_slot_determines_node(a, p);
            layout::theorem_slot_determines_node(b, q);
        },
        _ => {
            layout::theorem_rootless_in_range(k, a, p);
            layout::theorem_rootless_in_range(k, b, q);
            layout::theorem_linear_distinct(k, a, p, b, q);
        },
    }
}

/// Whether a launch stores node `p` of `level` of subtree `t`.
pub open spec fn stores(l: Launch, level: nat, t: int, p: int) -> bool {
    let u = l.uniforms;
    let n = tree_kernels::subtree_leaves(u);
    match l.phase {
        Phase::Leaves => if tree_kernels::is_fused(l.kernel) {
            ||| level == 0 && 0 <= p && tree_kernels::in_level(u, 1, t, p / 2)
                && tree_kernels::reaches(l, n / 2, t, p / 2)
            ||| level == 1 && tree_kernels::in_level(u, 1, t, p) && tree_kernels::reaches(
                l,
                n / 2,
                t,
                p,
            )
        } else {
            level == 0 && tree_kernels::in_level(u, 0, t, p) && tree_kernels::reaches(l, n, t, p)
        },
        Phase::Level => level == tree_kernels::launch_level(u) && tree_kernels::in_level(
            u,
            level,
            t,
            p,
        ) && tree_kernels::reaches(l, n / pow2(level) as int, t, p),
        Phase::Caps => false,
    }
}

/// The digest that a launch stores for node `p` of `level` of subtree `t`.
pub open spec fn stored(
    l: Launch,
    words: Seq<u64>,
    hash: spec_fn(Seq<u64>) -> HashOut,
    compress: spec_fn(HashOut, HashOut) -> HashOut,
    before: Seq<HashOut>,
    level: nat,
    t: int,
    p: int,
) -> HashOut {
    let u = l.uniforms;
    let n = tree_kernels::subtree_leaves(u);
    let width = tree_kernels::leaf_size(u);
    if level == 0 {
        hash(tree_kernels::leaf(words, width, t * n + p))
    } else if l.phase is Leaves {
        compress(
            hash(tree_kernels::leaf(words, width, t * n + 2 * p)),
            hash(tree_kernels::leaf(words, width, t * n + 2 * p + 1)),
        )
    } else {
        let below = (level - 1) as nat;
        compress(
            before[tree_kernels::place(u, t, below, 2 * p)],
            before[tree_kernels::place(u, t, below, 2 * p + 1)],
        )
    }
}

/// Whether a launch stores this node in place `i`.
pub open spec fn stores_at(l: Launch, level: nat, t: int, p: int, i: int) -> bool {
    stores(l, level, t, p) && tree_kernels::place(l.uniforms, t, level, p) == i
}

/// What a launch leaves of the digests `before`: in each place the digest that it stores there, or what
/// was there.
pub open spec fn effect(
    l: Launch,
    words: Seq<u64>,
    hash: spec_fn(Seq<u64>) -> HashOut,
    compress: spec_fn(HashOut, HashOut) -> HashOut,
    before: Seq<HashOut>,
) -> Seq<HashOut> {
    Seq::new(
        before.len(),
        |i: int|
            if exists|level: nat, t: int, p: int| stores_at(l, level, t, p, i) {
                let (level, t, p) = choose|level: nat, t: int, p: int| stores_at(l, level, t, p, i);
                stored(l, words, hash, compress, before, level, t, p)
            } else {
                before[i]
            },
    )
}

/// Whether a launch computes the leaves, or a level between the leaves and the root, of subtrees with
/// `2^k` leaves whose digests are `len` in all.
pub open spec fn is_applicable(l: Launch, k: nat, len: int) -> bool {
    let u = l.uniforms;
    &&& is_laid_out(u, k)
    &&& len == tree_kernels::subtrees(u) * subtree_places(u)
    &&& match l.phase {
        Phase::Leaves => {
            &&& tree_kernels::launch_level(u) == 0
            &&& k >= 1
            &&& tree_kernels::is_fused(l.kernel) ==> k >= 2
        },
        Phase::Level => 0 < tree_kernels::launch_level(u) < k,
        Phase::Caps => false,
    }
}

/// A node that is stored has a place.
proof fn lemma_stored_is_placed(l: Launch, k: nat, len: int, level: nat, t: int, p: int)
    requires
        is_applicable(l, k, len),
        stores(l, level, t, p),
    ensures
        is_placed(l.uniforms, level, t, p),
{
    let u = l.uniforms;
    lemma2_to64();
    lemma_pow2_unfold(k);
    assert(pow2(k) as int / 1 == pow2(k));
    tree_kernels::lemma_below_root(u, k, level);
}

/// A node's place is within the buffer.
proof fn lemma_place_in_buffer(l: Launch, k: nat, len: int, level: nat, t: int, p: int)
    requires
        is_applicable(l, k, len),
        is_placed(l.uniforms, level, t, p),
    ensures
        0 <= tree_kernels::place(l.uniforms, t, level, p) < len,
{
    let u = l.uniforms;
    let places = subtree_places(u);
    let i = tree_kernels::place(u, 0, level, p);
    lemma_place(u, k, level, t, p);
    assert(0 <= t * places + i < tree_kernels::subtrees(u) * places) by (nonlinear_arith)
        requires
            0 <= t,
            t + 1 <= tree_kernels::subtrees(u),
            0 <= i < places,
    ;
}

/// A node that is stored is found in its place.
proof fn lemma_effect_stored(
    l: Launch,
    k: nat,
    words: Seq<u64>,
    hash: spec_fn(Seq<u64>) -> HashOut,
    compress: spec_fn(HashOut, HashOut) -> HashOut,
    before: Seq<HashOut>,
    level: nat,
    t: int,
    p: int,
)
    requires
        is_applicable(l, k, before.len() as int),
        stores(l, level, t, p),
    ensures
        effect(l, words, hash, compress, before)[tree_kernels::place(l.uniforms, t, level, p)]
            == stored(l, words, hash, compress, before, level, t, p),
{
    let u = l.uniforms;
    let len = before.len() as int;
    let i = tree_kernels::place(u, t, level, p);
    lemma_stored_is_placed(l, k, len, level, t, p);
    lemma_place_in_buffer(l, k, len, level, t, p);
    assert(stores_at(l, level, t, p, i));
    let (b, s, q) = choose|b: nat, s: int, q: int| stores_at(l, b, s, q, i);
    lemma_stored_is_placed(l, k, len, b, s, q);
    lemma_places_distinct(u, k, level, t, p, b, s, q);
}

/// A node that is not stored stays as it was.
proof fn lemma_effect_kept(
    l: Launch,
    k: nat,
    words: Seq<u64>,
    hash: spec_fn(Seq<u64>) -> HashOut,
    compress: spec_fn(HashOut, HashOut) -> HashOut,
    before: Seq<HashOut>,
    level: nat,
    t: int,
    p: int,
)
    requires
        is_applicable(l, k, before.len() as int),
        is_placed(l.uniforms, level, t, p),
        !stores(l, level, t, p),
    ensures
        effect(l, words, hash, compress, before)[tree_kernels::place(l.uniforms, t, level, p)]
            == before[tree_kernels::place(l.uniforms, t, level, p)],
{
    let u = l.uniforms;
    let len = before.len() as int;
    let i = tree_kernels::place(u, t, level, p);
    lemma_place_in_buffer(l, k, len, level, t, p);
    if exists|b: nat, s: int, q: int| stores_at(l, b, s, q, i) {
        let (b, s, q) = choose|b: nat, s: int, q: int| stores_at(l, b, s, q, i);
        lemma_stored_is_placed(l, k, len, b, s, q);
        lemma_places_distinct(u, k, level, t, p, b, s, q);
    }
}

/// Every launch on a tree has an effect, whatever the digests are before it.
pub proof fn theorem_launch_has_effect(
    l: Launch,
    k: nat,
    words: Seq<u64>,
    hash: spec_fn(Seq<u64>) -> HashOut,
    compress: spec_fn(HashOut, HashOut) -> HashOut,
    before: Seq<HashOut>,
)
    requires
        is_applicable(l, k, before.len() as int),
    ensures
        tree_kernels::hashes(
            l,
            words,
            hash,
            compress,
            before,
            effect(l, words, hash, compress, before),
        ),
{
    let u = l.uniforms;
    let n = tree_kernels::subtree_leaves(u);
    let level = tree_kernels::launch_level(u);
    let nodes = n / pow2(level) as int;
    let width = tree_kernels::leaf_size(u);
    let after = effect(l, words, hash, compress, before);
    let fused = tree_kernels::is_fused(l.kernel);
    lemma2_to64();
    lemma_pow2_unfold(k);
    assert(pow2(k) as int / 1 == pow2(k));
    if l.phase is Leaves && !fused {
        tree_kernels::lemma_below_root(u, k, 0);
        assert forall|t: int, p: int| tree_kernels::in_level(u, 0, t, p) implies after[
        tree_kernels::place(u, t, 0, p)] == if #[trigger] tree_kernels::reaches(l, n, t, p) {
            hash(tree_kernels::leaf(words, width, t * n + p))
        } else {
            before[tree_kernels::place(u, t, 0, p)]
        } by {
            if tree_kernels::reaches(l, n, t, p) {
                assert(stores(l, 0, t, p));
                lemma_effect_stored(l, k, words, hash, compress, before, 0, t, p);
            } else {
                lemma_effect_kept(l, k, words, hash, compress, before, 0, t, p);
            }
        }
    }
    if l.phase is Leaves && fused {
        assert forall|t: int, p: int|
            tree_kernels::in_level(u, 1, t, p) && #[trigger] tree_kernels::reaches(
                l,
                n / 2,
                t,
                p,
            ) implies ({
            let left = hash(tree_kernels::leaf(words, width, t * n + 2 * p));
            let right = hash(tree_kernels::leaf(words, width, t * n + 2 * p + 1));
            &&& after[tree_kernels::place(u, t, 0, 2 * p)] == left
            &&& after[tree_kernels::place(u, t, 0, 2 * p + 1)] == right
            &&& after[tree_kernels::place(u, t, 1, p)] == compress(left, right)
        }) by {
            assert((2 * p) / 2 == p && (2 * p + 1) / 2 == p);
            assert(stores(l, 0, t, 2 * p));
            assert(stores(l, 0, t, 2 * p + 1));
            assert(stores(l, 1, t, p));
            lemma_effect_stored(l, k, words, hash, compress, before, 0, t, 2 * p);
            lemma_effect_stored(l, k, words, hash, compress, before, 0, t, 2 * p + 1);
            lemma_effect_stored(l, k, words, hash, compress, before, 1, t, p);
        }
    }
    if l.phase is Level {
        tree_kernels::lemma_below_root(u, k, level);
        assert forall|t: int, p: int| tree_kernels::in_level(u, level, t, p) implies after[
        tree_kernels::place(u, t, level, p)] == if #[trigger] tree_kernels::reaches(
            l,
            nodes,
            t,
            p,
        ) {
            compress(
                before[tree_kernels::place(u, t, (level - 1) as nat, 2 * p)],
                before[tree_kernels::place(u, t, (level - 1) as nat, 2 * p + 1)],
            )
        } else {
            before[tree_kernels::place(u, t, level, p)]
        } by {
            if tree_kernels::reaches(l, nodes, t, p) {
                assert(stores(l, level, t, p));
                lemma_effect_stored(l, k, words, hash, compress, before, level, t, p);
            } else {
                lemma_effect_kept(l, k, words, hash, compress, before, level, t, p);
            }
        }
    }
    assert forall|t: int, other: nat, p: int|
        tree_kernels::in_level(u, other, t, p) && tree_kernels::below_root(u, other) && other
            != level && !(other == 1 && l.phase is Leaves && fused) implies #[trigger] after[
    tree_kernels::place(u, t, other, p)] == before[tree_kernels::place(u, t, other, p)] by {
        lemma_effect_kept(l, k, words, hash, compress, before, other, t, p);
    }
}

/// The digests before the first, between all, and after the last of `launches`.
pub open spec fn effects(
    launches: Seq<Launch>,
    words: Seq<u64>,
    hash: spec_fn(Seq<u64>) -> HashOut,
    compress: spec_fn(HashOut, HashOut) -> HashOut,
    before: Seq<HashOut>,
) -> Seq<Seq<HashOut>>
    decreases launches.len(),
{
    if launches.len() == 0 {
        seq![before]
    } else {
        let states = effects(launches.drop_last(), words, hash, compress, before);
        states.push(effect(launches.last(), words, hash, compress, states.last()))
    }
}

/// Launches on a tree can be run, whatever the digests are before the first.
pub proof fn theorem_launches_have_run(
    launches: Seq<Launch>,
    k: nat,
    words: Seq<u64>,
    hash: spec_fn(Seq<u64>) -> HashOut,
    compress: spec_fn(HashOut, HashOut) -> HashOut,
    before: Seq<HashOut>,
)
    requires
        forall|i: int|
            0 <= i < launches.len() ==> is_applicable(
                #[trigger] launches[i],
                k,
                before.len() as int,
            ),
    ensures
        ({
            let states = effects(launches, words, hash, compress, before);
            &&& tree_kernels::is_run(launches, words, hash, compress, states)
            &&& states[0] == before
            &&& states.last().len() == before.len()
        }),
    decreases launches.len(),
{
    let states = effects(launches, words, hash, compress, before);
    if launches.len() > 0 {
        let front = launches.drop_last();
        let earlier = effects(front, words, hash, compress, before);
        let n = launches.len() - 1;
        assert forall|i: int| 0 <= i < front.len() implies is_applicable(
            #[trigger] front[i],
            k,
            before.len() as int,
        ) by {
            assert(front[i] == launches[i]);
        }
        theorem_launches_have_run(front, k, words, hash, compress, before);
        theorem_launch_has_effect(launches[n], k, words, hash, compress, earlier.last());
        assert forall|i: int| 0 <= i < launches.len() implies tree_kernels::hashes(
            #[trigger] launches[i],
            words,
            hash,
            compress,
            states[i],
            states[i + 1],
        ) by {
            if i < n {
                assert(tree_kernels::hashes(
                    front[i],
                    words,
                    hash,
                    compress,
                    earlier[i],
                    earlier[i + 1],
                ));
            }
        }
    }
}

/// The launches of a tree can be run, whatever the digests are before the first.
pub proof fn theorem_tree_has_run(
    shape: TreeShape,
    digest_layout: DigestLayout,
    recipe: Recipe,
    leaf_length: usize,
    sizes: GroupSizes,
    words: Seq<u64>,
    hash: spec_fn(Seq<u64>) -> HashOut,
    compress: spec_fn(HashOut, HashOut) -> HashOut,
    before: Seq<HashOut>,
)
    requires
        shape.wf(digest_layout),
        recipe.uniforms is Recursive ==> digest_layout is Rootless,
        tree_kernels::fits_device(shape, leaf_length, sizes),
        tree_kernels::consistent(shape, recipe),
        before.len() == shape.total_digests,
    ensures
        exists|states: Seq<Seq<HashOut>>| #[trigger]
            tree_kernels::is_run(
                tree_kernels::tree_body(shape, recipe, leaf_length, sizes),
                words,
                hash,
                compress,
                states,
            ) && states[0] == before,
{
    let body = tree_kernels::tree_body(shape, recipe, leaf_length, sizes);
    let k = shape.num_layers as nat;
    shape.lemma_bounds();
    lemma_pow2_pos(k);
    lemma_div_multiples_vanish(shape.num_caps as int, shape.subtree_leaves_len as int);
    bits::lemma_pow2_monotonic(k, shape.tree_height as nat);
    bits::lemma_pow2_monotonic(shape.cap_height as nat, shape.tree_height as nat);
    lemma_mul_is_commutative(shape.subtree_digests_len as int, shape.num_caps as int);
    assert forall|i: int| 0 <= i < body.len() implies is_applicable(
        #[trigger] body[i],
        k,
        before.len() as int,
    ) by {
        if i == 0 {
            assert(body[0] == plan::leaves_launch(shape, recipe, leaf_length, sizes));
        } else {
            assert(body[i] == plan::level_launch(
                shape,
                recipe,
                leaf_length,
                sizes,
                plan::start_level(recipe) + i - 1,
            ));
        }
    }
    theorem_launches_have_run(body, k, words, hash, compress, before);
}

/// The coalesced launches of a tree can be run, whatever the digests are before the first.
pub proof fn theorem_coalesced_tree_has_run(
    shape: TreeShape,
    kernels: CoalescedKernels,
    leaf_length: usize,
    sizes: CoalescedSizes,
    words: Seq<u64>,
    hash: spec_fn(Seq<u64>) -> HashOut,
    compress: spec_fn(HashOut, HashOut) -> HashOut,
    before: Seq<HashOut>,
)
    requires
        shape.valid(),
        coalesced_kernels::fits_device(shape, leaf_length),
        coalesced_kernels::unfused(kernels),
        before.len() == shape.total_digests,
    ensures
        exists|states: Seq<Seq<HashOut>>| #[trigger]
            tree_kernels::is_run(
                coalesced_kernels::coalesced_body(shape, kernels, leaf_length, sizes),
                words,
                hash,
                compress,
                states,
            ) && states[0] == before,
{
    let body = coalesced_kernels::coalesced_body(shape, kernels, leaf_length, sizes);
    let k = shape.num_layers as nat;
    shape.lemma_bounds();
    bits::lemma_pow2_monotonic(k, shape.tree_height as nat);
    bits::lemma_pow2_monotonic(shape.cap_height as nat, shape.tree_height as nat);
    lemma_mul_is_commutative(shape.subtree_digests_len as int, shape.num_caps as int);
    assert forall|i: int| 0 <= i < body.len() implies is_applicable(
        #[trigger] body[i],
        k,
        before.len() as int,
    ) by {
    }
    theorem_launches_have_run(body, k, words, hash, compress, before);
}

} // verus!
