//! The shape of a Merkle tree and the kernel launches that hash it.

use crate::bits;
use crate::gpu::metal::device_view;
use crate::gpu::metal::layout;
use crate::gpu::metal::pipeline::Kernel;
use crate::gpu::metal::utils::{
    get_size_for_count, CoalescedUniforms, LinearUniforms, MAX_GRID_DIM, POSEIDON_CONST_SIZE,
};
use crate::launch::{group_count, MTLSize};
use vstd::arithmetic::div_mod::*;
use vstd::arithmetic::mul::*;
use vstd::arithmetic::power2::*;
use vstd::prelude::*;

verus! {

/// Which places a subtree has for its digests.
#[derive(Clone, Copy, Debug, PartialEq, Eq, Structural)]
pub enum DigestLayout {
    /// A place for every node, the root included: `2n - 1` for `n` leaves.
    Heap,
    /// A place for every node but the root: `2(n - 1)` for `n` leaves.
    Rootless,
}

/// The numbers that describe a tree with its cap.
#[derive(Clone, Copy, Debug, PartialEq, Eq, Structural)]
pub struct TreeShape {
    pub tree_height: usize,
    pub cap_height: usize,
    pub leaf_count: usize,
    pub num_caps: usize,
    /// Levels of a subtree, from its leaves up to the children of its root.
    pub num_layers: usize,
    pub subtree_leaves_len: usize,
    pub subtree_digests_len: usize,
    pub total_digests: usize,
}

/// The places of a subtree with `layers` layers.
pub open spec fn places(digest_layout: DigestLayout, layers: nat) -> int {
    match digest_layout {
        DigestLayout::Heap => 2 * pow2(layers) - 1,
        DigestLayout::Rootless => 2 * (pow2(layers) - 1),
    }
}

impl TreeShape {
    /// Whether a tree of this height and cap height can be planned: the cap is below the leaves,
    /// and all digests can be addressed.
    pub open spec fn plannable(tree_height: int, cap_height: int) -> bool {
        &&& 0 <= cap_height < tree_height
        &&& tree_height + 7 <= usize::BITS
    }

    /// The numbers belong together.
    pub open spec fn wf(self, digest_layout: DigestLayout) -> bool {
        &&& Self::plannable(self.tree_height as int, self.cap_height as int)
        &&& self.leaf_count == pow2(self.tree_height as nat)
        &&& self.num_caps == pow2(self.cap_height as nat)
        &&& self.num_layers == self.tree_height - self.cap_height
        &&& self.subtree_leaves_len == pow2(self.num_layers as nat)
        &&& self.subtree_digests_len == places(digest_layout, self.num_layers as nat)
        &&& self.total_digests == self.subtree_digests_len * self.num_caps
    }

    /// The numbers belong together in one of the layouts.
    pub open spec fn valid(self) -> bool {
        self.wf(DigestLayout::Heap) || self.wf(DigestLayout::Rootless)
    }

    /// What the bounds of a plannable tree give.
    pub proof fn lemma_bounds(self)
        requires
            self.valid(),
        ensures
            self.leaf_count == self.subtree_leaves_len * self.num_caps,
            self.subtree_leaves_len >= 2,
            self.num_caps >= 1,
            self.leaf_count * 64 <= pow2((usize::BITS - 1) as nat),
            self.total_digests <= 2 * self.leaf_count,
            self.total_digests * 32 <= pow2((usize::BITS - 1) as nat),
            self.num_caps * 32 <= pow2((usize::BITS - 1) as nat),
            pow2((usize::BITS - 1) as nat) < usize::MAX,
            self.leaf_count + MAX_GRID_DIM <= usize::MAX,
    {
        let h = self.tree_height as nat;
        let c = self.cap_height as nat;
        let k = self.num_layers as nat;
        lemma_pow2_adds(k, c);
        lemma2_to64();
        lemma2_to64_rest();
        lemma_pow2_pos(c);
        bits::lemma_pow2_monotonic(1, k);
        bits::lemma_pow2_monotonic(c, h);
        lemma_pow2_adds(h, 6);
        bits::lemma_pow2_monotonic(h + 6, (usize::BITS - 1) as nat);
        vstd::bits::lemma_usize_pow2_no_overflow((usize::BITS - 1) as nat);
        let n = self.subtree_leaves_len as int;
        let m = self.num_caps as int;
        assert(self.subtree_digests_len * m <= 2 * (n * m)) by (nonlinear_arith)
            requires
                self.subtree_digests_len <= 2 * n,
                m >= 0,
        ;
        if usize::BITS == 32 {
            bits::lemma_pow2_monotonic(h, 25);
        } else {
            bits::lemma_pow2_monotonic(h, 57);
        }
    }

    /// The shape of a tree of `2^tree_height` leaves with a cap of `2^cap_height` entries.
    pub fn new(digest_layout: DigestLayout, tree_height: usize, cap_height: usize) -> (r: TreeShape)
        requires
            Self::plannable(tree_height as int, cap_height as int),
        ensures
            r.wf(digest_layout),
            r.tree_height == tree_height,
            r.cap_height == cap_height,
    {
        let leaf_count: usize = bits::shl_one(tree_height);
        let num_caps: usize = bits::shl_one(cap_height);
        let num_layers: usize = tree_height - cap_height;
        let ghost k = num_layers as nat;
        proof {
            lemma_pow2_adds(k, cap_height as nat);
            lemma_pow2_pos(cap_height as nat);
            lemma_div_multiples_vanish(pow2(k) as int, num_caps as int);
            lemma_mul_is_commutative(pow2(k) as int, num_caps as int);
            bits::lemma_pow2_monotonic(k, (tree_height + 1) as nat);
            lemma_pow2_unfold((tree_height + 1) as nat);
            vstd::bits::lemma_usize_pow2_no_overflow((tree_height + 1) as nat);
            lemma_pow2_pos(k);
        }
        let subtree_leaves_len: usize = bits::shr(leaf_count, cap_height);
        let subtree_digests_len: usize = match digest_layout {
            DigestLayout::Heap => 2 * subtree_leaves_len - 1,
            DigestLayout::Rootless => 2 * (subtree_leaves_len - 1),
        };
        proof {
            assert(subtree_digests_len * num_caps <= 2 * (subtree_leaves_len * num_caps))
                by (nonlinear_arith)
                requires
                    subtree_digests_len <= 2 * subtree_leaves_len,
                    num_caps >= 0,
            ;
            lemma_mul_nonnegative(subtree_digests_len as int, num_caps as int);
        }
        let total_digests: usize = subtree_digests_len * num_caps;
        TreeShape {
            tree_height,
            cap_height,
            leaf_count,
            num_caps,
            num_layers,
            subtree_leaves_len,
            subtree_digests_len,
            total_digests,
        }
    }
}

/// A rootless shape has as many digests as the recursive layout: all nodes of the tree less those
/// of the cap and above.
pub proof fn theorem_rootless_digest_count(shape: TreeShape)
    requires
        shape.wf(DigestLayout::Rootless),
    ensures
        shape.total_digests == (2 * shape.leaf_count - 1) - (2 * shape.num_caps - 1),
        shape.subtree_digests_len == layout::subtree_slots(shape.num_layers as nat),
{
    layout::theorem_digest_count(shape.tree_height as nat, shape.cap_height as nat);
    lemma_mul_is_commutative(shape.subtree_digests_len as int, shape.num_caps as int);
}

/// A heap shape has one place more for each subtree.
pub proof fn theorem_heap_digest_count(shape: TreeShape)
    requires
        shape.wf(DigestLayout::Heap),
    ensures
        shape.total_digests == 2 * shape.leaf_count - shape.num_caps,
{
    shape.lemma_bounds();
    let n = shape.subtree_leaves_len as int;
    let m = shape.num_caps as int;
    assert((2 * n - 1) * m == 2 * (n * m) - m) by (nonlinear_arith);
}

/// What a launch computes.
#[derive(Clone, Copy, Debug, PartialEq, Eq, Structural)]
pub enum Phase {
    /// Leaf digests, from the leaves. Binds the leaves at 0, the digests at 1, its parameters at 2
    /// and its flags at 3.
    Leaves,
    /// The digests of a level, from the level below. Binds the digests at 0, its parameters at 1
    /// and its flags or counters at 2.
    Level,
    /// The cap, from the digests. Binds the cap at 0, the digests at 1, its parameters at 2 and its
    /// flags at 3.
    Caps,
}

impl Phase {
    /// The index at which the parameters are bound.
    pub open spec fn spec_uniforms_index(self) -> u64 {
        if self is Level {
            1
        } else {
            2
        }
    }

    /// The index at which the parameters are bound.
    pub fn uniforms_index(&self) -> (r: u64)
        ensures
            r == self.spec_uniforms_index(),
            r == if *self is Level {
                1u64
            } else {
                2u64
            },
    {
        match self {
            Phase::Level => 1,
            _ => 2,
        }
    }

    /// The index at which the flags, or the counters, are bound.
    pub fn flags_index(&self) -> (r: u64)
        ensures
            r == self.spec_uniforms_index() + 1,
            r == if *self is Level {
                2u64
            } else {
                3u64
            },
    {
        self.uniforms_index() + 1
    }
}

/// Parameters of the kernels that work on the recursive layout.
#[derive(Clone, Copy, Debug, PartialEq, Eq, Structural)]
pub struct RecursiveUniforms {
    pub level: u32,
    pub tree_length: u32,
    pub num_layers: u32,
    pub leaf_length: u32,
    pub leaf_count: u32,
    pub grid_width: u32,
}

/// The parameters of a launch.
#[derive(Clone, Copy, Debug, PartialEq, Eq, Structural)]
pub enum TreeUniforms {
    Linear(LinearUniforms),
    Recursive(RecursiveUniforms),
    Coalesced(CoalescedUniforms),
}

impl TreeUniforms {
    /// The parameters as the kernels read them, one 32-bit word after another.
    pub open spec fn spec_words(self) -> Seq<u32> {
        match self {
            TreeUniforms::Linear(u) => seq![
                u.level,
                u.subtree_digests_len,
                u.subtree_leaves_len,
                u.leaf_size,
                u.leaf_count,
                u.subtree_count,
                u.grid_width,
            ],
            TreeUniforms::Recursive(u) => seq![
                u.level,
                u.tree_length,
                u.num_layers,
                u.leaf_length,
                u.leaf_count,
                u.grid_width,
            ],
            TreeUniforms::Coalesced(u) => seq![
                u.level,
                u.subtree_digests_len,
                u.subtree_leaves_len,
                u.leaf_size,
                u.leaf_count,
                u.subtree_count,
                u.nodes_per_subtree,
                u.nodes_per_dispatch,
                u.dispatch_offset,
                u.enable_counters,
            ],
        }
    }

    /// The parameters as the kernels read them, one 32-bit word after another.
    pub fn words(&self) -> (r: Vec<u32>)
        ensures
            r@ == self.spec_words(),
            *self is Linear ==> device_view::read_parameters(Kernel::HashTreeLevelLinear, r@)
                == *self,
            *self is Recursive ==> device_view::read_parameters(Kernel::HashTreeLevel, r@)
                == *self,
            *self is Coalesced ==> device_view::read_parameters(Kernel::HashTreeLevelCoalesced, r@)
                == *self,
    {
        let words: Vec<u32> = match self {
            TreeUniforms::Linear(u) => vec![
                u.level,
                u.subtree_digests_len,
                u.subtree_leaves_len,
                u.leaf_size,
                u.leaf_count,
                u.subtree_count,
                u.grid_width,
            ],
            TreeUniforms::Recursive(u) => vec![
                u.level,
                u.tree_length,
                u.num_layers,
                u.leaf_length,
                u.leaf_count,
                u.grid_width,
            ],
            TreeUniforms::Coalesced(u) => vec![
                u.level,
                u.subtree_digests_len,
                u.subtree_leaves_len,
                u.leaf_size,
                u.leaf_count,
                u.subtree_count,
                u.nodes_per_subtree,
                u.nodes_per_dispatch,
                u.dispatch_offset,
                u.enable_counters,
            ],
        };
        proof {
            assert(words@ =~= self.spec_words());
        }
        words
    }
}

/// How the threads of a launch are laid out.
#[derive(Clone, Copy, Debug, PartialEq, Eq, Structural)]
pub enum Grid {
    /// So many groups of threads.
    Groups(MTLSize),
    /// So many threads.
    Threads(MTLSize),
}

/// One kernel launch.
#[derive(Clone, Copy, Debug, PartialEq, Eq, Structural)]
pub struct Launch {
    pub kernel: Kernel,
    pub phase: Phase,
    pub uniforms: TreeUniforms,
    pub flags: Option<u32>,
    /// Bytes of memory that a thread group shares, where the launch sets them.
    pub threadgroup_memory: Option<usize>,
    pub grid: Grid,
    pub threads_per_group: MTLSize,
}

/// What a thread group keeps in its shared memory.
#[derive(Clone, Copy, Debug, PartialEq, Eq, Structural)]
pub struct TgFlags {
    /// The constants of the hash function.
    pub constants: bool,
    /// The children of the nodes that the group computes.
    pub child_cache: bool,
}

/// The bit that stands for cached constants.
pub const TG_CONST_FLAG: u32 = 1;

/// The bit that stands for cached children.
pub const TG_CHILD_CACHE_FLAG: u32 = 2;

impl TgFlags {
    /// The flags as the kernels read them.
    pub open spec fn spec_word(self) -> u32 {
        if self.constants {
            if self.child_cache {
                3
            } else {
                1
            }
        } else {
            if self.child_cache {
                2
            } else {
                0
            }
        }
    }

    /// The flags as the kernels read them.
    pub fn word(&self) -> (r: u32)
        ensures
            r == self.spec_word(),
            (r % 2 == 1) == self.constants,
            ((r / 2) % 2 == 1) == self.child_cache,
    {
        (if self.constants {
            TG_CONST_FLAG
        } else {
            0
        }) + (if self.child_cache {
            TG_CHILD_CACHE_FLAG
        } else {
            0
        })
    }
}

/// Whether a variable's value switches something on: any value but `0` does.
pub open spec fn switched_on(value: Option<Seq<char>>, default: bool) -> bool {
    match value {
        Some(v) => v != seq!['0'],
        None => default,
    }
}

/// A variable that is set switches something on unless it is `0`; one that is not set leaves it as it is
/// by default.
pub proof fn theorem_switches(value: Seq<char>, default: bool)
    ensures
        switched_on(None, default) == default,
        !switched_on(Some("0"@), default),
        value != "0"@ ==> switched_on(Some(value), default),
{
    reveal_strlit("0");
    assert("0"@ =~= seq!['0']);
}

/// Whether a variable's value switches something on.
fn is_switched_on(value: Option<&str>, default: bool) -> (r: bool)
    ensures
        r == switched_on(
            match value {
                Some(v) => Some(v@),
                None => None,
            },
            default,
        ),
{
    match value {
        Some(v) => {
            let is_zero: bool = v.unicode_len() == 1 && v.get_char(0) == '0';
            proof {
                if is_zero {
                    assert(v@ =~= seq!['0']);
                }
            }
            !is_zero
        },
        None => default,
    }
}

/// The flags that the environment asks for: constants are cached unless the first variable is `0`,
/// children are cached where the second one is set and not `0`.
pub fn tg_flags_from_env(tg_const: Option<&str>, tg_child_cache: Option<&str>) -> (r: TgFlags)
    ensures
        r.constants == switched_on(
            match tg_const {
                Some(v) => Some(v@),
                None => None,
            },
            true,
        ),
        r.child_cache == switched_on(
            match tg_child_cache {
                Some(v) => Some(v@),
                None => None,
            },
            false,
        ),
{
    TgFlags {
        constants: is_switched_on(tg_const, true),
        child_cache: is_switched_on(tg_child_cache, false),
    }
}

/// How the memory of thread groups is set.
#[derive(Clone, Copy, Debug, PartialEq, Eq, Structural)]
pub enum MemoryPolicy {
    /// Not at all.
    Unset,
    /// As the flags say, which are handed to the kernels.
    Flagged(TgFlags),
    /// For constants, and on inner levels for children too.
    Full,
}

/// Bytes of children for each thread.
pub const CHILD_CACHE_BYTES: usize = 64;

/// The bytes that a thread group of `threads` threads shares.
pub open spec fn group_memory(policy: MemoryPolicy, phase: Phase, threads: int) -> Option<usize> {
    match policy {
        MemoryPolicy::Unset => None,
        MemoryPolicy::Flagged(flags) => {
            let constants: int = if flags.constants {
                POSEIDON_CONST_SIZE as int
            } else {
                0
            };
            let children: int = if flags.child_cache && phase is Level {
                threads * CHILD_CACHE_BYTES
            } else {
                0
            };
            Some((constants + children) as usize)
        },
        MemoryPolicy::Full => {
            let children: int = if phase is Level {
                threads * CHILD_CACHE_BYTES
            } else {
                0
            };
            Some((POSEIDON_CONST_SIZE + children) as usize)
        },
    }
}

/// The flags that a launch binds.
pub open spec fn bound_flags(policy: MemoryPolicy) -> Option<u32> {
    match policy {
        MemoryPolicy::Flagged(flags) => Some(flags.spec_word()),
        _ => None,
    }
}

/// Whether groups of this many threads can be laid out.
pub open spec fn group_size_ok(threads: usize) -> bool {
    &&& 0 < threads
    &&& threads * CHILD_CACHE_BYTES + POSEIDON_CONST_SIZE <= usize::MAX
    &&& threads * MAX_GRID_DIM <= u64::MAX
}

/// The bytes that a thread group of `threads` threads shares.
pub fn compute_group_memory(policy: MemoryPolicy, phase: Phase, threads: usize) -> (r: Option<
    usize,
>)
    requires
        group_size_ok(threads),
    ensures
        r == group_memory(policy, phase, threads as int),
        policy is Unset <==> r is None,
        policy is Full ==> r->0 >= 2976,
        policy is Full && phase is Level ==> r->0 >= 2976 + 64 * threads,
        policy matches MemoryPolicy::Flagged(flags) ==> {
            &&& flags.constants ==> r->0 >= 2976
            &&& flags.child_cache && phase is Level ==> r->0 >= 64 * threads
            &&& flags.constants && flags.child_cache && phase is Level ==> r->0 >= 2976 + 64
                * threads
        },
{
    let children: usize = match phase {
        Phase::Level => threads * CHILD_CACHE_BYTES,
        _ => 0,
    };
    match policy {
        MemoryPolicy::Unset => None,
        MemoryPolicy::Flagged(flags) => Some(
            (if flags.constants {
                POSEIDON_CONST_SIZE
            } else {
                0
            }) + (if flags.child_cache {
                children
            } else {
                0
            }),
        ),
        MemoryPolicy::Full => Some(POSEIDON_CONST_SIZE + children),
    }
}

/// The flags that a launch binds.
fn compute_bound_flags(policy: MemoryPolicy) -> (r: Option<u32>)
    ensures
        r == bound_flags(policy),
{
    match policy {
        MemoryPolicy::Flagged(flags) => Some(flags.word()),
        _ => None,
    }
}

/// Which parameters the kernels of a recipe take.
#[derive(Clone, Copy, Debug, PartialEq, Eq, Structural)]
pub enum UniformKind {
    Linear,
    Recursive,
}

/// The kernels that hash a tree, and how they are set up.
#[derive(Clone, Copy, Debug, PartialEq, Eq, Structural)]
pub struct Recipe {
    pub leaves: Kernel,
    /// Whether the leaf kernel computes the first inner level too.
    pub fused: bool,
    pub level: Kernel,
    /// The kernel that computes the cap, if the device computes it.
    pub caps: Option<Kernel>,
    pub memory: MemoryPolicy,
    pub uniforms: UniformKind,
}

/// Threads in a group, for each phase.
#[derive(Clone, Copy, Debug, PartialEq, Eq, Structural)]
pub struct GroupSizes {
    pub leaves: usize,
    pub level: usize,
    pub caps: usize,
}

impl GroupSizes {
    /// Whether groups of these sizes can be laid out.
    pub open spec fn ok(self) -> bool {
        &&& group_size_ok(self.leaves)
        &&& group_size_ok(self.level)
        &&& group_size_ok(self.caps)
    }
}

/// The threads of the leaf launch.
pub open spec fn leaf_threads(shape: TreeShape, recipe: Recipe) -> int {
    if recipe.fused {
        shape.leaf_count as int / 2
    } else {
        shape.leaf_count as int
    }
}

/// The numbers of threads that the group sizes of the phases are tuned for.
pub fn tuning_counts(shape: &TreeShape, recipe: &Recipe) -> (r: GroupSizes)
    ensures
        r.leaves == leaf_threads(*shape, *recipe),
        r.leaves == if recipe.fused {
            shape.leaf_count as int / 2
        } else {
            shape.leaf_count as int
        },
        r.level == shape.leaf_count,
        r.caps == shape.num_caps,
{
    GroupSizes {
        leaves: if recipe.fused {
            shape.leaf_count / 2
        } else {
            shape.leaf_count
        },
        level: shape.leaf_count,
        caps: shape.num_caps,
    }
}

/// The first level that has a launch of its own.
pub open spec fn start_level(recipe: Recipe) -> int {
    if recipe.fused {
        2
    } else {
        1
    }
}

/// How many levels have a launch of their own.
pub open spec fn level_count(shape: TreeShape, recipe: Recipe) -> nat {
    if shape.num_layers > start_level(recipe) {
        (shape.num_layers - start_level(recipe)) as nat
    } else {
        0
    }
}

/// The grid of groups of `threads` threads that covers `count` threads.
pub open spec fn group_grid(count: int, threads: int) -> MTLSize {
    crate::gpu::metal::utils::size_for_count(crate::launch::groups_for(count, threads))
}

/// The threads in a row of that grid.
pub open spec fn grid_row(count: int, threads: int) -> u32 {
    (group_grid(count, threads).width * threads) as u32
}

/// The groups of a grid have a thread for each of `count` items.
pub proof fn theorem_group_grid_covers(count: nat, threads: nat)
    requires
        threads > 0,
        crate::launch::groups_for(count as int, threads as int) + MAX_GRID_DIM - 1 <= u64::MAX,
    ensures
        group_grid(count as int, threads as int).width * group_grid(
            count as int,
            threads as int,
        ).height * threads >= count,
{
    let g = crate::launch::groups_for(count as int, threads as int);
    crate::launch::theorem_groups_cover(count, threads);
    let grid = group_grid(count as int, threads as int);
    let all = grid.width * grid.height;
    if g <= MAX_GRID_DIM {
        assert(all == g) by (nonlinear_arith)
            requires
                all == grid.width * grid.height,
                grid.width == g,
                grid.height == 1,
        ;
    } else {
        let rows = (g + 32767) / 32768;
        assert(32768 * rows >= g);
        assert(all == 32768 * rows) by (nonlinear_arith)
            requires
                all == grid.width * grid.height,
                grid.width == 32768,
                grid.height == rows,
        ;
    }
    assert(all * threads >= g * threads) by (nonlinear_arith)
        requires
            all >= g,
            threads > 0,
    ;
}

/// The parameters of a launch at `level` on a grid with rows of `grid_width` threads.
pub open spec fn tree_uniforms(
    shape: TreeShape,
    kind: UniformKind,
    leaf_length: usize,
    level: int,
    grid_width: u32,
) -> TreeUniforms {
    match kind {
        UniformKind::Linear => TreeUniforms::Linear(
            LinearUniforms {
                level: level as u32,
                subtree_digests_len: shape.subtree_digests_len as u32,
                subtree_leaves_len: shape.subtree_leaves_len as u32,
                leaf_size: leaf_length as u32,
                leaf_count: shape.leaf_count as u32,
                subtree_count: shape.num_caps as u32,
                grid_width,
            },
        ),
        UniformKind::Recursive => TreeUniforms::Recursive(
            RecursiveUniforms {
                level: level as u32,
                tree_length: shape.subtree_digests_len as u32,
                num_layers: shape.num_layers as u32,
                leaf_length: leaf_length as u32,
                leaf_count: shape.leaf_count as u32,
                grid_width,
            },
        ),
    }
}

/// The nodes of a level, in all subtrees.
pub open spec fn level_nodes(shape: TreeShape, level: int) -> int {
    shape.leaf_count as int / pow2(level as nat) as int
}

/// The launch that hashes the leaves.
pub open spec fn leaves_launch(
    shape: TreeShape,
    recipe: Recipe,
    leaf_length: usize,
    sizes: GroupSizes,
) -> Launch {
    let count = leaf_threads(shape, recipe);
    let threads = sizes.leaves as int;
    Launch {
        kernel: recipe.leaves,
        phase: Phase::Leaves,
        uniforms: tree_uniforms(
            shape,
            recipe.uniforms,
            leaf_length,
            0,
            grid_row(count, threads),
        ),
        flags: bound_flags(recipe.memory),
        threadgroup_memory: group_memory(recipe.memory, Phase::Leaves, threads),
        grid: Grid::Groups(group_grid(count, threads)),
        threads_per_group: MTLSize::spec_line(threads),
    }
}

/// The launch that hashes `level`.
pub open spec fn level_launch(
    shape: TreeShape,
    recipe: Recipe,
    leaf_length: usize,
    sizes: GroupSizes,
    level: int,
) -> Launch {
    let count = level_nodes(shape, level);
    let threads = sizes.level as int;
    Launch {
        kernel: recipe.level,
        phase: Phase::Level,
        uniforms: tree_uniforms(
            shape,
            recipe.uniforms,
            leaf_length,
            level,
            grid_row(count, threads),
        ),
        flags: bound_flags(recipe.memory),
        threadgroup_memory: group_memory(recipe.memory, Phase::Level, threads),
        grid: Grid::Groups(group_grid(count, threads)),
        threads_per_group: MTLSize::spec_line(threads),
    }
}

/// The parameters that the last launch before the cap was given.
pub open spec fn last_uniforms(
    shape: TreeShape,
    recipe: Recipe,
    leaf_length: usize,
    sizes: GroupSizes,
) -> TreeUniforms {
    if level_count(shape, recipe) == 0 {
        leaves_launch(shape, recipe, leaf_length, sizes).uniforms
    } else {
        level_launch(shape, recipe, leaf_length, sizes, shape.num_layers - 1).uniforms
    }
}

/// The launch that hashes the cap.
pub open spec fn caps_launch(
    shape: TreeShape,
    recipe: Recipe,
    kernel: Kernel,
    leaf_length: usize,
    sizes: GroupSizes,
) -> Launch {
    let threads = sizes.caps as int;
    let groups = crate::launch::groups_for(shape.num_caps as int, threads);
    Launch {
        kernel,
        phase: Phase::Caps,
        uniforms: last_uniforms(shape, recipe, leaf_length, sizes),
        flags: bound_flags(recipe.memory),
        threadgroup_memory: group_memory(recipe.memory, Phase::Caps, threads),
        grid: Grid::Groups(
            MTLSize::spec_line(
                if groups >= 1 {
                    groups
                } else {
                    1
                },
            ),
        ),
        threads_per_group: MTLSize::spec_line(
            if threads <= shape.num_caps {
                threads
            } else {
                shape.num_caps as int
            },
        ),
    }
}

/// The launches that hash a tree: the leaves, each inner level, and the cap.
pub open spec fn tree_schedule(
    shape: TreeShape,
    recipe: Recipe,
    leaf_length: usize,
    sizes: GroupSizes,
) -> Seq<Launch> {
    let body = seq![leaves_launch(shape, recipe, leaf_length, sizes)] + Seq::new(
        level_count(shape, recipe),
        |i: int| level_launch(shape, recipe, leaf_length, sizes, start_level(recipe) + i),
    );
    match recipe.caps {
        Some(kernel) => body.push(caps_launch(shape, recipe, kernel, leaf_length, sizes)),
        None => body,
    }
}

/// Every level is hashed: the leaves first, then one level after another, a fused first level with
/// the leaves.
pub proof fn theorem_schedule_covers_levels(
    shape: TreeShape,
    recipe: Recipe,
    leaf_length: usize,
    sizes: GroupSizes,
    level: int,
)
    requires
        0 <= level < shape.num_layers,
    ensures
        ({
            let schedule = tree_schedule(shape, recipe, leaf_length, sizes);
            if level == 0 || level == 1 && recipe.fused {
                schedule[0] == leaves_launch(shape, recipe, leaf_length, sizes)
            } else {
                let i = 1 + level - start_level(recipe);
                &&& 0 < i < schedule.len()
                &&& schedule[i] == level_launch(shape, recipe, leaf_length, sizes, level)
            }
        }),
{
}

/// The grid of groups that covers `count` threads, and the threads in one of its rows.
pub fn lay_out(count: usize, threads: usize) -> (r: (MTLSize, u32))
    requires
        group_size_ok(threads),
        count * 64 <= usize::MAX,
        count + MAX_GRID_DIM <= usize::MAX,
    ensures
        r.0 == group_grid(count as int, threads as int),
        r.1 == grid_row(count as int, threads as int),
{
    proof {
        crate::launch::theorem_groups_cover(count as nat, threads as nat);
        let g = crate::launch::groups_for(count as int, threads as int);
        assert(g <= count) by (nonlinear_arith)
            requires
                g > 0 ==> (g - 1) * threads < count,
                threads >= 1,
                count >= 0,
        ;
    }
    let groups: usize = group_count(count, threads);
    let grid: MTLSize = get_size_for_count(groups);
    proof {
        assert(grid.width * threads <= MAX_GRID_DIM * threads) by (nonlinear_arith)
            requires
                grid.width <= MAX_GRID_DIM,
                threads >= 0,
        ;
        lemma_mul_is_commutative(threads as int, MAX_GRID_DIM as int);
    }
    let row: u32 = #[verifier::truncate] ((grid.width * (threads as u64)) as u32);
    (grid, row)
}

/// The parameters of a launch.
fn make_uniforms(
    shape: &TreeShape,
    kind: UniformKind,
    leaf_length: usize,
    level: usize,
    grid_width: u32,
) -> (r: TreeUniforms)
    ensures
        r == tree_uniforms(*shape, kind, leaf_length, level as int, grid_width),
{
    match kind {
        UniformKind::Linear => TreeUniforms::Linear(
            LinearUniforms {
                level: #[verifier::truncate] (level as u32),
                subtree_digests_len: #[verifier::truncate] (shape.subtree_digests_len as u32),
                subtree_leaves_len: #[verifier::truncate] (shape.subtree_leaves_len as u32),
                leaf_size: #[verifier::truncate] (leaf_length as u32),
                leaf_count: #[verifier::truncate] (shape.leaf_count as u32),
                subtree_count: #[verifier::truncate] (shape.num_caps as u32),
                grid_width,
            },
        ),
        UniformKind::Recursive => TreeUniforms::Recursive(
            RecursiveUniforms {
                level: #[verifier::truncate] (level as u32),
                tree_length: #[verifier::truncate] (shape.subtree_digests_len as u32),
                num_layers: #[verifier::truncate] (shape.num_layers as u32),
                leaf_length: #[verifier::truncate] (leaf_length as u32),
                leaf_count: #[verifier::truncate] (shape.leaf_count as u32),
                grid_width,
            },
        ),
    }
}

/// The launches that hash a tree.
pub fn encode_tree(
    shape: &TreeShape,
    recipe: &Recipe,
    leaf_length: usize,
    sizes: &GroupSizes,
) -> (r: Vec<Launch>)
    requires
        shape.valid(),
        sizes.ok(),
    ensures
        r@ == tree_schedule(*shape, *recipe, leaf_length, *sizes),
{
    proof {
        shape.lemma_bounds();
    }
    let flags: Option<u32> = compute_bound_flags(recipe.memory);
    let mut launches: Vec<Launch> = Vec::new();
    let leaf_threads: usize = if recipe.fused {
        shape.leaf_count / 2
    } else {
        shape.leaf_count
    };
    let (leaf_grid, leaf_row) = lay_out(leaf_threads, sizes.leaves);
    let mut uniforms: TreeUniforms = make_uniforms(
        shape,
        recipe.uniforms,
        leaf_length,
        0,
        leaf_row,
    );
    launches.push(
        Launch {
            kernel: recipe.leaves,
            phase: Phase::Leaves,
            uniforms,
            flags,
            threadgroup_memory: compute_group_memory(recipe.memory, Phase::Leaves, sizes.leaves),
            grid: Grid::Groups(leaf_grid),
            threads_per_group: MTLSize::line(sizes.leaves),
        },
    );
    let start: usize = if recipe.fused {
        2
    } else {
        1
    };
    let ghost first = leaves_launch(*shape, *recipe, leaf_length, *sizes);
    let mut level: usize = start;
    while level < shape.num_layers
        invariant
            shape.valid(),
            sizes.ok(),
            flags == bound_flags(recipe.memory),
            start == start_level(*recipe),
            start <= level,
            level <= shape.num_layers || level == start,
            first == leaves_launch(*shape, *recipe, leaf_length, *sizes),
            shape.leaf_count * 64 <= usize::MAX,
            shape.leaf_count + MAX_GRID_DIM <= usize::MAX,
            shape.num_layers < usize::BITS,
            launches@ == seq![first] + Seq::new(
                (level - start) as nat,
                |i: int| level_launch(*shape, *recipe, leaf_length, *sizes, start + i),
            ),
            uniforms == if level == start {
                first.uniforms
            } else {
                level_launch(*shape, *recipe, leaf_length, *sizes, level - 1).uniforms
            },
        decreases shape.num_layers - level,
    {
        let nodes: usize = bits::shr(shape.leaf_count, level);
        proof {
            lemma_pow2_pos(level as nat);
            lemma_div_nonincreasing(shape.leaf_count as int, pow2(level as nat) as int);
        }
        let (grid, row) = lay_out(nodes, sizes.level);
        uniforms = make_uniforms(shape, recipe.uniforms, leaf_length, level, row);
        launches.push(
            Launch {
                kernel: recipe.level,
                phase: Phase::Level,
                uniforms,
                flags,
                threadgroup_memory: compute_group_memory(recipe.memory, Phase::Level, sizes.level),
                grid: Grid::Groups(grid),
                threads_per_group: MTLSize::line(sizes.level),
            },
        );
        level = level + 1;
    }
    proof {
        assert(level_count(*shape, *recipe) == level - start);
    }
    if let Some(kernel) = recipe.caps {
        let groups: usize = group_count(shape.num_caps, sizes.caps);
        launches.push(
            Launch {
                kernel,
                phase: Phase::Caps,
                uniforms,
                flags,
                threadgroup_memory: compute_group_memory(recipe.memory, Phase::Caps, sizes.caps),
                grid: Grid::Groups(
                    MTLSize::line(
                        if groups >= 1 {
                            groups
                        } else {
                            1
                        },
                    ),
                ),
                threads_per_group: MTLSize::line(
                    if sizes.caps <= shape.num_caps {
                        sizes.caps
                    } else {
                        shape.num_caps
                    },
                ),
            },
        );
    }
    launches
}

} // verus!
