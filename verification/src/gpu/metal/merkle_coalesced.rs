//! Large trees, hashed on a grid of nodes by subtrees, in chunks where that keeps caches warm.

use crate::bits;
use crate::gpu::metal::allocation;
use crate::gpu::metal::buffer_pool::{self, Buffer};
use crate::gpu::metal::coalesced_plan::{
    self, chunk_ranges, dispatch_level_single, encode_coalesced, encode_leaf_chunk_subtrees,
    CoalescedKernels, CoalescedSizes,
};
use crate::gpu::metal::merkle_linear_threadgroup::{self, LargeTreeCounter};
use crate::gpu::metal::merkle_tree::{self, Route, RoutedTree};
use crate::gpu::metal::pipeline::Kernel;
use crate::gpu::metal::plan::{
    self, DigestLayout, Grid, Launch, Phase, TreeShape, TreeUniforms,
};
use crate::gpu::metal::runtime::MetalRuntime;
use crate::gpu::metal::utils::{
    self, CoalescedUniforms, HashOut, POSEIDON_CONST_SIZE,
};
use crate::gpu::metal::work::{self, reserve, ClearPolicy, TreeWork};
use crate::launch::{group_count, MTLSize};
use vstd::arithmetic::div_mod::*;
use vstd::arithmetic::mul::*;
use vstd::arithmetic::power2::*;
use vstd::prelude::*;

verus! {

/// Logarithm of the chunk size unless it is set.
pub const DEFAULT_CHUNK_SIZE_LOG2: usize = 18;

/// The smallest logarithm of a chunk size.
pub const MIN_CHUNK_SIZE_LOG2: usize = 10;

/// The largest logarithm of a chunk size.
pub const MAX_CHUNK_SIZE_LOG2: usize = 24;

/// The height threshold unless it is set.
pub const DEFAULT_COALESCED_HEIGHT_THRESHOLD: usize = 21;

/// The smallest height threshold.
pub const MIN_COALESCED_HEIGHT_THRESHOLD: usize = 13;

/// The largest height threshold.
pub const MAX_COALESCED_HEIGHT_THRESHOLD: usize = 30;

/// What can be set for the coalesced kernels.
#[derive(Clone, Copy, Debug, PartialEq, Eq, Structural)]
pub struct CoalescedSettings {
    pub chunk_size_log2: usize,
    pub double_buffer_enabled: bool,
    pub coalesced_height_threshold: usize,
}

/// What is counted while trees are hashed. Counters wrap around.
#[derive(Clone, Copy, Debug, PartialEq, Eq, Structural)]
pub struct DispatchCounters {
    pub chunk_dispatches: usize,
    pub level_dispatches: usize,
    pub staging_buffer_switches: usize,
}

impl CoalescedSettings {
    /// All settings are in their ranges.
    pub open spec fn wf(&self) -> bool {
        &&& MIN_CHUNK_SIZE_LOG2 <= self.chunk_size_log2 <= MAX_CHUNK_SIZE_LOG2
        &&& MIN_COALESCED_HEIGHT_THRESHOLD <= self.coalesced_height_threshold
            <= MAX_COALESCED_HEIGHT_THRESHOLD
    }
}

impl Default for CoalescedSettings {
    fn default() -> (r: CoalescedSettings)
        ensures
            r.wf(),
            r.chunk_size_log2 == DEFAULT_CHUNK_SIZE_LOG2,
            r.double_buffer_enabled,
            r.coalesced_height_threshold == DEFAULT_COALESCED_HEIGHT_THRESHOLD,
            r.chunk_size_log2 == 18,
            r.coalesced_height_threshold == 21,
    {
        CoalescedSettings {
            chunk_size_log2: DEFAULT_CHUNK_SIZE_LOG2,
            double_buffer_enabled: true,
            coalesced_height_threshold: DEFAULT_COALESCED_HEIGHT_THRESHOLD,
        }
    }
}

impl Default for DispatchCounters {
    fn default() -> (r: DispatchCounters)
        ensures
            r.chunk_dispatches == 0,
            r.level_dispatches == 0,
            r.staging_buffer_switches == 0,
    {
        DispatchCounters { chunk_dispatches: 0, level_dispatches: 0, staging_buffer_switches: 0 }
    }
}

/// Chunks are of `2^10` up to `2^24` leaves, and the threshold is a height from 13 up to 30.
pub proof fn theorem_setting_limits(settings: CoalescedSettings)
    ensures
        settings.wf() <==> 10 <= settings.chunk_size_log2 <= 24 && 13
            <= settings.coalesced_height_threshold <= 30,
{
}

/// Sets the chunk size.
pub fn set_chunk_size_log2(settings: &mut CoalescedSettings, chunk_log2: usize)
    requires
        MIN_CHUNK_SIZE_LOG2 <= chunk_log2 <= MAX_CHUNK_SIZE_LOG2,
    ensures
        *final(settings) == (CoalescedSettings { chunk_size_log2: chunk_log2, ..*old(settings) }),
{
    settings.chunk_size_log2 = chunk_log2;
}

/// Logarithm of the chunk size.
pub fn get_chunk_size_log2(settings: &CoalescedSettings) -> (r: usize)
    ensures
        r == settings.chunk_size_log2,
{
    settings.chunk_size_log2
}

/// The chunk size.
pub fn get_chunk_size(settings: &CoalescedSettings) -> (r: usize)
    requires
        settings.wf(),
    ensures
        r == pow2(settings.chunk_size_log2 as nat),
        0x400 <= r <= 0x1000000,
{
    proof {
        lemma2_to64();
        bits::lemma_pow2_monotonic(10, settings.chunk_size_log2 as nat);
        bits::lemma_pow2_monotonic(settings.chunk_size_log2 as nat, 24);
    }
    bits::shl_one(settings.chunk_size_log2)
}

/// Turns double buffering on or off.
pub fn set_double_buffer_enabled(settings: &mut CoalescedSettings, enabled: bool)
    ensures
        *final(settings) == (CoalescedSettings { double_buffer_enabled: enabled, ..*old(
            settings,
        ) }),
{
    settings.double_buffer_enabled = enabled;
}

/// Whether double buffering is on.
pub fn is_double_buffer_enabled(settings: &CoalescedSettings) -> (r: bool)
    ensures
        r == settings.double_buffer_enabled,
{
    settings.double_buffer_enabled
}

/// Sets the height from which on trees are hashed by the coalesced kernels.
pub fn set_coalesced_height_threshold(settings: &mut CoalescedSettings, threshold: usize)
    requires
        MIN_COALESCED_HEIGHT_THRESHOLD <= threshold <= MAX_COALESCED_HEIGHT_THRESHOLD,
    ensures
        *final(settings) == (CoalescedSettings { coalesced_height_threshold: threshold, ..*old(
            settings,
        ) }),
{
    settings.coalesced_height_threshold = threshold;
}

/// The height from which on trees are hashed by the coalesced kernels.
pub fn get_coalesced_height_threshold(settings: &CoalescedSettings) -> (r: usize)
    ensures
        r == settings.coalesced_height_threshold,
{
    settings.coalesced_height_threshold
}

/// Remembers a height threshold to go back to.
#[derive(Debug, PartialEq, Eq, Structural)]
pub struct CoalescedThresholdGuard {
    pub original_threshold: usize,
}

impl CoalescedThresholdGuard {
    /// Sets the threshold and remembers the one before.
    pub fn new(settings: &mut CoalescedSettings, threshold: usize) -> (r: Self)
        requires
            MIN_COALESCED_HEIGHT_THRESHOLD <= threshold <= MAX_COALESCED_HEIGHT_THRESHOLD,
        ensures
            r.original_threshold == old(settings).coalesced_height_threshold,
            *final(settings) == (CoalescedSettings { coalesced_height_threshold: threshold, ..*old(
                settings,
            ) }),
    {
        let original_threshold: usize = get_coalesced_height_threshold(settings);
        set_coalesced_height_threshold(settings, threshold);
        CoalescedThresholdGuard { original_threshold }
    }

    /// Goes back to the threshold before.
    pub fn restore(self, settings: &mut CoalescedSettings)
        requires
            MIN_COALESCED_HEIGHT_THRESHOLD <= self.original_threshold
                <= MAX_COALESCED_HEIGHT_THRESHOLD,
        ensures
            *final(settings) == (CoalescedSettings {
                coalesced_height_threshold: self.original_threshold,
                ..*old(settings)
            }),
    {
        set_coalesced_height_threshold(settings, self.original_threshold);
    }
}

/// Remembers a chunk size to go back to.
#[derive(Debug, PartialEq, Eq, Structural)]
pub struct ChunkSizeGuard {
    pub original_chunk_size: usize,
}

impl ChunkSizeGuard {
    /// Sets the chunk size and remembers the one before.
    pub fn new(settings: &mut CoalescedSettings, chunk_log2: usize) -> (r: Self)
        requires
            MIN_CHUNK_SIZE_LOG2 <= chunk_log2 <= MAX_CHUNK_SIZE_LOG2,
        ensures
            r.original_chunk_size == old(settings).chunk_size_log2,
            *final(settings) == (CoalescedSettings { chunk_size_log2: chunk_log2, ..*old(
                settings,
            ) }),
    {
        let original_chunk_size: usize = get_chunk_size_log2(settings);
        set_chunk_size_log2(settings, chunk_log2);
        ChunkSizeGuard { original_chunk_size }
    }

    /// Goes back to the chunk size before.
    pub fn restore(self, settings: &mut CoalescedSettings)
        requires
            MIN_CHUNK_SIZE_LOG2 <= self.original_chunk_size <= MAX_CHUNK_SIZE_LOG2,
        ensures
            *final(settings) == (CoalescedSettings {
                chunk_size_log2: self.original_chunk_size,
                ..*old(settings)
            }),
    {
        set_chunk_size_log2(settings, self.original_chunk_size);
    }
}

/// Remembers whether double buffering was on.
#[derive(Debug, PartialEq, Eq, Structural)]
pub struct DoubleBufferGuard {
    pub original_enabled: bool,
}

impl DoubleBufferGuard {
    /// Turns double buffering on or off and remembers what it was.
    pub fn new(settings: &mut CoalescedSettings, enabled: bool) -> (r: Self)
        ensures
            r.original_enabled == old(settings).double_buffer_enabled,
            *final(settings) == (CoalescedSettings { double_buffer_enabled: enabled, ..*old(
                settings,
            ) }),
    {
        let original_enabled: bool = is_double_buffer_enabled(settings);
        set_double_buffer_enabled(settings, enabled);
        DoubleBufferGuard { original_enabled }
    }

    /// Goes back to what it was.
    pub fn restore(self, settings: &mut CoalescedSettings)
        ensures
            *final(settings) == (CoalescedSettings {
                double_buffer_enabled: self.original_enabled,
                ..*old(settings)
            }),
    {
        set_double_buffer_enabled(settings, self.original_enabled);
    }
}

/// Guards that are restored in the reverse order of their creation leave the settings as they were,
/// whatever values they set.
pub proof fn theorem_guards_restore(
    before: CoalescedSettings,
    threshold: usize,
    chunk_log2: usize,
    enabled: bool,
)
    ensures
        ({
            let a = CoalescedSettings { coalesced_height_threshold: threshold, ..before };
            let b = CoalescedSettings { chunk_size_log2: chunk_log2, ..a };
            let c = CoalescedSettings { double_buffer_enabled: enabled, ..b };
            let d = CoalescedSettings { double_buffer_enabled: b.double_buffer_enabled, ..c };
            let e = CoalescedSettings { chunk_size_log2: a.chunk_size_log2, ..d };
            let f = CoalescedSettings {
                coalesced_height_threshold: before.coalesced_height_threshold,
                ..e
            };
            f == before
        }),
{
}

/// The chunk dispatches that were counted.
pub fn get_last_chunk_dispatch_count(counters: &DispatchCounters) -> (r: usize)
    ensures
        r == counters.chunk_dispatches,
{
    counters.chunk_dispatches
}

/// Counts chunk dispatches anew.
pub fn reset_chunk_dispatch_count(counters: &mut DispatchCounters)
    ensures
        *final(counters) == (DispatchCounters { chunk_dispatches: 0, ..*old(counters) }),
{
    counters.chunk_dispatches = 0;
}

/// The level dispatches that were counted.
pub fn get_last_level_dispatch_count(counters: &DispatchCounters) -> (r: usize)
    ensures
        r == counters.level_dispatches,
{
    counters.level_dispatches
}

/// Counts level dispatches anew.
pub fn reset_level_dispatch_count(counters: &mut DispatchCounters)
    ensures
        *final(counters) == (DispatchCounters { level_dispatches: 0, ..*old(counters) }),
{
    counters.level_dispatches = 0;
}

/// The staging buffer switches that were counted.
pub fn get_staging_buffer_switches(counters: &DispatchCounters) -> (r: usize)
    ensures
        r == counters.staging_buffer_switches,
{
    counters.staging_buffer_switches
}

/// Counts staging buffer switches anew.
pub fn reset_staging_buffer_switches(counters: &mut DispatchCounters)
    ensures
        *final(counters) == (DispatchCounters { staging_buffer_switches: 0, ..*old(counters) }),
{
    counters.staging_buffer_switches = 0;
}

/// A counter after `n` more events; it wraps around.
pub open spec fn advanced(count: usize, n: int) -> usize {
    ((count + n) % (usize::MAX + 1)) as usize
}

/// Counting in steps counts the same as counting at once, and a counter that does not wrap around counts
/// exactly.
pub proof fn theorem_advanced(count: usize, m: nat, n: nat)
    ensures
        advanced(advanced(count, m as int), n as int) == advanced(count, (m + n) as int),
        count + n <= usize::MAX ==> advanced(count, n as int) == count + n,
{
    let w = usize::MAX + 1;
    lemma_mod_bound(count + m, w);
    lemma_add_mod_noop(count + m, n as int, w);
    lemma_add_mod_noop((count + m) % w, n as int, w);
    lemma_mod_twice(count + m, w);
    if count + n <= usize::MAX {
        lemma_small_mod((count + n) as nat, w as nat);
    }
}

/// A counter after one more event.
pub proof fn lemma_advanced_once(count: usize)
    ensures
        advanced(count, 1) == if count == usize::MAX {
            0
        } else {
            (count + 1) as usize
        },
{
    let m = usize::MAX + 1;
    if count == usize::MAX {
        lemma_mod_self_0(m);
    } else {
        lemma_small_mod((count + 1) as nat, m as nat);
    }
}

/// A counter after `n` more events.
fn advance(count: usize, n: usize) -> (r: usize)
    ensures
        r == advanced(count, n as int),
{
    proof {
        let m = usize::MAX + 1;
        if count + n <= usize::MAX {
            lemma_small_mod((count + n) as nat, m as nat);
        } else {
            lemma_mod_multiples_vanish(1, count + n - m, m);
            lemma_small_mod((count + n - m) as nat, m as nat);
        }
    }
    count.wrapping_add(n)
}

/// Subtrees whose leaves are hashed in one launch.
pub open spec fn subtrees_per_chunk(chunk_size: int, subtree_leaves_len: int) -> int {
    let n = crate::launch::groups_for(chunk_size, subtree_leaves_len);
    if n >= 1 {
        n
    } else {
        1
    }
}

/// A chunk of leaves is of whole subtrees: as few as make up the chunk size, and at least one.
pub proof fn theorem_subtrees_per_chunk(chunk_size: int, subtree_leaves_len: int)
    requires
        0 <= chunk_size,
        0 < subtree_leaves_len,
    ensures
        ({
            let n = subtrees_per_chunk(chunk_size, subtree_leaves_len);
            &&& n >= 1
            &&& n * subtree_leaves_len >= chunk_size
            &&& n > 1 ==> (n - 1) * subtree_leaves_len < chunk_size
        }),
{
    crate::launch::theorem_groups_cover(chunk_size as nat, subtree_leaves_len as nat);
    let n = crate::launch::groups_for(chunk_size, subtree_leaves_len);
    if n < 1 {
        assert(n * subtree_leaves_len == 0) by (nonlinear_arith)
            requires
                n == 0,
        ;
    }
}

/// The launches of the leaves in chunks.
pub open spec fn leaf_chunk_schedule(
    kernel: Kernel,
    chunk_size: int,
    leaf_length: usize,
    digests_len: usize,
    leaves_len: usize,
    num_caps: usize,
    threads: usize,
) -> Seq<Launch> {
    let chunks = coalesced_plan::chunks_of(
        num_caps as int,
        subtrees_per_chunk(chunk_size, leaves_len as int),
    );
    Seq::new(
        chunks.len(),
        |k: int|
            coalesced_plan::leaf_chunk_launch(
                kernel,
                chunks[k].0 as int,
                chunks[k].1 as int,
                leaf_length,
                digests_len,
                leaves_len,
                num_caps as int,
                threads as int,
            ),
    )
}

/// The nodes of a level that are hashed in one launch, in each subtree.
pub open spec fn level_chunk_size(chunk_size: int, nodes: int) -> int {
    if chunk_size <= nodes {
        chunk_size
    } else {
        nodes
    }
}

/// A chunk of a level is as large as the chunk size and the level allow.
pub proof fn theorem_level_chunk_size(chunk_size: int, nodes: int)
    ensures
        level_chunk_size(chunk_size, nodes) <= chunk_size,
        level_chunk_size(chunk_size, nodes) <= nodes,
        level_chunk_size(chunk_size, nodes) == chunk_size || level_chunk_size(chunk_size, nodes)
            == nodes,
{
}

/// The launches of a level in chunks.
pub open spec fn level_chunk_schedule(
    kernel: Kernel,
    chunk_size: int,
    level: usize,
    digests_len: usize,
    leaves_len: usize,
    num_caps: usize,
    threads: Seq<usize>,
) -> Seq<Launch> {
    let nodes = coalesced_plan::nodes_per_subtree(leaves_len as int, level as nat);
    let chunks = coalesced_plan::chunks_of(nodes, level_chunk_size(chunk_size, nodes));
    Seq::new(
        chunks.len(),
        |k: int|
            coalesced_plan::level_chunk_launch(
                kernel,
                level,
                digests_len,
                leaves_len,
                num_caps as int,
                chunks[k].1 as int,
                chunks[k].0 as int,
                threads[k] as int,
            ),
    )
}

/// A level that is hashed by the instrumented kernel.
#[derive(Debug)]
pub struct InstrumentedLevel {
    /// Bytes of the counter buffer, which is cleared.
    pub counter_buffer_size: usize,
    pub launch: Launch,
}

/// Bytes of the access counters.
pub const ACCESS_COUNTERS_BYTES: usize = 8;

impl MetalRuntime {
    /// Routes a tree as the linear layout with shared memory does.
    pub fn new_merkle_tree_coalesced(
        counter: &mut LargeTreeCounter,
        leaves: &Vec<Vec<u64>>,
        cap_height: usize,
    ) -> (r: RoutedTree)
        requires
            merkle_tree::buildable(leaves@, cap_height as int),
        ensures
            merkle_tree::is_routed(leaves@, cap_height as int, Route::Cpu, r),
            final(counter).count == merkle_linear_threadgroup::counted(
                old(counter).count,
                r.tree_height as int,
            ),
    {
        MetalRuntime::new_merkle_tree_linear_threadgroup(counter, leaves, cap_height)
    }

    /// Plans a tree.
    pub fn hash_merkle_tree_coalesced_buf_ho(
        &mut self,
        tree_height: usize,
        leaf_length: usize,
        cap_height: usize,
        sizes: &CoalescedSizes,
    ) -> (r: TreeWork)
        requires
            old(self).wf(),
            TreeShape::plannable(tree_height as int, cap_height as int),
            sizes.ok(tree_height - cap_height),
        ensures
            final(self).wf(),
            final(self).same_pipelines(*old(self)),
            is_coalesced_work(
                &old(self).pool,
                DigestLayout::Heap,
                tree_height,
                cap_height,
                leaf_length,
                *sizes,
                r,
                &final(self).pool,
            ),
    {
        self.hash_merkle_tree_single_pass(tree_height, leaf_length, cap_height, sizes)
    }

    /// Plans a tree as a single sequence of launches.
    pub fn hash_merkle_tree_single_pass(
        &mut self,
        tree_height: usize,
        leaf_length: usize,
        cap_height: usize,
        sizes: &CoalescedSizes,
    ) -> (r: TreeWork)
        requires
            old(self).wf(),
            TreeShape::plannable(tree_height as int, cap_height as int),
            sizes.ok(tree_height - cap_height),
        ensures
            final(self).wf(),
            final(self).same_pipelines(*old(self)),
            is_coalesced_work(
                &old(self).pool,
                DigestLayout::Heap,
                tree_height,
                cap_height,
                leaf_length,
                *sizes,
                r,
                &final(self).pool,
            ),
    {
        let kernels: CoalescedKernels = CoalescedKernels {
            leaves: self.get_poseidon_hash_leaves_coalesced_pipeline_state().kernel,
            level: self.get_poseidon_hash_tree_level_coalesced_pipeline_state().kernel,
            caps: self.get_poseidon_hash_caps_coalesced_pipeline_state().kernel,
        };
        plan_coalesced_tree(
            &mut self.pool,
            DigestLayout::Heap,
            tree_height,
            cap_height,
            &kernels,
            leaf_length,
            sizes,
        )
    }

    /// Takes the results of a tree over, in the recursive layout, and gives its buffers back.
    pub fn finish_single_pass(
        &mut self,
        shape: &TreeShape,
        linear_digests: &Vec<HashOut>,
        caps: Vec<HashOut>,
        digests_buffer: Buffer,
        caps_buffer: Buffer,
    ) -> (r: (Vec<HashOut>, Vec<HashOut>))
        requires
            old(self).wf(),
            shape.wf(DigestLayout::Heap),
            linear_digests@.len() == shape.total_digests,
            caps@.len() == shape.num_caps,
            digests_buffer.length <= pow2((usize::BITS - 1) as nat),
            caps_buffer.length <= pow2((usize::BITS - 1) as nat),
        ensures
            final(self).wf(),
            final(self).same_pipelines(*old(self)),
            work::is_returned(&old(self).pool, digests_buffer, caps_buffer, &final(self).pool),
            r.0@ == utils::recursive_digests(
                linear_digests@,
                shape.num_layers as nat,
                shape.num_caps as nat,
            ),
            r.1@ == caps@,
    {
        self.finish_linear(shape, linear_digests, caps, digests_buffer, caps_buffer)
    }

    /// The launch that hashes all leaves.
    pub fn dispatch_leaves_chunked(
        &self,
        leaf_length: usize,
        subtree_digests_len: usize,
        subtree_leaves_len: usize,
        num_caps: usize,
        threads: usize,
    ) -> (r: Launch)
        requires
            self.wf(),
            subtree_leaves_len * num_caps <= usize::MAX,
        ensures
            r == coalesced_plan::leaf_chunk_launch(
                Kernel::HashLeavesCoalesced,
                0,
                num_caps as int,
                leaf_length,
                subtree_digests_len,
                subtree_leaves_len,
                num_caps as int,
                threads as int,
            ),
    {
        encode_leaf_chunk_subtrees(
            self.get_poseidon_hash_leaves_coalesced_pipeline_state().kernel,
            0,
            num_caps,
            leaf_length,
            subtree_digests_len,
            subtree_leaves_len,
            num_caps,
            threads,
        )
    }

    /// The launches that hash the leaves in chunks of subtrees. Each is committed before the one
    /// before it is waited for, so there is a switch of staging buffers between any two of them.
    pub fn dispatch_leaves_double_buffered(
        &self,
        settings: &CoalescedSettings,
        counters: &mut DispatchCounters,
        leaf_length: usize,
        subtree_digests_len: usize,
        subtree_leaves_len: usize,
        num_caps: usize,
        threads: usize,
    ) -> (r: Vec<Launch>)
        requires
            self.wf(),
            settings.wf(),
            subtree_leaves_len > 0,
            num_caps > 0,
            subtree_leaves_len * num_caps <= usize::MAX,
            subtree_leaves_len + 0x1000000 <= usize::MAX,
            num_caps + 0x1000000 <= usize::MAX,
        ensures
            r@ == leaf_chunk_schedule(
                Kernel::HashLeavesCoalesced,
                pow2(settings.chunk_size_log2 as nat) as int,
                leaf_length,
                subtree_digests_len,
                subtree_leaves_len,
                num_caps,
                threads,
            ),
            *final(counters) == (DispatchCounters {
                staging_buffer_switches: advanced(
                    old(counters).staging_buffer_switches,
                    r@.len() - 1,
                ),
                ..*old(counters)
            }),
    {
        let kernel: Kernel = self.get_poseidon_hash_leaves_coalesced_pipeline_state().kernel;
        let chunk_size: usize = get_chunk_size(settings);
        let rounded: usize = group_count(chunk_size, subtree_leaves_len);
        let per_chunk: usize = if rounded >= 1 {
            rounded
        } else {
            1
        };
        proof {
            crate::launch::theorem_groups_cover(chunk_size as nat, subtree_leaves_len as nat);
            assert(rounded <= chunk_size) by (nonlinear_arith)
                requires
                    rounded > 0 ==> (rounded - 1) * subtree_leaves_len < chunk_size,
                    subtree_leaves_len >= 1,
                    chunk_size >= 0,
            ;
            crate::launch::theorem_groups_cover(num_caps as nat, per_chunk as nat);
        }
        let chunks: Vec<(usize, usize)> = chunk_ranges(num_caps, per_chunk);
        let num_chunks: usize = chunks.len();
        let ghost g = crate::launch::groups_for(num_caps as int, per_chunk as int);
        proof {
            assert(g >= 1) by (nonlinear_arith)
                requires
                    g * per_chunk >= num_caps,
                    num_caps >= 1,
                    per_chunk >= 1,
            ;
        }
        counters.staging_buffer_switches = advance(
            counters.staging_buffer_switches,
            num_chunks - 1,
        );
        let ghost schedule = leaf_chunk_schedule(
            kernel,
            chunk_size as int,
            leaf_length,
            subtree_digests_len,
            subtree_leaves_len,
            num_caps,
            threads,
        );
        let mut launches: Vec<Launch> = Vec::with_capacity(num_chunks);
        let mut k: usize = 0;
        while k < num_chunks
            invariant
                k <= num_chunks == chunks@.len(),
                chunks@ == coalesced_plan::chunks_of(num_caps as int, per_chunk as int),
                per_chunk == subtrees_per_chunk(chunk_size as int, subtree_leaves_len as int),
                per_chunk >= 1,
                num_caps >= 1,
                subtree_leaves_len * num_caps <= usize::MAX,
                schedule == leaf_chunk_schedule(
                    kernel,
                    chunk_size as int,
                    leaf_length,
                    subtree_digests_len,
                    subtree_leaves_len,
                    num_caps,
                    threads,
                ),
                launches@ == schedule.take(k as int),
            decreases num_chunks - k,
        {
            let (first, count) = chunks[k];
            proof {
                coalesced_plan::theorem_chunks_partition(
                    num_caps as nat,
                    per_chunk as nat,
                    k as int,
                    0,
                );
            }
            launches.push(
                encode_leaf_chunk_subtrees(
                    kernel,
                    first,
                    count,
                    leaf_length,
                    subtree_digests_len,
                    subtree_leaves_len,
                    num_caps,
                    threads,
                ),
            );
            k = k + 1;
            proof {
                assert(launches@ =~= schedule.take(k as int));
            }
        }
        proof {
            assert(launches@ =~= schedule);
        }
        launches
    }

    /// The chunks of a level: for each the first node, and the nodes that its group size is tuned
    /// for.
    pub fn level_chunks(settings: &CoalescedSettings, level: usize, subtree_leaves_len: usize) -> (r:
        Vec<(usize, usize)>)
        requires
            settings.wf(),
            level < usize::BITS,
            coalesced_plan::nodes_per_subtree(subtree_leaves_len as int, level as nat) > 0,
            subtree_leaves_len + 0x1000000 <= usize::MAX,
        ensures
            r@ == ({
                let nodes = coalesced_plan::nodes_per_subtree(
                    subtree_leaves_len as int,
                    level as nat,
                );
                coalesced_plan::chunks_of(
                    nodes,
                    level_chunk_size(pow2(settings.chunk_size_log2 as nat) as int, nodes),
                )
            }),
    {
        let nodes: usize = bits::shr(subtree_leaves_len, level);
        let limit: usize = get_chunk_size(settings);
        let chunk_size: usize = if limit <= nodes {
            limit
        } else {
            nodes
        };
        proof {
            lemma_pow2_pos(level as nat);
            lemma_div_nonincreasing(subtree_leaves_len as int, pow2(level as nat) as int);
        }
        chunk_ranges(nodes, chunk_size)
    }

    /// The launches that hash a level in chunks of nodes.
    pub fn dispatch_level_chunked(
        &self,
        settings: &CoalescedSettings,
        counters: &mut DispatchCounters,
        level: usize,
        subtree_digests_len: usize,
        subtree_leaves_len: usize,
        num_caps: usize,
        threads: &Vec<usize>,
    ) -> (r: Vec<Launch>)
        requires
            self.wf(),
            settings.wf(),
            level < usize::BITS,
            coalesced_plan::nodes_per_subtree(subtree_leaves_len as int, level as nat) > 0,
            subtree_leaves_len * num_caps <= usize::MAX,
            subtree_leaves_len + 0x1000000 <= usize::MAX,
            threads@.len() == level_chunk_schedule(
                Kernel::HashTreeLevelCoalesced,
                pow2(settings.chunk_size_log2 as nat) as int,
                level,
                subtree_digests_len,
                subtree_leaves_len,
                num_caps,
                threads@,
            ).len(),
            forall|k: int|
                0 <= k < threads@.len() ==> plan::group_size_ok(#[trigger] threads@[k]),
        ensures
            r@ == level_chunk_schedule(
                Kernel::HashTreeLevelCoalesced,
                pow2(settings.chunk_size_log2 as nat) as int,
                level,
                subtree_digests_len,
                subtree_leaves_len,
                num_caps,
                threads@,
            ),
            *final(counters) == (DispatchCounters {
                level_dispatches: advanced(old(counters).level_dispatches, r@.len() as int),
                ..*old(counters)
            }),
    {
        let kernel: Kernel = self.get_poseidon_hash_tree_level_coalesced_pipeline_state().kernel;
        let chunks: Vec<(usize, usize)> = MetalRuntime::level_chunks(
            settings,
            level,
            subtree_leaves_len,
        );
        let num_chunks: usize = chunks.len();
        counters.level_dispatches = advance(counters.level_dispatches, num_chunks);
        let ghost limit = pow2(settings.chunk_size_log2 as nat) as int;
        let ghost nodes = coalesced_plan::nodes_per_subtree(
            subtree_leaves_len as int,
            level as nat,
        );
        let ghost size = level_chunk_size(limit, nodes);
        let ghost schedule = level_chunk_schedule(
            kernel,
            limit,
            level,
            subtree_digests_len,
            subtree_leaves_len,
            num_caps,
            threads@,
        );
        proof {
            lemma_pow2_pos(settings.chunk_size_log2 as nat);
            lemma_pow2_pos(level as nat);
            lemma_div_nonincreasing(subtree_leaves_len as int, pow2(level as nat) as int);
        }
        let mut launches: Vec<Launch> = Vec::with_capacity(num_chunks);
        let mut k: usize = 0;
        while k < num_chunks
            invariant
                k <= num_chunks == chunks@.len(),
                level < usize::BITS,
                nodes == coalesced_plan::nodes_per_subtree(
                    subtree_leaves_len as int,
                    level as nat,
                ),
                0 < nodes <= subtree_leaves_len,
                size == level_chunk_size(limit, nodes),
                0 < size <= nodes,
                chunks@ == coalesced_plan::chunks_of(nodes, size),
                subtree_leaves_len * num_caps <= usize::MAX,
                threads@.len() == num_chunks,
                forall|j: int|
                    0 <= j < threads@.len() ==> plan::group_size_ok(#[trigger] threads@[j]),
                schedule == level_chunk_schedule(
                    kernel,
                    limit,
                    level,
                    subtree_digests_len,
                    subtree_leaves_len,
                    num_caps,
                    threads@,
                ),
                launches@ == schedule.take(k as int),
            decreases num_chunks - k,
        {
            let (first, count) = chunks[k];
            proof {
                coalesced_plan::theorem_chunks_partition(nodes as nat, size as nat, k as int, 0);
                assert(count * num_caps <= subtree_leaves_len * num_caps) by (nonlinear_arith)
                    requires
                        count <= subtree_leaves_len,
                        num_caps >= 0,
                ;
            }
            launches.push(
                dispatch_level_single(
                    kernel,
                    level,
                    subtree_digests_len,
                    subtree_leaves_len,
                    num_caps,
                    count,
                    first,
                    threads[k],
                ),
            );
            k = k + 1;
            proof {
                assert(launches@ =~= schedule.take(k as int));
            }
        }
        proof {
            assert(launches@ =~= schedule);
        }
        launches
    }

    /// A level for the instrumented kernel, which counts its memory accesses.
    pub fn run_instrumented_level(
        &self,
        level: usize,
        subtree_digests_len: usize,
        subtree_leaves_len: usize,
        num_caps: usize,
        threads: usize,
    ) -> (r: InstrumentedLevel)
        requires
            self.wf(),
            level < usize::BITS,
            subtree_leaves_len * num_caps <= usize::MAX,
            threads * 68 + POSEIDON_CONST_SIZE <= usize::MAX,
        ensures
            r.counter_buffer_size == 256,
            ({
                let nodes = coalesced_plan::nodes_per_subtree(
                    subtree_leaves_len as int,
                    level as nat,
                );
                r.launch == (Launch {
                    kernel: Kernel::HashTreeLevelCoalescedInstrumented,
                    phase: Phase::Level,
                    uniforms: TreeUniforms::Coalesced(
                        CoalescedUniforms {
                            level: level as u32,
                            subtree_digests_len: subtree_digests_len as u32,
                            subtree_leaves_len: subtree_leaves_len as u32,
                            leaf_size: 0,
                            leaf_count: 0,
                            subtree_count: num_caps as u32,
                            nodes_per_subtree: nodes as u32,
                            nodes_per_dispatch: (nodes * num_caps) as u32,
                            dispatch_offset: 0,
                            enable_counters: 1,
                        },
                    ),
                    flags: None,
                    threadgroup_memory: Some(
                        (POSEIDON_CONST_SIZE + threads * 64 + threads * 4) as usize,
                    ),
                    grid: Grid::Threads(MTLSize::spec_plane(nodes, num_caps as int)),
                    threads_per_group: MTLSize::spec_line(threads as int),
                })
            }),
    {
        let nodes: usize = bits::shr(subtree_leaves_len, level);
        proof {
            lemma_pow2_pos(level as nat);
            lemma_div_nonincreasing(subtree_leaves_len as int, pow2(level as nat) as int);
            assert(nodes * num_caps <= subtree_leaves_len * num_caps) by (nonlinear_arith)
                requires
                    nodes <= subtree_leaves_len,
                    num_caps >= 0,
            ;
        }
        let dispatched: usize = nodes * num_caps;
        let counter_buffer_size: usize = MetalRuntime::alloc_aligned_zeroed(ACCESS_COUNTERS_BYTES);
        let launch: Launch = Launch {
            kernel: self.get_poseidon_hash_tree_level_coalesced_instrumented_pipeline_state().kernel,
            phase: Phase::Level,
            uniforms: TreeUniforms::Coalesced(
                CoalescedUniforms {
                    level: #[verifier::truncate] (level as u32),
                    subtree_digests_len: #[verifier::truncate] (subtree_digests_len as u32),
                    subtree_leaves_len: #[verifier::truncate] (subtree_leaves_len as u32),
                    leaf_size: 0,
                    leaf_count: 0,
                    subtree_count: #[verifier::truncate] (num_caps as u32),
                    nodes_per_subtree: #[verifier::truncate] (nodes as u32),
                    nodes_per_dispatch: #[verifier::truncate] (dispatched as u32),
                    dispatch_offset: 0,
                    enable_counters: 1,
                },
            ),
            flags: None,
            threadgroup_memory: Some(POSEIDON_CONST_SIZE + threads * 64 + threads * 4),
            grid: Grid::Threads(MTLSize::plane(nodes, num_caps)),
            threads_per_group: MTLSize::line(threads),
        };
        InstrumentedLevel { counter_buffer_size, launch }
    }

    /// The bytes of a new, cleared buffer for `size` bytes.
    pub fn alloc_aligned_zeroed(size: usize) -> (r: usize)
        requires
            size + allocation::ALIGNMENT - 1 <= usize::MAX,
        ensures
            r == allocation::aligned(size as int, allocation::ALIGNMENT as int),
    {
        allocation::align_to_256(size)
    }
}

/// Whether `work` is the plan of a tree for the coalesced kernels, with its buffers requested from
/// the pool.
pub open spec fn is_coalesced_work(
    before: &buffer_pool::BufferPool,
    digest_layout: DigestLayout,
    tree_height: usize,
    cap_height: usize,
    leaf_length: usize,
    sizes: CoalescedSizes,
    work: TreeWork,
    after: &buffer_pool::BufferPool,
) -> bool {
    &&& work.shape.wf(digest_layout)
    &&& work.shape.tree_height == tree_height
    &&& work.shape.cap_height == cap_height
    &&& work.launches@ == coalesced_plan::coalesced_schedule(
        work.shape,
        coalesced_plan::coalesced_kernels(),
        leaf_length,
        sizes,
    )
    &&& work.caps matches Some(caps) && exists|between: buffer_pool::BufferPool| #[trigger]
        work::are_reserved(before, ClearPolicy::Created, work, caps, &between, after)
}

/// The buffers of a coalesced tree have room for its digests and its cap, 32 bytes each. They are cleared
/// where they were never in use, and only there.
pub proof fn theorem_coalesced_buffers(
    before: &buffer_pool::BufferPool,
    digest_layout: DigestLayout,
    tree_height: usize,
    cap_height: usize,
    leaf_length: usize,
    sizes: CoalescedSizes,
    work: TreeWork,
    after: &buffer_pool::BufferPool,
)
    requires
        is_coalesced_work(
            before,
            digest_layout,
            tree_height,
            cap_height,
            leaf_length,
            sizes,
            work,
            after,
        ),
    ensures
        ({
            let leaves = pow2((tree_height - cap_height) as nat);
            let subtrees = pow2(cap_height as nat);
            let digests = if digest_layout is Heap {
                (2 * leaves - 1) * subtrees
            } else {
                (2 * leaves - 2) * subtrees
            };
            &&& work.shape.leaf_count == pow2(tree_height as nat)
            &&& work.shape.num_caps == subtrees
            &&& work.shape.total_digests == digests
            &&& work.clear_digests is Some <==> work.digests is Create
            &&& work.digests matches allocation::Allocation::Create { size } ==> 32 * digests
                <= work.clear_digests->0 <= size
            &&& work.caps is Some
            &&& work.clear_caps is Some <==> work.caps->0 is Create
            &&& work.caps->0 matches allocation::Allocation::Create { size } ==> 32 * subtrees
                <= work.clear_caps->0 <= size
        }),
{
    let shape = work.shape;
    shape.lemma_bounds();
    let caps = work.caps->0;
    let between = choose|between: buffer_pool::BufferPool| #[trigger]
        work::are_reserved(before, ClearPolicy::Created, work, caps, &between, after);
    work::theorem_cleared(
        before,
        ClearPolicy::Created,
        (shape.total_digests * 32) as usize,
        work.digests,
        work.clear_digests,
        &between,
    );
    work::theorem_cleared(
        &between,
        ClearPolicy::Created,
        (shape.num_caps * 32) as usize,
        caps,
        work.clear_caps,
        after,
    );
}

/// Plans a tree for the coalesced kernels and requests its buffers.
pub fn plan_coalesced_tree(
    pool: &mut buffer_pool::BufferPool,
    digest_layout: DigestLayout,
    tree_height: usize,
    cap_height: usize,
    kernels: &CoalescedKernels,
    leaf_length: usize,
    sizes: &CoalescedSizes,
) -> (work: TreeWork)
    requires
        old(pool).wf(),
        TreeShape::plannable(tree_height as int, cap_height as int),
        *kernels == coalesced_plan::coalesced_kernels(),
        sizes.ok(tree_height - cap_height),
    ensures
        final(pool).wf(),
        is_coalesced_work(
            old(pool),
            digest_layout,
            tree_height,
            cap_height,
            leaf_length,
            *sizes,
            work,
            final(pool),
        ),
{
    let shape: TreeShape = TreeShape::new(digest_layout, tree_height, cap_height);
    proof {
        shape.lemma_bounds();
    }
    let (digests, clear_digests) = reserve(pool, ClearPolicy::Created, shape.total_digests * 32);
    let ghost between: buffer_pool::BufferPool = *pool;
    let (caps, clear_caps) = reserve(pool, ClearPolicy::Created, shape.num_caps * 32);
    let launches: Vec<Launch> = encode_coalesced(&shape, kernels, leaf_length, sizes);
    let ghost caps_allocation = caps;
    let work: TreeWork = TreeWork {
        shape,
        digests,
        clear_digests,
        caps: Some(caps),
        clear_caps,
        launches,
    };
    proof {
        assert(work::are_reserved(
            old(pool),
            ClearPolicy::Created,
            work,
            caps_allocation,
            &between,
            pool,
        ));
    }
    work
}

} // verus!
