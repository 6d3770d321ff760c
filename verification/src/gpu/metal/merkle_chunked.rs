//! Trees that are built chunk by chunk: a tree over each chunk of leaves, a tree over the chunks'
//! roots, and the tree itself.
//!
//! [`ChunkedBuild`] says what to build next and takes over what was built.

use crate::bits;
use crate::gpu::metal::merkle_coalesced::{
    self, get_chunk_size_log2, reset_chunk_dispatch_count, CoalescedSettings, DispatchCounters,
};
use crate::gpu::metal::merkle_tree::{self, MerkleTree};
use crate::gpu::metal::runtime::MetalRuntime;
use crate::gpu::metal::tree_kernels;
use crate::gpu::metal::tree_results;
use crate::gpu::metal::utils::HashOut;
use vstd::arithmetic::div_mod::*;
use vstd::arithmetic::mul::*;
use vstd::arithmetic::power2::*;
use vstd::prelude::*;

verus! {

/// The smallest chunk that the device builds a tree over.
pub const MIN_DEVICE_CHUNK: usize = 8192;

/// The fewest chunks over whose roots the device builds a tree.
pub const MIN_DEVICE_CHUNKS: usize = 16;

/// What is to be built next.
#[derive(Debug)]
pub enum ChunkAction {
    /// The tree itself, over the first `leaf_count` leaves; nothing before it.
    Whole { leaf_count: usize, cap_height: usize },
    /// A tree without a cap over the leaves from `start` up to `end`.
    Chunk { start: usize, end: usize, on_device: bool },
    /// A tree over the chunks' roots.
    Upper { leaves: Vec<Vec<u64>>, cap_height: usize, on_device: bool },
    /// The tree itself, over the first `leaf_count` leaves.
    Final { leaf_count: usize, cap_height: usize },
    /// Nothing.
    Done,
}

/// How far a build is.
#[derive(Clone, Copy, Debug, PartialEq, Eq, Structural)]
pub enum ChunkStage {
    Whole,
    Chunks,
    Upper,
    Final,
    Done,
}

/// A tree that is built chunk by chunk.
#[derive(Debug)]
pub struct ChunkedBuild {
    pub tree_height: usize,
    pub cap_height: usize,
    pub chunk_size: usize,
    pub num_chunks: usize,
    pub roots: Vec<HashOut>,
    /// Entries of the cap of the tree over the roots, once it is built.
    pub upper_cap_len: usize,
    /// The tree itself, once it is built.
    pub result: Option<MerkleTree>,
    pub stage: ChunkStage,
}

impl ChunkedBuild {
    /// Chunks are a power of two of leaves, as many as make up the tree, and as many roots are known
    /// as chunks were built. A single chunk is built as the tree itself. The tree is there at the end.
    pub open spec fn wf(&self) -> bool {
        &&& self.result is Some <==> self.stage is Done
        &&& self.tree_height < usize::BITS
        &&& self.cap_height <= self.tree_height
        &&& bits::power_of_two(self.chunk_size as int)
        &&& if self.num_chunks == 1 {
            &&& pow2(self.tree_height as nat) <= self.chunk_size
            &&& self.stage is Whole || self.stage is Done
            &&& self.roots@.len() == 0
        } else {
            &&& !(self.stage is Whole)
            &&& self.num_chunks >= 2
            &&& bits::power_of_two(self.num_chunks as int)
            &&& self.num_chunks * self.chunk_size == pow2(self.tree_height as nat)
            &&& self.roots@.len() <= self.num_chunks
            &&& self.stage is Chunks <==> self.roots@.len() < self.num_chunks
        }
    }

    /// The height of the tree over the roots.
    pub open spec fn upper_height(&self) -> nat {
        bits::log2(self.num_chunks as int)
    }

    /// The cap height of the tree over the roots.
    pub open spec fn upper_cap_height(&self) -> int {
        if self.cap_height <= self.upper_height() {
            self.cap_height as int
        } else {
            self.upper_height() as int
        }
    }

    /// What is to be built next.
    pub fn next(&self) -> (r: ChunkAction)
        requires
            self.wf(),
        ensures
            match self.stage {
                ChunkStage::Whole => r == (ChunkAction::Whole {
                    leaf_count: pow2(self.tree_height as nat) as usize,
                    cap_height: self.cap_height,
                }),
                ChunkStage::Chunks => r == (ChunkAction::Chunk {
                    start: (self.roots@.len() * self.chunk_size) as usize,
                    end: (self.roots@.len() * self.chunk_size + self.chunk_size) as usize,
                    on_device: self.chunk_size >= MIN_DEVICE_CHUNK,
                }),
                ChunkStage::Upper => r matches ChunkAction::Upper {
                    leaves,
                    cap_height,
                    on_device,
                } && {
                    &&& leaves@.len() == self.num_chunks
                    &&& forall|i: int|
                        0 <= i < leaves@.len() ==> (#[trigger] leaves@[i])@
                            == self.roots@[i].elements@
                    &&& cap_height == self.upper_cap_height()
                    &&& on_device == (self.num_chunks >= MIN_DEVICE_CHUNKS)
                },
                ChunkStage::Final => r == (ChunkAction::Final {
                    leaf_count: pow2(self.tree_height as nat) as usize,
                    cap_height: self.cap_height,
                }),
                ChunkStage::Done => r is Done,
            },
            r matches ChunkAction::Chunk { on_device, .. } ==> on_device == (self.chunk_size
                >= 8192),
            r matches ChunkAction::Upper { on_device, .. } ==> on_device == (self.num_chunks >= 16),
            forall|
                after: ChunkedBuild,
                leaves: Seq<Vec<u64>>,
                hash: spec_fn(Seq<u64>) -> HashOut,
                compress: spec_fn(HashOut, HashOut) -> HashOut,
            |
                leaves.len() == pow2(self.tree_height as nat) && #[trigger] answers(
                    r,
                    after,
                    leaves,
                    hash,
                    compress,
                ) ==> is_answered(*self, after, leaves, hash, compress),
    {
        let action: ChunkAction = match self.stage {
            ChunkStage::Whole => ChunkAction::Whole {
                leaf_count: bits::shl_one(self.tree_height),
                cap_height: self.cap_height,
            },
            ChunkStage::Chunks => {
                proof {
                    self.lemma_chunk_range(self.roots@.len() as int);
                }
                let start: usize = self.roots.len() * self.chunk_size;
                ChunkAction::Chunk {
                    start,
                    end: start + self.chunk_size,
                    on_device: self.chunk_size >= MIN_DEVICE_CHUNK,
                }
            },
            ChunkStage::Upper => {
                let mut leaves: Vec<Vec<u64>> = Vec::with_capacity(self.num_chunks);
                let mut i: usize = 0;
                while i < self.num_chunks
                    invariant
                        i <= self.num_chunks == self.roots@.len(),
                        leaves@.len() == i,
                        forall|j: int|
                            0 <= j < i ==> (#[trigger] leaves@[j])@ == self.roots@[j].elements@,
                    decreases self.num_chunks - i,
                {
                    let root: &HashOut = &self.roots[i];
                    let mut leaf: Vec<u64> = Vec::with_capacity(4);
                    leaf.push(root.elements[0]);
                    leaf.push(root.elements[1]);
                    leaf.push(root.elements[2]);
                    leaf.push(root.elements[3]);
                    proof {
                        assert(leaf@ =~= self.roots@[i as int].elements@);
                    }
                    leaves.push(leaf);
                    i = i + 1;
                }
                let upper_height: usize = bits::log2_strict(self.num_chunks);
                let cap_height: usize = if self.cap_height <= upper_height {
                    self.cap_height
                } else {
                    upper_height
                };
                ChunkAction::Upper {
                    leaves,
                    cap_height,
                    on_device: self.num_chunks >= MIN_DEVICE_CHUNKS,
                }
            },
            ChunkStage::Final => ChunkAction::Final {
                leaf_count: bits::shl_one(self.tree_height),
                cap_height: self.cap_height,
            },
            ChunkStage::Done => ChunkAction::Done,
        };
        proof {
            assert forall|
                after: ChunkedBuild,
                leaves: Seq<Vec<u64>>,
                hash: spec_fn(Seq<u64>) -> HashOut,
                compress: spec_fn(HashOut, HashOut) -> HashOut,
            |
                leaves.len() == pow2(self.tree_height as nat) && #[trigger] answers(
                    action,
                    after,
                    leaves,
                    hash,
                    compress,
                ) implies is_answered(*self, after, leaves, hash, compress) by {
                self.lemma_answers(action, after, leaves, hash, compress);
            }
        }
        action
    }

    /// What answers an action answers the build that asked for it.
    proof fn lemma_answers(
        &self,
        action: ChunkAction,
        after: ChunkedBuild,
        leaves: Seq<Vec<u64>>,
        hash: spec_fn(Seq<u64>) -> HashOut,
        compress: spec_fn(HashOut, HashOut) -> HashOut,
    )
        requires
            self.wf(),
            leaves.len() == pow2(self.tree_height as nat),
            answers(action, after, leaves, hash, compress),
            match self.stage {
                ChunkStage::Whole => action == (ChunkAction::Whole {
                    leaf_count: pow2(self.tree_height as nat) as usize,
                    cap_height: self.cap_height,
                }),
                ChunkStage::Chunks => action matches ChunkAction::Chunk { start, end, .. } && start
                    == (self.roots@.len() * self.chunk_size) as usize && end == (self.roots@.len()
                    * self.chunk_size + self.chunk_size) as usize,
                ChunkStage::Upper => action matches ChunkAction::Upper { leaves, cap_height, .. } && {
                    &&& leaves@.len() == self.num_chunks
                    &&& forall|i: int|
                        0 <= i < leaves@.len() ==> (#[trigger] leaves@[i])@
                            == self.roots@[i].elements@
                    &&& cap_height == self.upper_cap_height()
                },
                ChunkStage::Final => action == (ChunkAction::Final {
                    leaf_count: pow2(self.tree_height as nat) as usize,
                    cap_height: self.cap_height,
                }),
                ChunkStage::Done => action is Done,
            },
        ensures
            is_answered(*self, after, leaves, hash, compress),
    {
        vstd::bits::lemma_usize_pow2_no_overflow(self.tree_height as nat);
        match self.stage {
            ChunkStage::Chunks => {
                self.lemma_chunk_range(self.roots@.len() as int);
            },
            ChunkStage::Upper => {
                let upper = action->Upper_leaves;
                let tree = choose|tree: MerkleTree| #[trigger]
                    is_given(
                        upper@,
                        action->Upper_cap_height as nat,
                        hash,
                        compress,
                        tree,
                    ) && after.upper_cap_len == tree.cap@.len();
                assert(are_root_leaves(upper@, self.roots@));
                assert(is_given(
                    upper@,
                    self.upper_cap_height() as nat,
                    hash,
                    compress,
                    tree,
                ));
            },
            _ => {
                assert(leaves.take(leaves.len() as int) =~= leaves);
            },
        }
    }

    /// A chunk lies within the leaves.
    proof fn lemma_chunk_range(&self, k: int)
        requires
            self.wf(),
            self.num_chunks >= 2,
            0 <= k < self.num_chunks,
        ensures
            0 <= k * self.chunk_size,
            k * self.chunk_size + self.chunk_size <= pow2(self.tree_height as nat),
            pow2(self.tree_height as nat) <= usize::MAX,
    {
        vstd::bits::lemma_usize_pow2_no_overflow(self.tree_height as nat);
        let c = self.chunk_size as int;
        assert(0 <= k * c && k * c + c <= self.num_chunks * c) by (nonlinear_arith)
            requires
                0 <= k,
                k + 1 <= self.num_chunks,
                c >= 0,
        ;
    }

    /// Takes over the tree that was built as a whole.
    pub fn on_whole(&mut self, tree: MerkleTree)
        requires
            old(self).wf(),
            old(self).stage is Whole,
        ensures
            final(self).wf(),
            final(self).stage is Done,
            final(self).result == Some(tree),
            final(self).upper_cap_len == old(self).upper_cap_len,
            final(self).roots == old(self).roots,
            final(self).same_tree(*old(self)),
            is_step(*old(self), *final(self)),
    {
        self.result = Some(tree);
        self.stage = ChunkStage::Done;
    }

    /// Takes over the cap of a chunk's tree, which is its root.
    pub fn on_chunk(&mut self, counters: &mut DispatchCounters, cap: &Vec<HashOut>)
        requires
            old(self).wf(),
            old(self).stage is Chunks,
            cap@.len() == 1,
        ensures
            final(self).wf(),
            final(self).roots@ == old(self).roots@.push(cap@[0]),
            final(self).upper_cap_len == old(self).upper_cap_len,
            final(self).stage == if old(self).roots@.len() + 1 == old(self).num_chunks {
                ChunkStage::Upper
            } else {
                ChunkStage::Chunks
            },
            final(self).same_tree(*old(self)),
            is_step(*old(self), *final(self)),
            *final(counters) == (DispatchCounters {
                chunk_dispatches: merkle_coalesced::advanced(old(counters).chunk_dispatches, 1),
                ..*old(counters)
            }),
            old(counters).chunk_dispatches == old(self).roots@.len()
                ==> final(counters).chunk_dispatches == final(self).roots@.len(),
    {
        self.roots.push(cap[0]);
        counters.chunk_dispatches = counters.chunk_dispatches.wrapping_add(1);
        proof {
            merkle_coalesced::lemma_advanced_once(old(counters).chunk_dispatches);
            assert(self.roots@.drop_last() =~= old(self).roots@);
        }
        if self.roots.len() == self.num_chunks {
            self.stage = ChunkStage::Upper;
        }
    }

    /// Whether two builds are of the same tree in the same chunks.
    pub open spec fn same_tree(self, other: ChunkedBuild) -> bool {
        &&& self.tree_height == other.tree_height
        &&& self.cap_height == other.cap_height
        &&& self.chunk_size == other.chunk_size
        &&& self.num_chunks == other.num_chunks
    }

    /// Takes over the tree over the roots.
    pub fn on_upper(&mut self, upper_cap_len: usize)
        requires
            old(self).wf(),
            old(self).stage is Upper,
        ensures
            final(self).wf(),
            final(self).stage is Final,
            final(self).upper_cap_len == upper_cap_len,
            final(self).roots == old(self).roots,
            final(self).same_tree(*old(self)),
            is_step(*old(self), *final(self)),
    {
        self.upper_cap_len = upper_cap_len;
        self.stage = ChunkStage::Final;
    }

    /// Whether a cap of the tree over the roots goes with a cap of the tree.
    pub open spec fn caps_compatible(&self, final_cap_len: int) -> bool {
        let upper = if self.upper_cap_len >= 1 {
            self.upper_cap_len as int
        } else {
            1
        };
        let whole = if final_cap_len >= 1 {
            final_cap_len
        } else {
            1
        };
        upper == whole / pow2((self.cap_height - self.upper_cap_height()) as nat) as int
    }

    /// Takes over the tree itself; whether its cap goes with that of the tree over the roots is the
    /// result.
    pub fn on_final(&mut self, tree: MerkleTree) -> (r: bool)
        requires
            old(self).wf(),
            old(self).stage is Final,
        ensures
            final(self).wf(),
            final(self).stage is Done,
            final(self).result == Some(tree),
            final(self).upper_cap_len == old(self).upper_cap_len,
            final(self).roots == old(self).roots,
            final(self).same_tree(*old(self)),
            is_step(*old(self), *final(self)),
            r == old(self).caps_compatible(tree.cap@.len() as int),
    {
        let final_cap_len: usize = tree.cap.len();
        let upper_height: usize = bits::log2_strict(self.num_chunks);
        let upper_cap_height: usize = if self.cap_height <= upper_height {
            self.cap_height
        } else {
            upper_height
        };
        let shift: usize = self.cap_height - upper_cap_height;
        let upper: usize = if self.upper_cap_len >= 1 {
            self.upper_cap_len
        } else {
            1
        };
        let whole: usize = if final_cap_len >= 1 {
            final_cap_len
        } else {
            1
        };
        self.result = Some(tree);
        self.stage = ChunkStage::Done;
        upper == bits::shr(whole, shift)
    }

    /// The tree, once it is built.
    pub fn into_tree(self) -> (r: Option<MerkleTree>)
        ensures
            r == self.result,
    {
        self.result
    }
}

/// Whether `after` is the build `before` with what was to be built next taken over.
pub open spec fn is_step(before: ChunkedBuild, after: ChunkedBuild) -> bool {
    &&& after.same_tree(before)
    &&& match before.stage {
        ChunkStage::Whole => {
            &&& after.stage is Done
            &&& after.roots == before.roots
            &&& after.result is Some
        },
        ChunkStage::Chunks => {
            &&& after.result is None
            &&& after.roots@.len() == before.roots@.len() + 1
            &&& after.roots@.drop_last() == before.roots@
            &&& after.stage == if after.roots@.len() == before.num_chunks {
                ChunkStage::Upper
            } else {
                ChunkStage::Chunks
            }
        },
        ChunkStage::Upper => {
            &&& after.stage is Final
            &&& after.roots == before.roots
            &&& after.result is None
        },
        ChunkStage::Final => {
            &&& after.stage is Done
            &&& after.roots == before.roots
            &&& after.upper_cap_len == before.upper_cap_len
            &&& after.result is Some
        },
        ChunkStage::Done => false,
    }
}

/// Whether `builds` are the states of a build, from its beginning on.
pub open spec fn is_build(builds: Seq<ChunkedBuild>) -> bool {
    &&& builds.len() > 0
    &&& builds[0].wf()
    &&& builds[0].roots@.len() == 0
    &&& builds[0].stage is Whole || builds[0].stage is Chunks
    &&& forall|i: int|
        #![trigger builds[i]]
        0 <= i < builds.len() - 1 ==> is_step(builds[i], builds[i + 1])
}

/// The leaves and the cap height of the tree itself, where that is what is to be built next.
pub open spec fn tree_itself(build: ChunkedBuild) -> Option<(nat, nat)> {
    match build.stage {
        ChunkStage::Whole => Some((pow2(build.tree_height as nat), build.cap_height as nat)),
        ChunkStage::Final => Some((pow2(build.tree_height as nat), build.cap_height as nat)),
        _ => None,
    }
}

/// The stage and the number of roots after `i` steps.
proof fn lemma_state_after(builds: Seq<ChunkedBuild>, i: int)
    requires
        is_build(builds),
        0 <= i < builds.len(),
    ensures
        ({
            let first = builds[0];
            let b = builds[i];
            let n = first.num_chunks as int;
            &&& b.same_tree(first)
            &&& if first.stage is Whole {
                &&& i <= 1
                &&& b.stage == if i == 0 {
                    ChunkStage::Whole
                } else {
                    ChunkStage::Done
                }
            } else {
                &&& i <= n + 2
                &&& b.roots@.len() == if i <= n {
                    i
                } else {
                    n
                }
                &&& b.stage == if i < n {
                    ChunkStage::Chunks
                } else if i == n {
                    ChunkStage::Upper
                } else if i == n + 1 {
                    ChunkStage::Final
                } else {
                    ChunkStage::Done
                }
            }
        }),
    decreases i,
{
    if i > 0 {
        lemma_state_after(builds, i - 1);
        assert(is_step(builds[i - 1], builds[i - 1 + 1]));
    }
}

/// A build that has come to its end has, as its last action and at no other time, built the tree over
/// all leaves with the cap height that was asked for. Before that it built a tree over each chunk and
/// one over their roots, or nothing where there is but one chunk.
pub proof fn theorem_build_ends_in_tree(builds: Seq<ChunkedBuild>)
    requires
        is_build(builds),
        builds.last().stage is Done,
    ensures
        builds.len() == if builds[0].stage is Whole {
            2
        } else {
            builds[0].num_chunks + 3
        },
        tree_itself(builds[builds.len() - 2]) == Some(
            (pow2(builds[0].tree_height as nat), builds[0].cap_height as nat),
        ),
        forall|i: int|
            0 <= i < builds.len() && i != builds.len() - 2 ==> tree_itself(
                #[trigger] builds[i],
            ) is None,
{
    lemma_state_after(builds, builds.len() - 1);
    lemma_state_after(builds, builds.len() - 2);
    assert forall|i: int| 0 <= i < builds.len() && i != builds.len() - 2 implies tree_itself(
        #[trigger] builds[i],
    ) is None by {
        lemma_state_after(builds, i);
    }
}

/// A build takes `num_chunks + 2` steps, or one where there is but one chunk; it is at its end after
/// them and not before.
pub proof fn theorem_build_is_bounded(builds: Seq<ChunkedBuild>)
    requires
        is_build(builds),
    ensures
        builds.len() <= if builds[0].stage is Whole {
            2
        } else {
            builds[0].num_chunks + 3
        },
        builds.last().stage is Done <==> builds.len() == if builds[0].stage is Whole {
            2
        } else {
            builds[0].num_chunks + 3
        },
{
    lemma_state_after(builds, builds.len() - 1);
}

/// Whether `tree` is what the processor or the device gives for `leaves`.
pub open spec fn is_given(
    leaves: Seq<Vec<u64>>,
    cap_height: nat,
    hash: spec_fn(Seq<u64>) -> HashOut,
    compress: spec_fn(HashOut, HashOut) -> HashOut,
    tree: MerkleTree,
) -> bool {
    ||| tree_results::is_tree_of(leaves, cap_height, hash, compress, tree)
    ||| tree_results::is_device_tree(leaves, cap_height, hash, compress, tree)
}

/// Either way it is the tree over the leaves.
pub proof fn theorem_given_tree(
    leaves: Seq<Vec<u64>>,
    cap_height: nat,
    hash: spec_fn(Seq<u64>) -> HashOut,
    compress: spec_fn(HashOut, HashOut) -> HashOut,
    tree: MerkleTree,
)
    requires
        is_given(leaves, cap_height, hash, compress, tree),
    ensures
        tree_results::is_tree_of(leaves, cap_height, hash, compress, tree),
{
    if tree_results::is_device_tree(leaves, cap_height, hash, compress, tree) {
        tree_results::theorem_device_tree(leaves, cap_height, hash, compress, tree);
    }
}

/// Whether the leaves of the tree over the roots are the elements of the roots.
pub open spec fn are_root_leaves(upper: Seq<Vec<u64>>, roots: Seq<HashOut>) -> bool {
    &&& upper.len() == roots.len()
    &&& forall|i: int| 0 <= i < upper.len() ==> (#[trigger] upper[i])@ == roots[i].elements@
}

/// Whether `root` is the cap of a tree over a chunk.
pub open spec fn is_chunk_root(
    chunk: Seq<Vec<u64>>,
    hash: spec_fn(Seq<u64>) -> HashOut,
    compress: spec_fn(HashOut, HashOut) -> HashOut,
    root: HashOut,
) -> bool {
    exists|tree: MerkleTree| #[trigger]
        is_given(chunk, 0, hash, compress, tree) && root == tree.cap@[0]
}

/// Whether `len` is the number of entries of the cap of a tree over the roots.
pub open spec fn is_upper_cap_len(
    roots: Seq<HashOut>,
    cap_height: nat,
    hash: spec_fn(Seq<u64>) -> HashOut,
    compress: spec_fn(HashOut, HashOut) -> HashOut,
    len: int,
) -> bool {
    exists|upper: Seq<Vec<u64>>, tree: MerkleTree| #[trigger]
        is_given(upper, cap_height, hash, compress, tree) && are_root_leaves(upper, roots) && len
            == tree.cap@.len()
}

/// Whether a build `after` has taken over what an action asked for: the tree over the leaves that the
/// action names, with the cap height that it names.
pub open spec fn answers(
    action: ChunkAction,
    after: ChunkedBuild,
    leaves: Seq<Vec<u64>>,
    hash: spec_fn(Seq<u64>) -> HashOut,
    compress: spec_fn(HashOut, HashOut) -> HashOut,
) -> bool {
    match action {
        ChunkAction::Whole { leaf_count, cap_height } => after.result matches Some(tree)
            && is_given(leaves.take(leaf_count as int), cap_height as nat, hash, compress, tree),
        ChunkAction::Chunk { start, end, .. } => is_chunk_root(
            leaves.subrange(start as int, end as int),
            hash,
            compress,
            after.roots@.last(),
        ),
        ChunkAction::Upper { leaves: upper, cap_height, .. } => exists|tree: MerkleTree| #[trigger]
            is_given(upper@, cap_height as nat, hash, compress, tree) && after.upper_cap_len
                == tree.cap@.len(),
        ChunkAction::Final { leaf_count, cap_height } => after.result matches Some(tree)
            && is_given(leaves.take(leaf_count as int), cap_height as nat, hash, compress, tree),
        ChunkAction::Done => false,
    }
}

/// Whether a step of a build over `leaves` took over a tree that was asked for.
pub open spec fn is_answered(
    before: ChunkedBuild,
    after: ChunkedBuild,
    leaves: Seq<Vec<u64>>,
    hash: spec_fn(Seq<u64>) -> HashOut,
    compress: spec_fn(HashOut, HashOut) -> HashOut,
) -> bool {
    match before.stage {
        ChunkStage::Chunks => {
            let start = before.roots@.len() * before.chunk_size;
            is_chunk_root(
                leaves.subrange(start, start + before.chunk_size),
                hash,
                compress,
                after.roots@.last(),
            )
        },
        ChunkStage::Upper => is_upper_cap_len(
            before.roots@,
            before.upper_cap_height() as nat,
            hash,
            compress,
            after.upper_cap_len as int,
        ),
        ChunkStage::Done => false,
        _ => after.result matches Some(tree) && is_given(
            leaves,
            before.cap_height as nat,
            hash,
            compress,
            tree,
        ),
    }
}

/// Whether `builds` are the states of a build over `leaves` from its beginning to its end, in which
/// every tree that was asked for was taken over.
pub open spec fn is_full_build(
    builds: Seq<ChunkedBuild>,
    leaves: Seq<Vec<u64>>,
    hash: spec_fn(Seq<u64>) -> HashOut,
    compress: spec_fn(HashOut, HashOut) -> HashOut,
) -> bool {
    &&& is_build(builds)
    &&& builds.last().stage is Done
    &&& tree_results::are_leaves(leaves, builds[0].tree_height as nat)
    &&& forall|i: int|
        #![trigger builds[i]]
        0 <= i < builds.len() - 1 ==> is_answered(builds[i], builds[i + 1], leaves, hash, compress)
}

/// The root of a chunk is a node of the whole tree.
proof fn lemma_chunk_root(
    leaves: Seq<Vec<u64>>,
    tree_height: nat,
    hash: spec_fn(Seq<u64>) -> HashOut,
    compress: spec_fn(HashOut, HashOut) -> HashOut,
    c: nat,
    k: int,
    root: HashOut,
)
    requires
        tree_results::are_leaves(leaves, tree_height),
        0 <= k,
        k * pow2(c) + pow2(c) <= leaves.len(),
        is_chunk_root(
            leaves.subrange(k * pow2(c), k * pow2(c) + pow2(c)),
            hash,
            compress,
            root,
        ),
    ensures
        root == tree_kernels::node(
            merkle_tree::concatenated(leaves),
            leaves[0]@.len() as int,
            hash,
            compress,
            c,
            k,
        ),
{
    let n = pow2(c) as int;
    let start = k * n;
    let length = leaves[0]@.len();
    let chunk = leaves.subrange(start, start + n);
    let words = merkle_tree::concatenated(leaves);
    let tree = choose|tree: MerkleTree| #[trigger]
        is_given(chunk, 0, hash, compress, tree) && root == tree.cap@[0];
    theorem_given_tree(chunk, 0, hash, compress, tree);
    lemma_pow2_pos(c);
    lemma2_to64();
    bits::lemma_log2(c);
    assert(0 <= start) by (nonlinear_arith)
        requires
            start == k * n,
            0 <= k,
            n > 0,
    ;
    assert(chunk[0] == leaves[start]);
    assert(leaves[start]@.len() == length);
    merkle_tree::theorem_concatenated_range(leaves, length, start, start + n);
    assert(start + n == (k + 1) * n) by (nonlinear_arith)
        requires
            start == k * n,
    ;
    tree_kernels::theorem_chunk_nodes(words, length as int, hash, compress, c, k, c, 0);
    assert(k * 1 + 0 == k);
}

/// After any number of steps, the roots that are known are nodes of the whole tree.
proof fn lemma_roots_are_nodes(
    builds: Seq<ChunkedBuild>,
    leaves: Seq<Vec<u64>>,
    hash: spec_fn(Seq<u64>) -> HashOut,
    compress: spec_fn(HashOut, HashOut) -> HashOut,
    i: int,
)
    requires
        is_full_build(builds, leaves, hash, compress),
        builds[0].stage is Chunks,
        0 <= i < builds.len(),
    ensures
        forall|k: int|
            0 <= k < builds[i].roots@.len() ==> #[trigger] builds[i].roots@[k]
                == tree_kernels::node(
                merkle_tree::concatenated(leaves),
                leaves[0]@.len() as int,
                hash,
                compress,
                bits::log2(builds[0].chunk_size as int),
                k,
            ),
    decreases i,
{
    if i > 0 {
        let j = i - 1;
        let before = builds[j];
        let after = builds[i];
        let n = builds[0].chunk_size as int;
        let c = bits::log2(n);
        lemma_roots_are_nodes(builds, leaves, hash, compress, j);
        lemma_state_after(builds, j);
        assert(is_step(builds[j], builds[j + 1]));
        assert(is_answered(builds[j], builds[j + 1], leaves, hash, compress));
        if before.stage is Chunks {
            assert(n == pow2(c));
            assert(j * n + n <= builds[0].num_chunks * n) by (nonlinear_arith)
                requires
                    j + 1 <= builds[0].num_chunks,
                    n >= 0,
            ;
            lemma_chunk_root(
                leaves,
                builds[0].tree_height as nat,
                hash,
                compress,
                c,
                j,
                after.roots@.last(),
            );
            assert forall|k: int| 0 <= k < after.roots@.len() implies #[trigger] after.roots@[k]
                == tree_kernels::node(
                merkle_tree::concatenated(leaves),
                leaves[0]@.len() as int,
                hash,
                compress,
                c,
                k,
            ) by {
                if k < j {
                    assert(after.roots@[k] == after.roots@.drop_last()[k]);
                    assert(after.roots@[k] == before.roots@[k]);
                }
            }
        }
    }
}

/// A chunked build gives the tree over its leaves, whatever the chunk size and whoever built the trees
/// on the way: it has those leaves, the cap that was asked for, and a digest for every node below the
/// cap. The roots of the chunks are nodes of that tree.
pub proof fn theorem_chunked_tree(
    builds: Seq<ChunkedBuild>,
    leaves: Seq<Vec<u64>>,
    hash: spec_fn(Seq<u64>) -> HashOut,
    compress: spec_fn(HashOut, HashOut) -> HashOut,
)
    requires
        is_full_build(builds, leaves, hash, compress),
    ensures
        builds.last().result matches Some(tree) && {
            &&& tree_results::is_tree_of(
                leaves,
                builds[0].cap_height as nat,
                hash,
                compress,
                tree,
            )
            &&& tree.cap@.len() == pow2(builds[0].cap_height as nat)
            &&& tree.digests@.len() == (2 * leaves.len() - 1) - (2 * pow2(
                builds[0].cap_height as nat,
            ) - 1)
        },
        builds[0].stage is Chunks ==> builds.last().roots@ == Seq::new(
            builds[0].num_chunks as nat,
            |k: int|
                tree_kernels::node(
                    merkle_tree::concatenated(leaves),
                    leaves[0]@.len() as int,
                    hash,
                    compress,
                    bits::log2(builds[0].chunk_size as int),
                    k,
                ),
        ),
        builds[0].stage is Chunks ==> builds[builds.len() - 2].caps_compatible(
            pow2(builds[0].cap_height as nat) as int,
        ),
{
    let last = builds.len() - 2;
    let first = builds[0];
    theorem_build_ends_in_tree(builds);
    lemma_state_after(builds, last);
    lemma_state_after(builds, last + 1);
    assert(is_step(builds[last], builds[last + 1]));
    assert(is_answered(builds[last], builds[last + 1], leaves, hash, compress));
    let tree = builds.last().result->0;
    theorem_given_tree(leaves, first.cap_height as nat, hash, compress, tree);
    tree_results::theorem_tree_counts(
        leaves,
        first.tree_height as nat,
        first.cap_height as nat,
        hash,
        compress,
        tree,
    );
    if first.stage is Chunks {
        lemma_roots_are_nodes(builds, leaves, hash, compress, last + 1);
        let n = first.num_chunks as int;
        lemma_state_after(builds, n);
        assert(is_step(builds[n], builds[n + 1]));
        assert(is_answered(builds[n], builds[n + 1], leaves, hash, compress));
        let u = builds[n].upper_cap_height() as nat;
        let (upper, upper_tree) = choose|upper: Seq<Vec<u64>>, upper_tree: MerkleTree| #[trigger]
            is_given(upper, u, hash, compress, upper_tree) && are_root_leaves(
                upper,
                builds[n].roots@,
            ) && builds[n + 1].upper_cap_len == upper_tree.cap@.len();
        theorem_given_tree(upper, u, hash, compress, upper_tree);
        theorem_caps_compatible(builds[last]);
    }
}

/// The chunk size does not show in the result: two builds over the same leaves with one cap height give
/// trees with the same leaves, digests and cap.
pub proof fn theorem_chunk_size_does_not_show(
    a: Seq<ChunkedBuild>,
    b: Seq<ChunkedBuild>,
    leaves: Seq<Vec<u64>>,
    hash: spec_fn(Seq<u64>) -> HashOut,
    compress: spec_fn(HashOut, HashOut) -> HashOut,
)
    requires
        is_full_build(a, leaves, hash, compress),
        is_full_build(b, leaves, hash, compress),
        a[0].cap_height == b[0].cap_height,
    ensures
        a.last().result is Some,
        b.last().result is Some,
        a.last().result->0.leaves@ == b.last().result->0.leaves@,
        a.last().result->0.leaf_length == b.last().result->0.leaf_length,
        a.last().result->0.digests@ == b.last().result->0.digests@,
        a.last().result->0.cap@ == b.last().result->0.cap@,
{
    theorem_chunked_tree(a, leaves, hash, compress);
    theorem_chunked_tree(b, leaves, hash, compress);
}

/// Merging the roots of chunks of `2^c` leaves gives the nodes of the whole tree, where hashing a
/// digest's elements gives the digest back: node `t` of `level` over the roots is node `t` of level
/// `c + level` of the whole.
pub proof fn theorem_roots_merge(
    words: Seq<u64>,
    leaf_length: int,
    hash: spec_fn(Seq<u64>) -> HashOut,
    compress: spec_fn(HashOut, HashOut) -> HashOut,
    c: nat,
    m: nat,
    roots: Seq<HashOut>,
    upper: Seq<Vec<u64>>,
    level: nat,
    t: int,
)
    requires
        roots == Seq::new(
            pow2(m),
            |k: int| tree_kernels::node(words, leaf_length, hash, compress, c, k),
        ),
        are_root_leaves(upper, roots),
        forall|d: HashOut| #[trigger] hash(d.elements@) == d,
        level <= m,
        0 <= t < pow2((m - level) as nat),
    ensures
        tree_kernels::node(
            merkle_tree::concatenated(upper),
            4,
            hash,
            compress,
            level,
            t,
        ) == tree_kernels::node(words, leaf_length, hash, compress, c + level, t),
    decreases level,
{
    broadcast use vstd::array::group_array_axioms;

    if level == 0 {
        assert forall|k: int| 0 <= k < upper.len() implies #[trigger] upper[k]@.len() == 4 by {
            assert(upper[k]@ == roots[k].elements@);
        }
        merkle_tree::theorem_concatenated_leaf(upper, 4, t);
        assert(upper[t]@ == roots[t].elements@);
        assert(hash(roots[t].elements@) == roots[t]);
    } else {
        let below = (level - 1) as nat;
        lemma_pow2_unfold((m - below) as nat);
        theorem_roots_merge(
            words,
            leaf_length,
            hash,
            compress,
            c,
            m,
            roots,
            upper,
            below,
            2 * t,
        );
        theorem_roots_merge(
            words,
            leaf_length,
            hash,
            compress,
            c,
            m,
            roots,
            upper,
            below,
            2 * t + 1,
        );
    }
}

/// The caps of the tree over the roots and of the tree itself always go together.
pub proof fn theorem_caps_compatible(build: ChunkedBuild)
    requires
        build.wf(),
        build.num_chunks >= 2,
        build.upper_cap_len == pow2(build.upper_cap_height() as nat),
    ensures
        build.caps_compatible(pow2(build.cap_height as nat) as int),
{
    let u = build.upper_cap_height() as nat;
    let c = build.cap_height as nat;
    lemma_pow2_pos(u);
    lemma_pow2_pos(c);
    lemma_pow2_pos((c - u) as nat);
    lemma_pow2_adds(u, (c - u) as nat);
    lemma_div_multiples_vanish(pow2(u) as int, pow2((c - u) as nat) as int);
    lemma_mul_is_commutative(pow2(u) as int, pow2((c - u) as nat) as int);
}

/// The tree over the roots has the cap of the tree, or no inner node where there are fewer roots than
/// cap entries.
pub proof fn theorem_upper_cap(build: ChunkedBuild)
    requires
        build.wf(),
        build.num_chunks >= 2,
    ensures
        pow2(build.upper_height()) == build.num_chunks,
        0 <= build.upper_cap_height() <= build.cap_height,
        pow2(build.upper_cap_height() as nat) <= build.num_chunks,
        build.upper_cap_height() < build.cap_height ==> pow2(build.upper_cap_height() as nat)
            == build.num_chunks,
{
    bits::lemma_pow2_monotonic(build.upper_cap_height() as nat, build.upper_height());
}

/// Caps of `2^a` and `2^b` entries go together exactly where the second has as many times the entries as
/// the tree's own cap has times those of the tree over the roots.
pub proof fn theorem_caps_compatible_exactly(build: ChunkedBuild, a: nat, b: nat)
    requires
        build.wf(),
        build.num_chunks >= 2,
        build.upper_cap_len == pow2(a),
        build.cap_height - build.upper_cap_height() <= b,
    ensures
        build.caps_compatible(pow2(b) as int) <==> b - a == build.cap_height
            - build.upper_cap_height(),
{
    let shift = (build.cap_height - build.upper_cap_height()) as nat;
    let rest = (b - shift) as nat;
    lemma_pow2_pos(a);
    lemma_pow2_pos(b);
    lemma_pow2_pos(shift);
    lemma_pow2_adds(rest, shift);
    lemma_mul_is_commutative(pow2(rest) as int, pow2(shift) as int);
    lemma_div_multiples_vanish(pow2(rest) as int, pow2(shift) as int);
    if pow2(a) == pow2(rest) {
        bits::lemma_pow2_injective(a, rest);
    }
}

/// The chunks are consecutive, of one size, and together all leaves: leaf `i` is in chunk
/// `i / chunk_size` and in no other.
pub proof fn theorem_chunks_cover(build: ChunkedBuild, i: int, k: int)
    requires
        build.wf(),
        build.num_chunks >= 2,
        0 <= i < pow2(build.tree_height as nat),
        0 <= k < build.num_chunks,
    ensures
        0 <= i / (build.chunk_size as int) < build.num_chunks,
        (k * build.chunk_size <= i < k * build.chunk_size + build.chunk_size) <==> k == i
            / (build.chunk_size as int),
{
    let c = build.chunk_size as int;
    lemma_pow2_pos(bits::log2(c));
    crate::flat::lemma_flat_position(i, build.num_chunks as int, c);
    let q = i / c;
    if k < q {
        assert(k * c + c <= q * c) by (nonlinear_arith)
            requires
                k + 1 <= q,
                c > 0,
        ;
    } else if k > q {
        assert(q * c + c <= k * c) by (nonlinear_arith)
            requires
                q + 1 <= k,
                c > 0,
        ;
    }
}

impl MetalRuntime {
    /// Begins to build a tree in chunks of `2^chunk_log2` leaves. A tree of no more than a chunk is
    /// built as a whole.
    pub fn new_merkle_tree_chunked_with_root_merge(
        counters: &mut DispatchCounters,
        leaves: &Vec<Vec<u64>>,
        cap_height: usize,
        chunk_log2: usize,
    ) -> (r: ChunkedBuild)
        requires
            merkle_tree::buildable(leaves@, cap_height as int),
            chunk_log2 < usize::BITS,
        ensures
            r.wf(),
            is_build(seq![r]),
            r.tree_height == bits::log2(leaves@.len() as int),
            r.cap_height == cap_height,
            r.chunk_size == pow2(chunk_log2 as nat),
            r.roots@.len() == 0,
            r.stage == if leaves@.len() <= pow2(chunk_log2 as nat) {
                ChunkStage::Whole
            } else {
                ChunkStage::Chunks
            },
            *final(counters) == (DispatchCounters {
                chunk_dispatches: if leaves@.len() <= pow2(chunk_log2 as nat) {
                    1
                } else {
                    0
                },
                ..*old(counters)
            }),
    {
        let leaf_count: usize = leaves.len();
        let tree_height: usize = bits::log2_strict(leaf_count);
        let chunk_size: usize = bits::shl_one(chunk_log2);
        reset_chunk_dispatch_count(counters);
        if leaf_count <= chunk_size {
            counters.chunk_dispatches = 1;
            return ChunkedBuild {
                tree_height,
                cap_height,
                chunk_size,
                num_chunks: 1,
                roots: Vec::new(),
                upper_cap_len: 0,
                result: None,
                stage: ChunkStage::Whole,
            };
        }
        let num_chunks: usize = leaf_count / chunk_size;
        proof {
            let h = tree_height as nat;
            let c = chunk_log2 as nat;
            if h <= c {
                bits::lemma_pow2_monotonic(h, c);
            }
            let d = (h - c) as nat;
            lemma_pow2_adds(d, c);
            lemma_pow2_pos(c);
            lemma_mul_is_commutative(pow2(d) as int, pow2(c) as int);
            lemma_div_multiples_vanish(pow2(d) as int, pow2(c) as int);
            assert(num_chunks == pow2(d));
            lemma2_to64();
            bits::lemma_pow2_monotonic(1, d);
        }
        ChunkedBuild {
            tree_height,
            cap_height,
            chunk_size,
            num_chunks,
            roots: Vec::new(),
            upper_cap_len: 0,
            result: None,
            stage: ChunkStage::Chunks,
        }
    }

    /// Begins to build a tree in chunks of the size that is set.
    pub fn new_merkle_tree_chunked(
        settings: &CoalescedSettings,
        counters: &mut DispatchCounters,
        leaves: &Vec<Vec<u64>>,
        cap_height: usize,
    ) -> (r: ChunkedBuild)
        requires
            settings.wf(),
            merkle_tree::buildable(leaves@, cap_height as int),
        ensures
            r.wf(),
            is_build(seq![r]),
            r.tree_height == bits::log2(leaves@.len() as int),
            r.cap_height == cap_height,
            r.chunk_size == pow2(settings.chunk_size_log2 as nat),
            r.roots@.len() == 0,
            r.stage == if leaves@.len() <= pow2(settings.chunk_size_log2 as nat) {
                ChunkStage::Whole
            } else {
                ChunkStage::Chunks
            },
            *final(counters) == (DispatchCounters {
                chunk_dispatches: if leaves@.len() <= pow2(settings.chunk_size_log2 as nat) {
                    1
                } else {
                    0
                },
                ..*old(counters)
            }),
    {
        MetalRuntime::new_merkle_tree_chunked_with_root_merge(
            counters,
            leaves,
            cap_height,
            get_chunk_size_log2(settings),
        )
    }
}

} // verus!
