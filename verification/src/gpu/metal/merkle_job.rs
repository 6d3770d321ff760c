//! Trees that the device hashes while the processor does something else.

use crate::bits;
use crate::gpu::metal::buffer_pool::Buffer;
use crate::gpu::metal::plan::{DigestLayout, TreeShape};
use crate::gpu::metal::utils::{self, convert_linear_to_recursive, HashOut};
use vstd::arithmetic::mul::*;
use vstd::arithmetic::power2::*;
use vstd::prelude::*;

verus! {

/// How far the device is with submitted commands.
#[derive(Clone, Copy, Debug, PartialEq, Eq, Structural)]
pub enum CommandStatus {
    NotEnqueued,
    Enqueued,
    Committed,
    Scheduled,
    Completed,
    Error,
}

/// A submitted tree.
#[derive(Debug)]
pub struct MerkleGpuJob {
    digests_buffer: Buffer,
    digests_buffer_size: usize,
    caps_buffer: Option<Buffer>,
    caps_buffer_size: usize,
    total_digests: usize,
    num_caps: usize,
    tree_height: usize,
    cap_height: usize,
    is_linear_layout: bool,
}

/// The digests of a submitted tree in the recursive layout, and its cap where the device computed
/// it.
#[derive(Debug)]
pub struct MerkleGpuResult {
    pub digests: Vec<HashOut>,
    pub caps: Option<Vec<HashOut>>,
}

impl MerkleGpuJob {
    /// The buffer that the digests are written to.
    pub closed spec fn spec_digests_buffer(&self) -> Buffer {
        self.digests_buffer
    }

    /// The buffer that the cap is written to, if any.
    pub closed spec fn spec_caps_buffer(&self) -> Option<Buffer> {
        self.caps_buffer
    }

    /// The digests in the buffer.
    pub closed spec fn spec_total_digests(&self) -> usize {
        self.total_digests
    }

    /// The entries of the cap.
    pub closed spec fn spec_num_caps(&self) -> usize {
        self.num_caps
    }

    /// The height of the tree.
    pub closed spec fn spec_tree_height(&self) -> usize {
        self.tree_height
    }

    /// The height of the cap.
    pub closed spec fn spec_cap_height(&self) -> usize {
        self.cap_height
    }

    /// Whether the digests are in the linear layout.
    pub closed spec fn spec_is_linear_layout(&self) -> bool {
        self.is_linear_layout
    }

    /// The sizes that were noted are those of the buffers.
    pub closed spec fn wf(&self) -> bool {
        &&& self.digests_buffer_size == self.digests_buffer.length
        &&& self.caps_buffer_size == match self.caps_buffer {
            Some(buffer) => buffer.length,
            None => 0,
        }
    }

    /// Whether the digests can be converted, if they have to be: the buffer holds the heap of every
    /// subtree.
    pub open spec fn finishable(&self) -> bool {
        self.spec_is_linear_layout() ==> {
            let layers = self.spec_tree_height() - self.spec_cap_height();
            &&& 0 <= layers
            &&& layers + 1 < usize::BITS
            &&& (2 * pow2(layers as nat) - 1) * self.spec_num_caps() <= self.spec_total_digests()
        }
    }

    /// The job of a tree in a heap shape can be finished.
    pub proof fn lemma_heap_finishable(&self, shape: TreeShape)
        requires
            shape.wf(DigestLayout::Heap),
            self.spec_total_digests() == shape.total_digests,
            self.spec_num_caps() == shape.num_caps,
            self.spec_tree_height() == shape.tree_height,
            self.spec_cap_height() == shape.cap_height,
        ensures
            self.finishable(),
    {
        shape.lemma_bounds();
    }

    /// A job on these buffers.
    pub fn new(
        digests_buffer: Buffer,
        caps_buffer: Option<Buffer>,
        total_digests: usize,
        num_caps: usize,
        tree_height: usize,
        cap_height: usize,
        is_linear_layout: bool,
    ) -> (r: MerkleGpuJob)
        ensures
            r.wf(),
            r.spec_digests_buffer() == digests_buffer,
            r.spec_caps_buffer() == caps_buffer,
            r.spec_total_digests() == total_digests,
            r.spec_num_caps() == num_caps,
            r.spec_tree_height() == tree_height,
            r.spec_cap_height() == cap_height,
            r.spec_is_linear_layout() == is_linear_layout,
    {
        let digests_buffer_size: usize = digests_buffer.length;
        let caps_buffer_size: usize = match &caps_buffer {
            Some(buffer) => buffer.length,
            None => 0,
        };
        MerkleGpuJob {
            digests_buffer,
            digests_buffer_size,
            caps_buffer,
            caps_buffer_size,
            total_digests,
            num_caps,
            tree_height,
            cap_height,
            is_linear_layout,
        }
    }

    /// Whether the device is done.
    pub fn is_complete(&self, status: CommandStatus) -> (r: bool)
        ensures
            r == (status is Completed),
    {
        matches!(status, CommandStatus::Completed)
    }

    /// The bytes that go out of use when the job ends: those of the digests and those of the cap.
    pub fn freed_bytes(&self) -> (r: (usize, usize))
        requires
            self.wf(),
        ensures
            r.0 == self.spec_digests_buffer().length,
            r.1 == match self.spec_caps_buffer() {
                Some(buffer) => buffer.length,
                None => 0,
            },
    {
        (self.digests_buffer_size, self.caps_buffer_size)
    }

    /// The results, from what the device left in the buffers. Digests in the linear layout are
    /// converted, without gaps.
    pub fn finish(self, raw_digests: Vec<HashOut>, raw_caps: Vec<HashOut>) -> (r: MerkleGpuResult)
        requires
            self.finishable(),
            raw_digests@.len() == self.spec_total_digests(),
            raw_caps@.len() == match self.spec_caps_buffer() {
                Some(_) => self.spec_num_caps(),
                None => 0,
            },
        ensures
            r.digests@ == if self.spec_is_linear_layout() {
                utils::recursive_digests(
                    raw_digests@,
                    (self.spec_tree_height() - self.spec_cap_height()) as nat,
                    self.spec_num_caps() as nat,
                )
            } else {
                raw_digests@
            },
            r.caps is Some <==> self.spec_caps_buffer() is Some,
            r.caps matches Some(caps) ==> caps@ == raw_caps@,
    {
        let digests: Vec<HashOut> = if self.is_linear_layout {
            let num_layers: usize = self.tree_height - self.cap_height;
            proof {
                let layers = num_layers as nat;
                let n = pow2(layers) as int;
                let m = self.num_caps as int;
                vstd::bits::lemma_usize_pow2_no_overflow((layers + 1) as nat);
                lemma_pow2_unfold((layers + 1) as nat);
                lemma_pow2_pos(layers);
                lemma2_to64();
                assert(0 <= (2 * n - 2) * m <= (2 * n - 1) * m) by (nonlinear_arith)
                    requires
                        n >= 1,
                        m >= 0,
                ;
                assert((2 * n - 2) * (m - 1) + (2 * n - 2) == (2 * n - 2) * m) by (nonlinear_arith);
                utils::theorem_conversion_is_complete(raw_digests@, layers, self.num_caps as nat);
            }
            let tree_length: usize = 2 * (bits::shl_one(num_layers) - 1);
            proof {
                lemma_mul_basics(self.num_caps - 1);
                assert(num_layers == 0 ==> tree_length * (self.num_caps - 1) == 0);
            }
            convert_linear_to_recursive(&raw_digests, num_layers, tree_length, self.num_caps)
        } else {
            raw_digests
        };
        let caps: Option<Vec<HashOut>> = match self.caps_buffer {
            Some(_) => Some(raw_caps),
            None => None,
        };
        MerkleGpuResult { digests, caps }
    }

    /// The height of the tree.
    pub fn tree_height(&self) -> (r: usize)
        ensures
            r == self.spec_tree_height(),
    {
        self.tree_height
    }

    /// The height of the cap.
    pub fn cap_height(&self) -> (r: usize)
        ensures
            r == self.spec_cap_height(),
    {
        self.cap_height
    }
}

} // verus!
