//! Batches of polynomials that are committed to by a Merkle tree over their values.

use crate::bits;
use crate::flat;
use crate::fri::device_values;
use crate::gpu::metal::coalesced_plan::chunk_ranges;
use crate::gpu::metal::merkle_tree::{self, MerkleTree};
use crate::hash::metal::ntt::{
    self, zero_pad, MetalNTT, NttDispatch, NttWidths, GOLDILOCKS_COSET_SHIFT,
};
use crate::hash::metal::ntt_kernels;
use crate::launch::group_count;
use crate::math::goldilocks;
use crate::math::transform;
use vstd::arithmetic::div_mod::*;
use vstd::arithmetic::mul::*;
use vstd::arithmetic::power::*;
use vstd::arithmetic::power2::*;
use vstd::prelude::*;

verus! {

/// Field elements that blind a leaf.
pub const SALT_SIZE: usize = 4;

/// A batch of polynomials and the Merkle tree over their values.
#[derive(Debug)]
pub struct PolynomialBatch {
    pub polynomials: Vec<Vec<u64>>,
    pub merkle_tree: MerkleTree,
    pub degree_log: usize,
    pub rate_bits: usize,
    pub blinding: bool,
}

impl Default for PolynomialBatch {
    fn default() -> (r: PolynomialBatch)
        ensures
            r.polynomials@.len() == 0,
            r.merkle_tree.leaves@.len() == 0,
            r.merkle_tree.leaf_length == 0,
            r.merkle_tree.digests@.len() == 0,
            r.merkle_tree.cap@.len() == 0,
            r.degree_log == 0,
            r.rate_bits == 0,
            !r.blinding,
    {
        PolynomialBatch {
            polynomials: Vec::new(),
            merkle_tree: MerkleTree::new_from_fields(Vec::new(), 0, Vec::new(), Vec::new()),
            degree_log: 0,
            rate_bits: 0,
            blinding: false,
        }
    }
}

/// Elements that blind a leaf, if leaves are blinded.
pub open spec fn salt_size(blinding: bool) -> nat {
    if blinding {
        4
    } else {
        0
    }
}

/// Whether polynomials can be extended by `2^rate_bits`: there are some, all of one length, which is
/// a power of two, and the extended length fits.
pub open spec fn extendable(polynomials: Seq<Vec<u64>>, rate_bits: int) -> bool {
    &&& polynomials.len() > 0
    &&& 0 <= rate_bits < usize::BITS
    &&& bits::power_of_two(polynomials[0]@.len() as int)
    &&& forall|j: int|
        0 <= j < polynomials.len() ==> #[trigger] polynomials[j]@.len() == polynomials[0]@.len()
    &&& polynomials[0]@.len() * pow2(rate_bits as nat) <= usize::MAX
}

/// Polynomials to evaluate on the coset, and random columns to add.
#[derive(Debug)]
pub struct LdePlan {
    /// The coefficients of each polynomial, zero-padded to the extended length.
    pub padded: Vec<Vec<u64>>,
    /// The shift of the coset.
    pub shift: u64,
    /// Random columns.
    pub salt_columns: usize,
    /// The length of a random column.
    pub column_len: usize,
}

/// The evaluation of a batch by a device, and random columns to add.
#[derive(Debug)]
pub struct MetalCommitPlan {
    /// The evaluation of all polynomials on the coset.
    pub dispatch: NttDispatch,
    /// Random columns.
    pub salt_columns: usize,
    /// The length of a column.
    pub column_len: usize,
}

/// The leaves over columns of values: leaf `i` holds the values of all columns at the bit-reversed
/// index.
pub open spec fn leaf_of(columns: Seq<Vec<u64>>, log_len: nat, i: int) -> Seq<u64> {
    Seq::new(columns.len(), |j: int| columns[j]@[bits::reversed(i as nat, log_len) as int])
}

/// Who evaluates the polynomials of a batch.
#[derive(Clone, Copy, Debug, PartialEq, Eq, Structural)]
pub enum CoeffsRoute {
    Cpu,
    Gpu,
}

/// Parameters of batched transforms on graphics processors.
#[derive(Clone, Copy, Debug, PartialEq, Eq, Structural)]
pub struct NttConfig {
    pub batches: u32,
    pub extension_rate_bits: u32,
    pub are_inputs_on_device: bool,
    pub are_outputs_on_device: bool,
    pub with_coset: bool,
    /// Whether the call spreads the work over processors itself.
    pub is_multi_gpu: bool,
}

/// Parameters of a transposition on a graphics processor.
#[derive(Clone, Copy, Debug, PartialEq, Eq, Structural)]
pub struct TransposeConfig {
    pub batches: u32,
    pub are_inputs_on_device: bool,
    pub are_outputs_on_device: bool,
}

/// A batch that is extended, transposed and committed to on graphics processors.
#[derive(Debug)]
pub struct GpuCommitPlan {
    /// The coefficients of all polynomials, one after another.
    pub input: Vec<u64>,
    pub input_elements: usize,
    /// Elements of the extended polynomials, with which the buffer of columns begins.
    pub output_elements: usize,
    /// Random columns of `leaf_count` elements each, which follow in that buffer.
    pub salt_columns: usize,
    /// Elements of the buffer of columns, and of the leaves.
    pub column_elements: usize,
    pub lde: NttConfig,
    /// Whether one processor does all the work.
    pub single_gpu: bool,
    pub transpose: TransposeConfig,
    /// Logarithm of the extended length.
    pub output_domain_size: usize,
    pub leaf_count: usize,
    pub leaf_length: usize,
}

/// The polynomials that one graphics processor extends.
#[derive(Clone, Copy, Debug, PartialEq, Eq, Structural)]
pub struct DeviceBatch {
    pub device_id: usize,
    pub first: usize,
    pub count: usize,
    /// Elements of the input buffer; polynomial `i` of the batch goes to `i * input_domain_size`.
    pub input_elements: usize,
    pub input_domain_size: usize,
    pub config: NttConfig,
    /// Elements of the output buffer; polynomial `i` of the batch comes from `i * output_domain_size`.
    pub output_elements: usize,
    pub output_domain_size: usize,
}

/// The largest logarithm of an extended length for which graphics processors do not pay.
pub const MAX_CPU_LDE_LOG: usize = 10;

impl PolynomialBatch {
    /// The tree has a leaf, with room for its salt, for each point of the extended domain.
    pub open spec fn wf(&self) -> bool {
        let log_len = self.degree_log + self.rate_bits;
        &&& log_len < usize::BITS
        &&& self.merkle_tree.leaf_length >= salt_size(self.blinding)
        &&& self.merkle_tree.leaves@.len() == pow2(log_len as nat) * self.merkle_tree.leaf_length
    }

    /// The polynomials to evaluate on the coset and the random columns to add.
    pub fn lde_values(polynomials: &Vec<Vec<u64>>, rate_bits: usize, blinding: bool) -> (r: LdePlan)
        requires
            extendable(polynomials@, rate_bits as int),
        ensures
            r.padded@.len() == polynomials@.len(),
            forall|j: int|
                0 <= j < r.padded@.len() ==> (#[trigger] r.padded@[j])@ == ntt::zero_padded(
                    polynomials@[j]@,
                    polynomials@[0]@.len() * pow2(rate_bits as nat),
                ),
            r.shift == GOLDILOCKS_COSET_SHIFT,
            r.salt_columns == salt_size(blinding),
            r.column_len == polynomials@[0]@.len() * pow2(rate_bits as nat),
    {
        let degree: usize = polynomials[0].len();
        let extended: usize = bits::shl(degree, rate_bits);
        proof {
            lemma_pow2_pos(rate_bits as nat);
            assert(degree * pow2(rate_bits as nat) >= degree) by (nonlinear_arith)
                requires
                    pow2(rate_bits as nat) >= 1,
                    degree >= 0,
            ;
        }
        let mut padded: Vec<Vec<u64>> = Vec::with_capacity(polynomials.len());
        let mut j: usize = 0;
        while j < polynomials.len()
            invariant
                j <= polynomials@.len(),
                degree == polynomials@[0]@.len(),
                degree <= extended == degree * pow2(rate_bits as nat),
                forall|i: int|
                    0 <= i < polynomials@.len() ==> #[trigger] polynomials@[i]@.len() == degree,
                padded@.len() == j,
                forall|i: int|
                    0 <= i < j ==> (#[trigger] padded@[i])@ == ntt::zero_padded(
                        polynomials@[i]@,
                        extended as nat,
                    ),
            decreases polynomials.len() - j,
        {
            proof {
                assert(polynomials@[j as int]@.len() == degree);
            }
            let copy: Vec<u64> = flat::copy_range(&polynomials[j], 0, degree);
            proof {
                assert(copy@ =~= polynomials@[j as int]@);
            }
            padded.push(zero_pad(copy, extended));
            j = j + 1;
        }
        LdePlan {
            padded,
            shift: GOLDILOCKS_COSET_SHIFT,
            salt_columns: if blinding {
                SALT_SIZE
            } else {
                0
            },
            column_len: extended,
        }
    }

    /// The columns of a tree: the values of the polynomials, then the random columns.
    pub fn lde_columns(values: Vec<Vec<u64>>, salt: Vec<Vec<u64>>) -> (r: Vec<Vec<u64>>)
        ensures
            r@ == values@ + salt@,
    {
        let mut columns: Vec<Vec<u64>> = values;
        let mut rest: Vec<Vec<u64>> = salt;
        columns.append(&mut rest);
        columns
    }

    /// The leaves over columns of values: the transposed columns, in bit-reversed order.
    pub fn from_coeffs_cpu_leaves(columns: &Vec<Vec<u64>>) -> (r: Vec<Vec<u64>>)
        requires
            columns@.len() > 0,
            bits::power_of_two(columns@[0]@.len() as int),
            forall|j: int|
                0 <= j < columns@.len() ==> #[trigger] columns@[j]@.len() == columns@[0]@.len(),
        ensures
            r@.len() == columns@[0]@.len(),
            forall|i: int|
                0 <= i < r@.len() ==> (#[trigger] r@[i])@ == leaf_of(
                    columns@,
                    bits::log2(r@.len() as int),
                    i,
                ),
    {
        let len: usize = columns[0].len();
        let log_len: usize = bits::log2_strict(len);
        let mut leaves: Vec<Vec<u64>> = Vec::with_capacity(len);
        let mut i: usize = 0;
        while i < len
            invariant
                i <= len == columns@[0]@.len(),
                columns@.len() > 0,
                log_len < usize::BITS,
                len == pow2(log_len as nat),
                forall|j: int|
                    0 <= j < columns@.len() ==> #[trigger] columns@[j]@.len() == len,
                leaves@.len() == i,
                forall|k: int|
                    0 <= k < i ==> (#[trigger] leaves@[k])@ == leaf_of(
                        columns@,
                        log_len as nat,
                        k,
                    ),
            decreases len - i,
        {
            let index: usize = bits::reverse_bits(i, log_len);
            let mut leaf: Vec<u64> = Vec::with_capacity(columns.len());
            let mut j: usize = 0;
            while j < columns.len()
                invariant
                    j <= columns@.len(),
                    index < len,
                    index == bits::reversed(i as nat, log_len as nat),
                    forall|k: int|
                        0 <= k < columns@.len() ==> #[trigger] columns@[k]@.len() == len,
                    leaf@ == leaf_of(columns@, log_len as nat, i as int).take(j as int),
                decreases columns.len() - j,
            {
                proof {
                    assert(columns@[j as int]@.len() == len);
                }
                leaf.push(columns[j][index]);
                j = j + 1;
                proof {
                    assert(leaf@ =~= leaf_of(columns@, log_len as nat, i as int).take(j as int));
                }
            }
            proof {
                assert(leaf@ =~= leaf_of(columns@, log_len as nat, i as int));
            }
            leaves.push(leaf);
            i = i + 1;
        }
        leaves
    }

    /// The batch with a tree over its values.
    pub fn from_coeffs_cpu(
        polynomials: Vec<Vec<u64>>,
        merkle_tree: MerkleTree,
        rate_bits: usize,
        blinding: bool,
    ) -> (r: PolynomialBatch)
        requires
            polynomials@.len() > 0,
            bits::power_of_two(polynomials@[0]@.len() as int),
        ensures
            r.polynomials == polynomials,
            r.merkle_tree == merkle_tree,
            r.degree_log == bits::log2(polynomials@[0]@.len() as int),
            r.rate_bits == rate_bits,
            r.blinding == blinding,
    {
        let degree: usize = polynomials[0].len();
        PolynomialBatch {
            degree_log: bits::log2_strict(degree),
            polynomials,
            merkle_tree,
            rate_bits,
            blinding,
        }
    }

    /// Whether field elements of this size and alignment are Goldilocks elements.
    pub fn is_goldilocks_layout(size: usize, align: usize) -> (r: bool)
        ensures
            r == (size == 8 && align == 8),
    {
        size == 8 && align == 8
    }

    /// The evaluation of all polynomials on the coset by the device, in one dispatch, and the random
    /// columns to add where `blinding` asks for them.
    pub fn from_coeffs_metal(
        ntt: &MetalNTT,
        polynomials: &Vec<Vec<u64>>,
        rate_bits: usize,
        blinding: bool,
        widths: &NttWidths,
    ) -> (r: MetalCommitPlan)
        requires
            ntt.wf(),
            extendable(polynomials@, rate_bits as int),
            bits::log2(polynomials@[0]@.len() as int) + rate_bits <= ntt.limit(),
            polynomials@.len() * (polynomials@[0]@.len() * pow2(rate_bits as nat)) * 8
                <= usize::MAX,
            widths.fits(
                polynomials@.len() * (polynomials@[0]@.len() * pow2(rate_bits as nat)) as int,
            ),
        ensures
            ({
                let n = polynomials@[0]@.len() * pow2(rate_bits as nat);
                &&& r.dispatch.data@ == batch_words(polynomials@, n)
                &&& r.dispatch.buffer_size == polynomials@.len() * n * 8
                &&& r.dispatch.launches@ == ntt::batch_schedule(
                    n,
                    bits::log2(n as int),
                    ntt.stride(n),
                    polynomials@.len(),
                    *widths,
                )
                &&& r.salt_columns == salt_size(blinding)
                &&& r.column_len == n
            }),
    {
        let plan: LdePlan = PolynomialBatch::lde_values(polynomials, rate_bits, blinding);
        let ghost n = polynomials@[0]@.len() * pow2(rate_bits as nat);
        proof {
            let k = bits::log2(polynomials@[0]@.len() as int);
            lemma_pow2_adds(k, rate_bits as nat);
            bits::lemma_log2(k + rate_bits as nat);
            assert forall|b: int| 0 <= b < plan.padded@.len() implies #[trigger] plan.padded@[b]@.len()
                == plan.padded@[0]@.len() by {
                assert(plan.padded@[b]@.len() == n);
                assert(plan.padded@[0]@.len() == n);
            }
            assert(plan.padded@[0]@.len() == n);
        }
        let dispatch: Option<NttDispatch> = ntt.batch_coset_ntt(&plan.padded, plan.shift, widths);
        let dispatch: NttDispatch = match dispatch {
            Some(d) => {
                proof {
                    let wanted = batch_words(polynomials@, n);
                    lemma_pow2_pos(bits::log2(n as int));
                    assert forall|i: int| 0 <= i < wanted.len() implies #[trigger] d.data@[i]
                        == wanted[i] by {
                        flat::lemma_flat_position(i, polynomials@.len() as int, n as int);
                        assert(plan.padded@[i / n as int]@ == ntt::zero_padded(
                            polynomials@[i / n as int]@,
                            n,
                        ));
                    }
                    assert(d.data@ =~= wanted);
                }
                d
            },
            None => {
                proof {
                    assert(false);
                }
                NttDispatch { data: Vec::new(), buffer_size: 0, launches: Vec::new() }
            },
        };
        MetalCommitPlan {
            dispatch,
            salt_columns: plan.salt_columns,
            column_len: plan.column_len,
        }
    }

    /// The leaves over the values of `count` polynomials that the device left, one polynomial after
    /// another, and over random columns.
    pub fn from_coeffs_metal_leaves(
        results: &Vec<u64>,
        count: usize,
        column_len: usize,
        salt: Vec<Vec<u64>>,
    ) -> (r: Vec<Vec<u64>>)
        requires
            count > 0,
            bits::power_of_two(column_len as int),
            results@.len() == count * column_len,
            forall|j: int| 0 <= j < salt@.len() ==> #[trigger] salt@[j]@.len() == column_len,
        ensures
            r@.len() == column_len,
            forall|i: int|
                0 <= i < r@.len() ==> (#[trigger] r@[i])@ == Seq::new(
                    count as nat + salt@.len(),
                    |j: int|
                        {
                            let row = bits::reversed(i as nat, bits::log2(column_len as int)) as int;
                            if j < count {
                                results@[j * column_len + row]
                            } else {
                                salt@[j - count]@[row]
                            }
                        },
                ),
            // The leaf of a point holds what the device left for each polynomial at the point.
            forall|j: int, point: int|
                0 <= j < count && 0 <= point < column_len ==> results@[#[trigger] (j * column_len
                    + point)] == r@[bits::reversed(
                    point as nat,
                    bits::log2(column_len as int),
                ) as int]@[j],
    {
        let ghost salt_view = salt@;
        let values: Vec<Vec<u64>> = MetalNTT::batch_split(results, count, column_len);
        let ghost rows = values@;
        proof {
            assert forall|j: int| 0 <= j < rows.len() implies #[trigger] rows[j]@.len()
                == column_len by {
                assert(0 <= j * column_len && j * column_len + column_len <= count * column_len)
                    by (nonlinear_arith)
                    requires
                        0 <= j,
                        j + 1 <= count,
                        column_len >= 0,
                ;
            }
        }
        let columns: Vec<Vec<u64>> = PolynomialBatch::lde_columns(values, salt);
        proof {
            assert forall|j: int| 0 <= j < columns@.len() implies #[trigger] columns@[j]@.len()
                == columns@[0]@.len() by {
                assert(columns@[0] == rows[0]);
                if j < count {
                    assert(columns@[j] == rows[j]);
                } else {
                    assert(columns@[j] == salt_view[j - count]);
                }
            }
            assert(columns@[0] == rows[0]);
        }
        let leaves: Vec<Vec<u64>> = PolynomialBatch::from_coeffs_cpu_leaves(&columns);
        proof {
            let log_len = bits::log2(column_len as int);
            assert forall|i: int| 0 <= i < leaves@.len() implies (#[trigger] leaves@[i])@
                == Seq::new(
                count as nat + salt_view.len(),
                |j: int|
                    {
                        let row = bits::reversed(i as nat, log_len) as int;
                        if j < count {
                            results@[j * column_len + row]
                        } else {
                            salt_view[j - count]@[row]
                        }
                    },
            ) by {
                bits::lemma_reversed_bound(i as nat, log_len);
                let row = bits::reversed(i as nat, log_len) as int;
                let wanted = Seq::new(
                    count as nat + salt_view.len(),
                    |j: int|
                        if j < count {
                            results@[j * column_len + row]
                        } else {
                            salt_view[j - count]@[row]
                        },
                );
                assert(leaves@[i]@ == leaf_of(columns@, log_len, i));
                assert forall|j: int| 0 <= j < wanted.len() implies #[trigger] leaf_of(
                    columns@,
                    log_len,
                    i,
                )[j] == wanted[j] by {
                    if j < count {
                        assert(columns@[j] == rows[j]);
                        assert(rows[j]@ == results@.subrange(
                            j * column_len,
                            j * column_len + column_len,
                        ));
                        assert(rows[j]@.len() == column_len);
                        assert(0 <= j * column_len && j * column_len + column_len <= count
                            * column_len) by (nonlinear_arith)
                            requires
                                0 <= j,
                                j + 1 <= count,
                                column_len >= 0,
                        ;
                    } else {
                        assert(columns@[j] == salt_view[j - count]);
                    }
                }
                assert(leaf_of(columns@, log_len, i) =~= wanted);
            }
            assert forall|j: int, point: int| 0 <= j < count && 0 <= point < column_len implies
                results@[#[trigger] (j * column_len + point)] == leaves@[bits::reversed(
                point as nat,
                log_len,
            ) as int]@[j] by {
                let i = bits::reversed(point as nat, log_len) as int;
                bits::lemma_reversed_bound(point as nat, log_len);
                bits::theorem_reversed_involution(point as nat, log_len);
                assert(leaves@[i]@.len() == count + salt_view.len());
            }
        }
        leaves
    }

    /// Who evaluates a batch: graphics processors, where there are any and the extended length is
    /// more than two.
    pub fn from_coeffs(
        polynomials: &Vec<Vec<u64>>,
        rate_bits: usize,
        gpus_available: bool,
    ) -> (r: CoeffsRoute)
        requires
            polynomials@.len() > 0,
            bits::power_of_two(polynomials@[0]@.len() as int),
            rate_bits < usize::BITS,
        ensures
            r == if gpus_available && bits::log2(polynomials@[0]@.len() as int) + rate_bits > 1 {
                CoeffsRoute::Gpu
            } else {
                CoeffsRoute::Cpu
            },
    {
        let log_n: usize = bits::log2_strict(polynomials[0].len());
        if gpus_available && log_n + rate_bits > 1 && polynomials.len() > 0 {
            CoeffsRoute::Gpu
        } else {
            CoeffsRoute::Cpu
        }
    }

    /// The plan of extending, salting where `blinding` asks for it, transposing and committing to a
    /// batch on graphics processors.
    pub fn from_coeffs_gpu(
        polynomials: &Vec<Vec<u64>>,
        rate_bits: usize,
        blinding: bool,
        num_gpus: usize,
    ) -> (r: GpuCommitPlan)
        requires
            extendable(polynomials@, rate_bits as int),
            (polynomials@.len() + salt_size(blinding)) * (polynomials@[0]@.len() * pow2(
                rate_bits as nat,
            )) <= usize::MAX,
        ensures
            ({
                let count = polynomials@.len();
                let degree = polynomials@[0]@.len();
                let extended = degree * pow2(rate_bits as nat);
                &&& r.input@ == merkle_tree::concatenated(polynomials@)
                &&& r.input_elements == count * degree
                &&& r.output_elements == count * extended
                &&& r.salt_columns == salt_size(blinding)
                &&& r.column_elements == (count + salt_size(blinding)) * extended
                &&& r.lde == (NttConfig {
                    batches: count as u32,
                    extension_rate_bits: rate_bits as u32,
                    are_inputs_on_device: false,
                    are_outputs_on_device: true,
                    with_coset: true,
                    is_multi_gpu: true,
                })
                &&& r.single_gpu == (num_gpus == 1)
                &&& r.transpose == (TransposeConfig {
                    batches: (count + salt_size(blinding)) as u32,
                    are_inputs_on_device: true,
                    are_outputs_on_device: true,
                })
                &&& r.output_domain_size == bits::log2(degree as int) + rate_bits
                &&& r.leaf_count == extended
                &&& r.leaf_length == count + salt_size(blinding)
            }),
            polynomials@.len() + 4 <= u32::MAX ==> device_values::commits(
                r,
                polynomials@,
                rate_bits as nat,
                blinding,
            ),
    {
        let count: usize = polynomials.len();
        let degree: usize = polynomials[0].len();
        let log_n: usize = bits::log2_strict(degree);
        let extended: usize = bits::shl(degree, rate_bits);
        proof {
            lemma_pow2_pos(rate_bits as nat);
            assert(degree <= extended) by (nonlinear_arith)
                requires
                    extended == degree * pow2(rate_bits as nat),
                    pow2(rate_bits as nat) >= 1,
                    degree >= 0,
            ;
            assert(count * degree <= count * extended) by (nonlinear_arith)
                requires
                    degree <= extended,
                    count >= 0,
            ;
            let salt = salt_size(blinding) as int;
            lemma_pow2_pos(bits::log2(degree as int));
            assert(count * extended <= (count + salt) * extended && count + salt <= (count + salt)
                * extended) by (nonlinear_arith)
                requires
                    salt >= 0,
                    count >= 0,
                    extended >= 1,
            ;
            merkle_tree::theorem_concatenated_leaf(polynomials@, degree as nat, 0);
        }
        let input: Vec<u64> = merkle_tree::concat(polynomials);
        let salt_columns: usize = if blinding {
            SALT_SIZE
        } else {
            0
        };
        let leaf_length: usize = count + salt_columns;
        let plan: GpuCommitPlan = GpuCommitPlan {
            input,
            input_elements: count * degree,
            output_elements: count * extended,
            salt_columns,
            column_elements: leaf_length * extended,
            lde: NttConfig {
                batches: #[verifier::truncate] (count as u32),
                extension_rate_bits: #[verifier::truncate] (rate_bits as u32),
                are_inputs_on_device: false,
                are_outputs_on_device: true,
                with_coset: true,
                is_multi_gpu: true,
            },
            single_gpu: num_gpus == 1,
            transpose: TransposeConfig {
                batches: #[verifier::truncate] (leaf_length as u32),
                are_inputs_on_device: true,
                are_outputs_on_device: true,
            },
            output_domain_size: log_n + rate_bits,
            leaf_count: extended,
            leaf_length,
        };
        proof {
            if polynomials@.len() + 4 <= u32::MAX {
                device_values::lemma_commits(plan, polynomials@, rate_bits, blinding);
            }
        }
        plan
    }

    /// The index of the leaf with the values at point `point`.
    pub open spec fn leaf_index(&self, point: int) -> int {
        bits::reversed(point as nat, (self.degree_log + self.rate_bits) as nat) as int
    }

    /// The values, without salt, of all polynomials at a point.
    pub open spec fn values_at(&self, point: int) -> Seq<u64> {
        let length = self.merkle_tree.leaf_length as int;
        let start = self.leaf_index(point) * length;
        self.merkle_tree.leaves@.subrange(start, start + length - salt_size(self.blinding))
    }

    /// The values at point `index * step`.
    pub fn get_lde_values(&self, index: usize, step: usize) -> (r: &[u64])
        requires
            self.wf(),
            index * step <= usize::MAX,
        ensures
            r@ == self.values_at(index * step),
            r@.len() == self.merkle_tree.leaf_length - salt_size(self.blinding),
    {
        let point: usize = index * step;
        let row: usize = bits::reverse_bits(point, self.degree_log + self.rate_bits);
        let length: usize = self.merkle_tree.leaf_length;
        let total: usize = self.merkle_tree.leaves.len();
        proof {
            self.lemma_leaf_range(point as int);
        }
        let start: usize = row * length;
        let salt: usize = if self.blinding {
            SALT_SIZE
        } else {
            0
        };
        vstd::slice::slice_subrange(
            self.merkle_tree.leaves.as_slice(),
            start,
            start + length - salt,
        )
    }

    /// A leaf lies within the tree.
    proof fn lemma_leaf_range(&self, point: int)
        requires
            self.wf(),
            point >= 0,
        ensures
            0 <= self.leaf_index(point) * self.merkle_tree.leaf_length,
            self.leaf_index(point) * self.merkle_tree.leaf_length + self.merkle_tree.leaf_length
                <= self.merkle_tree.leaves@.len(),
    {
        let log_len = (self.degree_log + self.rate_bits) as nat;
        bits::lemma_reversed_bound(point as nat, log_len);
        let row = self.leaf_index(point);
        let length = self.merkle_tree.leaf_length as int;
        assert(0 <= row * length && row * length + length <= pow2(log_len) * length)
            by (nonlinear_arith)
            requires
                0 <= row,
                row + 1 <= pow2(log_len),
                length >= 0,
        ;
    }

    /// The values at `width` points from `index_start * step` on, `step` apart: for each polynomial
    /// its values at all of them.
    pub fn get_lde_values_packed(&self, index_start: usize, step: usize, width: usize) -> (r: Vec<
        Vec<u64>,
    >)
        requires
            self.wf(),
            width > 0,
            (index_start + width - 1) * step <= usize::MAX,
            index_start + width - 1 <= usize::MAX,
        ensures
            r@.len() == self.merkle_tree.leaf_length - salt_size(self.blinding),
            forall|j: int|
                0 <= j < r@.len() ==> (#[trigger] r@[j])@ == Seq::new(
                    width as nat,
                    |i: int| self.values_at((index_start + i) * step)[j],
                ),
    {
        let salt: usize = if self.blinding {
            SALT_SIZE
        } else {
            0
        };
        let leaf_size: usize = self.merkle_tree.leaf_length - salt;
        let mut r: Vec<Vec<u64>> = Vec::with_capacity(leaf_size);
        let mut j: usize = 0;
        while j < leaf_size
            invariant
                self.wf(),
                j <= leaf_size == self.merkle_tree.leaf_length - salt_size(self.blinding),
                (index_start + width - 1) * step <= usize::MAX,
                index_start + width - 1 <= usize::MAX,
                r@.len() == j,
                forall|k: int|
                    0 <= k < j ==> (#[trigger] r@[k])@ == Seq::new(
                        width as nat,
                        |i: int| self.values_at((index_start + i) * step)[k],
                    ),
            decreases leaf_size - j,
        {
            let mut packed: Vec<u64> = Vec::with_capacity(width);
            let mut i: usize = 0;
            let ghost wanted = Seq::new(
                width as nat,
                |i: int| self.values_at((index_start + i) * step)[j as int],
            );
            while i < width
                invariant
                    self.wf(),
                    i <= width,
                    j < leaf_size == self.merkle_tree.leaf_length - salt_size(self.blinding),
                    (index_start + width - 1) * step <= usize::MAX,
                    index_start + width - 1 <= usize::MAX,
                    wanted == Seq::new(
                        width as nat,
                        |i: int| self.values_at((index_start + i) * step)[j as int],
                    ),
                    packed@ == wanted.take(i as int),
                decreases width - i,
            {
                proof {
                    assert((index_start + i) * step <= (index_start + width - 1) * step)
                        by (nonlinear_arith)
                        requires
                            i <= width - 1,
                            step >= 0,
                            index_start >= 0,
                    ;
                }
                let row: &[u64] = self.get_lde_values(index_start + i, step);
                packed.push(row[j]);
                i = i + 1;
                proof {
                    assert(packed@ =~= wanted.take(i as int));
                }
            }
            proof {
                assert(packed@ =~= wanted);
            }
            r.push(packed);
            j = j + 1;
        }
        r
    }
}

/// What processor `id` of `num_gpus` extends of `count` polynomials of `degree` coefficients.
pub open spec fn device_batch(
    count: int,
    degree: int,
    rate_bits: usize,
    num_gpus: int,
    id: int,
) -> DeviceBatch {
    let per_device = crate::launch::groups_for(count, num_gpus);
    let extended = degree * pow2(rate_bits as nat);
    let (first, len) = crate::gpu::metal::coalesced_plan::chunk_at(count, per_device, id);
    DeviceBatch {
        device_id: id as usize,
        first,
        count: len,
        input_elements: (degree * count) as usize,
        input_domain_size: degree as usize,
        config: NttConfig {
            batches: per_device as u32,
            extension_rate_bits: rate_bits as u32,
            are_inputs_on_device: true,
            are_outputs_on_device: true,
            with_coset: true,
            is_multi_gpu: false,
        },
        output_elements: (extended * per_device) as usize,
        output_domain_size: extended as usize,
    }
}

/// How many of the processors get polynomials.
pub open spec fn device_batch_count(count: int, num_gpus: int) -> nat {
    crate::launch::groups_for(count, crate::launch::groups_for(count, num_gpus)) as nat
}

impl PolynomialBatch {
    /// The polynomials of a batch, spread evenly over graphics processors; `None` where the extended
    /// length is too small to pay.
    pub fn lde_device_batches(polynomials: &Vec<Vec<u64>>, rate_bits: usize, num_gpus: usize) -> (r:
        Option<Vec<DeviceBatch>>)
        requires
            extendable(polynomials@, rate_bits as int),
            num_gpus > 0,
            polynomials@.len() + num_gpus <= usize::MAX,
            polynomials@.len() * (polynomials@[0]@.len() * pow2(rate_bits as nat)) <= usize::MAX,
        ensures
            r is Some <==> bits::log2(polynomials@[0]@.len() as int) + rate_bits > MAX_CPU_LDE_LOG,
            r is Some <==> bits::log2(polynomials@[0]@.len() as int) + rate_bits >= 11,
            r matches Some(batches) ==> batches@ == Seq::new(
                device_batch_count(polynomials@.len() as int, num_gpus as int),
                |id: int|
                    device_batch(
                        polynomials@.len() as int,
                        polynomials@[0]@.len() as int,
                        rate_bits,
                        num_gpus as int,
                        id,
                    ),
            ),
            polynomials@.len() <= u32::MAX ==> (r matches Some(batches) ==> forall|j: int|
                0 <= j < polynomials@.len() ==> device_values::is_spread(
                    batches@,
                    polynomials@,
                    rate_bits as nat,
                    j,
                )),
    {
        let count: usize = polynomials.len();
        let degree: usize = polynomials[0].len();
        let log_n: usize = bits::log2_strict(degree) + rate_bits;
        if log_n <= MAX_CPU_LDE_LOG {
            return None;
        }
        let extended: usize = bits::shl(degree, rate_bits);
        let per_device: usize = group_count(count, num_gpus);
        proof {
            lemma_pow2_pos(rate_bits as nat);
            crate::launch::theorem_groups_cover(count as nat, num_gpus as nat);
            assert(per_device >= 1) by (nonlinear_arith)
                requires
                    per_device * num_gpus >= count,
                    count >= 1,
                    num_gpus >= 1,
            ;
            assert(per_device <= count) by (nonlinear_arith)
                requires
                    per_device > 0 ==> (per_device - 1) * num_gpus < count,
                    num_gpus >= 1,
                    count >= 1,
            ;
            assert(extended * per_device <= count * extended) by (nonlinear_arith)
                requires
                    per_device <= count,
                    extended >= 0,
            ;
            assert(degree <= extended) by (nonlinear_arith)
                requires
                    extended == degree * pow2(rate_bits as nat),
                    pow2(rate_bits as nat) >= 1,
                    degree >= 0,
            ;
            assert(degree * count <= count * extended) by (nonlinear_arith)
                requires
                    degree <= extended,
                    count >= 0,
            ;
            lemma_pow2_pos(bits::log2(degree as int));
            assert(count <= count * extended) by (nonlinear_arith)
                requires
                    extended >= 1,
                    count >= 0,
            ;
            let k = bits::log2(degree as int);
            lemma_pow2_adds(k, rate_bits as nat);
            lemma2_to64();
            bits::lemma_pow2_monotonic(1, k + rate_bits as nat);
            assert(2 * count <= count * extended) by (nonlinear_arith)
                requires
                    extended >= 2,
                    count >= 0,
            ;
        }
        let chunks: Vec<(usize, usize)> = chunk_ranges(count, per_device);
        let ghost wanted = Seq::new(
            device_batch_count(count as int, num_gpus as int),
            |id: int|
                device_batch(count as int, degree as int, rate_bits, num_gpus as int, id),
        );
        let mut batches: Vec<DeviceBatch> = Vec::with_capacity(chunks.len());
        let mut id: usize = 0;
        while id < chunks.len()
            invariant
                id <= chunks@.len(),
                chunks@ == crate::gpu::metal::coalesced_plan::chunks_of(
                    count as int,
                    per_device as int,
                ),
                chunks@.len() == wanted.len(),
                per_device == crate::launch::groups_for(count as int, num_gpus as int),
                extended == degree * pow2(rate_bits as nat),
                extended * per_device <= usize::MAX,
                degree * count <= usize::MAX,
                wanted == Seq::new(
                    device_batch_count(count as int, num_gpus as int),
                    |id: int|
                        device_batch(count as int, degree as int, rate_bits, num_gpus as int, id),
                ),
                batches@ == wanted.take(id as int),
            decreases chunks.len() - id,
        {
            let (first, len) = chunks[id];
            batches.push(
                DeviceBatch {
                    device_id: id,
                    first,
                    count: len,
                    input_elements: degree * count,
                    input_domain_size: degree,
                    config: NttConfig {
                        batches: #[verifier::truncate] (per_device as u32),
                        extension_rate_bits: #[verifier::truncate] (rate_bits as u32),
                        are_inputs_on_device: true,
                        are_outputs_on_device: true,
                        with_coset: true,
                        is_multi_gpu: false,
                    },
                    output_elements: extended * per_device,
                    output_domain_size: extended,
                },
            );
            id = id + 1;
            proof {
                assert(batches@ =~= wanted.take(id as int));
            }
        }
        proof {
            assert(batches@ =~= wanted);
            if polynomials@.len() <= u32::MAX {
                assert forall|j: int| 0 <= j < polynomials@.len() implies device_values::is_spread(
                    batches@,
                    polynomials@,
                    rate_bits as nat,
                    j,
                ) by {
                    device_values::theorem_device_values(polynomials@, rate_bits, num_gpus, j);
                    assert(batches@ =~= device_values::all_batches(
                        count as int,
                        degree as int,
                        rate_bits,
                        num_gpus as int,
                    ));
                }
            }
        }
        Some(batches)
    }
}

/// Leaf `i` holds the values at the point whose bits are those of `i` in reverse order.
pub proof fn theorem_leaf_order(
    columns: Seq<Vec<u64>>,
    log_len: nat,
    i: nat,
    point: nat,
    j: int,
)
    requires
        i < pow2(log_len),
        point < pow2(log_len),
        forall|b: nat|
            b < log_len ==> (point / #[trigger] pow2(b)) % 2 == (i / pow2((log_len - 1 - b) as nat))
                % 2,
        0 <= j < columns.len(),
    ensures
        leaf_of(columns, log_len, i as int).len() == columns.len(),
        leaf_of(columns, log_len, i as int)[j] == columns[j]@[point as int],
{
    let r = bits::reversed(i, log_len);
    bits::lemma_reversed_bound(i, log_len);
    assert forall|b: nat| b < log_len implies (r / #[trigger] pow2(b)) % 2 == (point / pow2(b))
        % 2 by {
        bits::theorem_reversed_bit(i, log_len, b);
    }
    bits::lemma_same_bits(r, point, log_len);
}

/// Two leaves that are siblings in the tree hold the values at opposite points, half the domain apart.
pub proof fn theorem_sibling_leaves(columns: Seq<Vec<u64>>, log_len: nat, pair: nat, j: int)
    requires
        log_len > 0,
        2 * pair + 1 < pow2(log_len),
        0 <= j < columns.len(),
    ensures
        ({
            let half = pow2((log_len - 1) as nat) as int;
            let point = bits::reversed(pair, (log_len - 1) as nat) as int;
            &&& 0 <= point < half
            &&& leaf_of(columns, log_len, 2 * pair as int)[j] == columns[j]@[point]
            &&& leaf_of(columns, log_len, 2 * pair as int + 1)[j] == columns[j]@[point + half]
        }),
{
    let half = pow2((log_len - 1) as nat);
    bits::lemma_reversed_bound(pair, (log_len - 1) as nat);
    assert((2 * pair) / 2 == pair && (2 * pair + 1) / 2 == pair);
    assert((2 * pair) % 2 == 0 && (2 * pair + 1) % 2 == 1);
    assert(0 * half == 0 && 1 * half == half) by (nonlinear_arith);
}

/// The leaf of a point is the one whose bits are those of the point in reverse order; points that are a
/// whole domain apart have the same leaf.
pub proof fn theorem_leaf_index(batch: &PolynomialBatch, point: nat, b: nat)
    requires
        b < batch.degree_log + batch.rate_bits,
    ensures
        0 <= batch.leaf_index(point as int) < pow2((batch.degree_log + batch.rate_bits) as nat),
        (batch.leaf_index(point as int) / pow2(b) as int) % 2 == (point as int / pow2(
            (batch.degree_log + batch.rate_bits - 1 - b) as nat,
        ) as int) % 2,
{
    let log_len = (batch.degree_log + batch.rate_bits) as nat;
    bits::lemma_reversed_bound(point, log_len);
    bits::theorem_reversed_bit(point, log_len, b);
}

/// A batch whose tree is over columns of values gives, at every point, the columns' values at it.
pub proof fn theorem_values_at(
    batch: &PolynomialBatch,
    columns: Seq<Vec<u64>>,
    leaves: Seq<Vec<u64>>,
    point: int,
)
    requires
        batch.degree_log + batch.rate_bits < usize::BITS,
        point >= 0,
        columns.len() >= salt_size(batch.blinding),
        batch.merkle_tree.leaf_length == columns.len(),
        batch.merkle_tree.leaves@ == merkle_tree::concatenated(leaves),
        leaves.len() == pow2((batch.degree_log + batch.rate_bits) as nat),
        forall|i: int|
            0 <= i < leaves.len() ==> (#[trigger] leaves[i])@ == leaf_of(
                columns,
                (batch.degree_log + batch.rate_bits) as nat,
                i,
            ),
    ensures
        batch.wf(),
        batch.values_at(point) == Seq::new(
            (columns.len() - salt_size(batch.blinding)) as nat,
            |j: int|
                columns[j]@[point % pow2((batch.degree_log + batch.rate_bits) as nat) as int],
        ),
{
    let log_len = (batch.degree_log + batch.rate_bits) as nat;
    let row = batch.leaf_index(point);
    let length = columns.len();
    bits::lemma_reversed_bound(point as nat, log_len);
    assert forall|k: int| 0 <= k < leaves.len() implies #[trigger] leaves[k]@.len() == length by {
        assert(leaves[k]@ == leaf_of(columns, log_len, k));
    }
    merkle_tree::theorem_concatenated_leaf(leaves, length, row);
    bits::lemma_reversed_low_bits(point as nat, log_len);
    lemma_pow2_pos(log_len);
    lemma_mod_division_less_than_divisor(point, pow2(log_len) as int);
    bits::theorem_reversed_involution((point % pow2(log_len) as int) as nat, log_len);
    let leaf = batch.merkle_tree.leaves@.subrange(row * length, row * length + length);
    assert(leaf == leaf_of(columns, log_len, row));
    let values = batch.values_at(point);
    let wanted = Seq::new(
        (columns.len() - salt_size(batch.blinding)) as nat,
        |j: int| columns[j]@[point % pow2(log_len) as int],
    );
    assert forall|j: int| 0 <= j < wanted.len() implies #[trigger] values[j] == wanted[j] by {
        assert(values[j] == leaf[j]);
    }
    assert(values =~= wanted);
}

/// Where the columns are the polynomials' values on the coset, the values at a point are the
/// polynomials' values at the coset's element with that index.
pub proof fn theorem_values_are_evaluations(
    polynomial: Seq<u64>,
    column: Seq<u64>,
    log_len: nat,
    point: int,
)
    requires
        polynomial.len() <= pow2(log_len),
        0 <= point < pow2(log_len),
        transform::is_coset_transform(
            ntt::zero_padded(polynomial, pow2(log_len)),
            GOLDILOCKS_COSET_SHIFT as int,
            goldilocks::root_of_unity(log_len),
            column,
        ),
    ensures
        column.len() == pow2(log_len),
        column[point] as int == transform::evaluate(
            polynomial,
            GOLDILOCKS_COSET_SHIFT * pow(goldilocks::root_of_unity(log_len), point as nat),
        ) % goldilocks::modulus(),
{
    let padded = ntt::zero_padded(polynomial, pow2(log_len));
    let x = GOLDILOCKS_COSET_SHIFT * pow(goldilocks::root_of_unity(log_len), point as nat);
    transform::theorem_zero_padding(polynomial, padded, x);
    assert(column[point] as int == transform::evaluate(padded, x) % goldilocks::modulus());
}

/// What the device is handed for a batch: the shifted, zero-padded coefficients, one polynomial of `n`
/// after another.
pub open spec fn batch_words(polynomials: Seq<Vec<u64>>, n: nat) -> Seq<u64> {
    Seq::new(
        polynomials.len() * n,
        |i: int|
            ntt::shifted(
                ntt::zero_padded(polynomials[i / n as int]@, n),
                GOLDILOCKS_COSET_SHIFT as int,
            )[i % n as int],
    )
}

/// The launches on a batch leave, for every polynomial and every point of the coset, the polynomial's
/// value at it. The words are fewer than `2^32`, as the kernels number their threads in 32 bits.
pub proof fn theorem_metal_values(
    tables: &MetalNTT,
    polynomials: Seq<Vec<u64>>,
    log_len: nat,
    widths: NttWidths,
    j: int,
    point: int,
)
    requires
        tables.wf(),
        log_len <= tables.limit(),
        forall|i: int|
            0 <= i < polynomials.len() ==> #[trigger] polynomials[i]@.len() <= pow2(log_len),
        polynomials.len() * pow2(log_len) <= u32::MAX,
        widths.fits((polynomials.len() * pow2(log_len)) as int),
        0 <= j < polynomials.len(),
        0 <= point < pow2(log_len),
    ensures
        ({
            let n = pow2(log_len);
            let launches = ntt::batch_schedule(
                n,
                log_len,
                tables.stride(n),
                polynomials.len(),
                widths,
            );
            let results = ntt_kernels::after_launches(
                tables,
                launches,
                batch_words(polynomials, n),
            );
            &&& results.len() == polynomials.len() * n
            &&& results[j * n + point] as int == transform::evaluate(
                polynomials[j]@,
                GOLDILOCKS_COSET_SHIFT * pow(goldilocks::root_of_unity(log_len), point as nat),
            ) % goldilocks::modulus()
        }),
{
    let n = pow2(log_len) as int;
    let p = goldilocks::modulus();
    let data = batch_words(polynomials, pow2(log_len));
    let padded = ntt::zero_padded(polynomials[j]@, pow2(log_len));
    let row = ntt::shifted(padded, GOLDILOCKS_COSET_SHIFT as int);
    let w = goldilocks::root_of_unity(log_len);
    lemma_pow2_pos(log_len);
    assert forall|i: int| 0 <= i < data.len() implies #[trigger] data[i] < p by {
        flat::lemma_flat_position(i, polynomials.len() as int, n);
        let c = ntt::zero_padded(polynomials[i / n]@, pow2(log_len));
        lemma_mod_division_less_than_divisor(
            c[i % n] as int * pow(GOLDILOCKS_COSET_SHIFT as int, (i % n) as nat),
            p,
        );
    }
    ntt_kernels::theorem_batch_transform(tables, log_len, polynomials.len(), widths, data, j);
    assert forall|i: int| 0 <= i < n implies #[trigger] data.subrange(j * n, j * n + n)[i]
        == row[i] by {
        flat::lemma_flat_index(j, i, n);
    }
    assert(data.subrange(j * n, j * n + n) =~= row);
    let launches = ntt::batch_schedule(
        pow2(log_len),
        log_len,
        tables.stride(pow2(log_len)),
        polynomials.len(),
        widths,
    );
    let results = ntt_kernels::after_launches(tables, launches, data);
    let column = results.subrange(j * n, j * n + n);
    ntt::theorem_coset_transform(padded, GOLDILOCKS_COSET_SHIFT, w, column);
    assert(polynomials[j]@.len() <= pow2(log_len));
    theorem_values_are_evaluations(polynomials[j]@, column, log_len, point);
}

} // verus!
