//! What graphics processors are configured to evaluate.

use crate::bits;
use crate::fri::oracle::{self, DeviceBatch, GpuCommitPlan, NttConfig};
use crate::gpu::metal::coalesced_plan;
use crate::gpu::metal::merkle_tree;
use crate::hash::metal::ntt::{self, MetalNTT, NttWidths};
use crate::hash::metal::ntt_kernels;
use crate::math::goldilocks;
use crate::math::transform;
use vstd::arithmetic::mul::*;
use vstd::arithmetic::power::*;
use vstd::arithmetic::power2::*;
use vstd::prelude::*;

verus! {

/// The value at index `point` of what a call with this configuration makes of a polynomial with
/// coefficients `c`: at `w^point`, or at 7 times that on the coset, where `w` generates the domain that is
/// `2^extension_rate_bits` times as large as the polynomial.
pub open spec fn configured_value(config: NttConfig, c: Seq<u64>, point: nat) -> int {
    let w = goldilocks::root_of_unity(bits::log2(c.len() as int) + config.extension_rate_bits as nat);
    let shift: int = if config.with_coset {
        7
    } else {
        1
    };
    transform::evaluate(c, shift * pow(w, point)) % goldilocks::modulus()
}

/// The value of a polynomial at element `point` of the coset of `2^log_len` elements that polynomials are
/// committed to on.
pub open spec fn coset_value(c: Seq<u64>, log_len: nat, point: nat) -> int {
    transform::evaluate(c, 7 * pow(goldilocks::root_of_unity(log_len), point))
        % goldilocks::modulus()
}

/// Whether a processor's batch has polynomial `i` of the batch extended by `2^rate_bits`: its place is
/// within the buffers, which are the device's, its row is among those that are evaluated, and each of
/// its values is that on the coset.
pub open spec fn is_extended_by(batch: DeviceBatch, c: Seq<u64>, rate_bits: nat, i: int) -> bool {
    let log_len = bits::log2(c.len() as int) + rate_bits;
    &&& batch.config.are_inputs_on_device
    &&& batch.config.are_outputs_on_device
    &&& !batch.config.is_multi_gpu
    &&& i < batch.config.batches
    &&& batch.input_domain_size == c.len()
    &&& (i + 1) * batch.input_domain_size <= batch.input_elements
    &&& batch.output_domain_size == pow2(log_len)
    &&& (i + 1) * batch.output_domain_size <= batch.output_elements
    &&& forall|point: nat|
        point < pow2(log_len) ==> #[trigger] configured_value(batch.config, c, point)
            == coset_value(c, log_len, point)
}

/// Whether batch `id` holds polynomial `j`.
pub open spec fn holds(batches: Seq<DeviceBatch>, id: int, j: int) -> bool {
    &&& 0 <= id < batches.len()
    &&& batches[id].first <= j < batches[id].first + batches[id].count
}

/// Whether polynomial `j` is in exactly one batch, and extended there.
pub open spec fn is_spread(
    batches: Seq<DeviceBatch>,
    polynomials: Seq<Vec<u64>>,
    rate_bits: nat,
    j: int,
) -> bool {
    exists|id: int|
        {
            &&& #[trigger] holds(batches, id, j)
            &&& batches[id].device_id == id
            &&& batches[id].first == id * batches[id].config.batches
            &&& batches[id].input_elements == polynomials.len() * batches[id].input_domain_size
            &&& batches[id].output_elements == batches[id].config.batches
                * batches[id].output_domain_size
            &&& is_extended_by(batches[id], polynomials[j]@, rate_bits, j - batches[id].first)
            &&& forall|other: int| #[trigger] holds(batches, other, j) ==> other == id
        }
}

/// The batches of all processors that have polynomials to extend.
pub open spec fn all_batches(
    count: int,
    degree: int,
    rate_bits: usize,
    num_gpus: int,
) -> Seq<DeviceBatch> {
    Seq::new(
        oracle::device_batch_count(count, num_gpus),
        |id: int| oracle::device_batch(count, degree, rate_bits, num_gpus, id),
    )
}

/// Every polynomial is in the batch of one processor, and every value that this processor is configured
/// to compute is the polynomial's value on the coset. No processor is asked for that is not there.
#[verifier::rlimit(40)]
pub proof fn theorem_device_values(
    polynomials: Seq<Vec<u64>>,
    rate_bits: usize,
    num_gpus: usize,
    j: int,
)
    requires
        oracle::extendable(polynomials, rate_bits as int),
        num_gpus > 0,
        polynomials.len() <= u32::MAX,
        polynomials.len() * (polynomials[0]@.len() * pow2(rate_bits as nat)) <= usize::MAX,
        0 <= j < polynomials.len(),
    ensures
        ({
            let batches = all_batches(
                polynomials.len() as int,
                polynomials[0]@.len() as int,
                rate_bits,
                num_gpus as int,
            );
            &&& batches.len() <= num_gpus
            &&& is_spread(batches, polynomials, rate_bits as nat, j)
            // No processor is asked for more than its share.
            &&& batches[0].config.batches * num_gpus >= polynomials.len()
            &&& (batches[0].config.batches - 1) * num_gpus < polynomials.len()
        }),
{
    let count = polynomials.len() as int;
    let degree = polynomials[0]@.len() as int;
    let per = crate::launch::groups_for(count, num_gpus as int);
    let batches = all_batches(count, degree, rate_bits, num_gpus as int);
    let extended = degree * pow2(rate_bits as nat);
    let k = bits::log2(degree);
    crate::launch::theorem_groups_cover(count as nat, num_gpus as nat);
    assert(per >= 1) by (nonlinear_arith)
        requires
            per * num_gpus >= count,
            count >= 1,
            num_gpus >= 1,
    ;
    assert(per <= count) by (nonlinear_arith)
        requires
            per > 0 ==> (per - 1) * num_gpus < count,
            num_gpus >= 1,
            count >= 1,
    ;
    crate::launch::theorem_groups_cover(count as nat, per as nat);
    let g = crate::launch::groups_for(count, per);
    assert(g <= num_gpus) by (nonlinear_arith)
        requires
            g > 0 ==> (g - 1) * per < count,
            per * num_gpus >= count,
            per >= 1,
    ;
    lemma_pow2_pos(rate_bits as nat);
    lemma_pow2_pos(k);
    lemma_pow2_adds(k, rate_bits as nat);
    bits::lemma_log2(k);
    assert(polynomials[j]@.len() == degree);
    let chunks = coalesced_plan::chunks_of(count, per);
    assert(degree <= extended) by (nonlinear_arith)
        requires
            extended == degree * pow2(rate_bits as nat),
            pow2(rate_bits as nat) >= 1,
            degree >= 0,
    ;
    assert(g >= 1) by (nonlinear_arith)
        requires
            g * per >= count,
            count >= 1,
            per >= 1,
    ;
    assert(count <= usize::MAX && extended * per <= usize::MAX && degree * count <= usize::MAX)
        by (nonlinear_arith)
        requires
            count * extended <= usize::MAX,
            1 <= per <= count,
            1 <= degree <= extended,
    {
        assert(extended * per <= extended * count);
        assert(degree * count <= extended * count);
        assert(count <= extended * count);
    }
    coalesced_plan::theorem_chunks_partition(count as nat, per as nat, 0, j);
    let id = j / per;
    coalesced_plan::theorem_chunks_partition(count as nat, per as nat, id, j);
    let batch = batches[id];
    assert(batch.first == chunks[id].0 && batch.count == chunks[id].1);
    let i = j - batch.first;
    assert(holds(batches, id, j));
    vstd::arithmetic::div_mod::lemma_fundamental_div_mod(j, per);
    assert((i + 1) * degree <= degree * count && (i + 1) * extended <= extended * per)
        by (nonlinear_arith)
        requires
            0 <= i < per,
            per <= count,
            degree >= 0,
            extended >= 0,
    ;
    assert(pow2(k + rate_bits as nat) == extended);
    assert(batch.config.batches == per);
    assert(batches[0].config.batches == per);
    lemma_mul_is_commutative(per, id);
    vstd::arithmetic::div_mod::lemma_mod_division_less_than_divisor(j, per);
    assert(batch.first == id * per);
    lemma_mul_is_commutative(degree, count);
    lemma_mul_is_commutative(extended as int, per);
    assert(is_extended_by(batch, polynomials[j]@, rate_bits as nat, i));
    assert forall|other: int| #[trigger] holds(batches, other, j) implies other == id by {
        coalesced_plan::theorem_chunks_partition(count as nat, per as nat, other, j);
        assert(batches[other].first == chunks[other].0);
        assert(batches[other].count == chunks[other].1);
    }
}

/// Whether a plan of commitment on graphics processors evaluates every polynomial on the coset, and its
/// buffers fit one another: the extended polynomials and the random columns after them fill the buffer of
/// columns, which is transposed, on the device, into as many leaves as there are points.
pub open spec fn commits(
    plan: GpuCommitPlan,
    polynomials: Seq<Vec<u64>>,
    rate_bits: nat,
    blinding: bool,
) -> bool {
    let count = polynomials.len();
    let degree = polynomials[0]@.len();
    let log_len = bits::log2(degree as int) + rate_bits;
    // The input is the polynomials, one after another, and comes from the host.
    &&& plan.input@.len() == plan.input_elements
    &&& !plan.lde.are_inputs_on_device
    &&& forall|j: int|
        0 <= j < count ==> plan.input@.subrange(j * degree, (j + 1) * degree) == (
        #[trigger] polynomials[j])@
    // Every polynomial is extended, on the coset.
    &&& plan.lde.batches == count
    &&& forall|j: int, point: nat|
        0 <= j < count && point < pow2(log_len) ==> #[trigger] configured_value(
            plan.lde,
            polynomials[j]@,
            point,
        ) == coset_value(polynomials[j]@, log_len, point)
    &&& plan.leaf_count == pow2(log_len)
    &&& plan.output_elements == count * plan.leaf_count
    // What is extended stays on the device and is transposed there, with four columns of salt where
    // leaves are blinded.
    &&& plan.salt_columns == if blinding {
        4
    } else {
        0int
    }
    &&& plan.column_elements == plan.output_elements + plan.salt_columns * plan.leaf_count
    &&& plan.lde.are_outputs_on_device
    &&& plan.transpose.are_inputs_on_device
    &&& plan.transpose.are_outputs_on_device
    &&& plan.transpose.batches == plan.leaf_length
    &&& plan.leaf_length == count + plan.salt_columns
    &&& plan.leaf_length * plan.leaf_count == plan.column_elements
    &&& pow2(plan.output_domain_size as nat) == plan.leaf_count
}

/// A plan with these numbers commits to the polynomials.
pub proof fn lemma_commits(
    plan: GpuCommitPlan,
    polynomials: Seq<Vec<u64>>,
    rate_bits: usize,
    blinding: bool,
)
    requires
        oracle::extendable(polynomials, rate_bits as int),
        polynomials.len() + 4 <= u32::MAX,
        ({
            let count = polynomials.len();
            let degree = polynomials[0]@.len();
            let extended = degree * pow2(rate_bits as nat);
            &&& plan.input@ == merkle_tree::concatenated(polynomials)
            &&& plan.input_elements == count * degree
            &&& plan.output_elements == count * extended
            &&& plan.salt_columns == oracle::salt_size(blinding)
            &&& plan.column_elements == (count + oracle::salt_size(blinding)) * extended
            &&& plan.lde == (NttConfig {
                batches: count as u32,
                extension_rate_bits: rate_bits as u32,
                are_inputs_on_device: false,
                are_outputs_on_device: true,
                with_coset: true,
                is_multi_gpu: true,
            })
            &&& plan.transpose.batches == (count + oracle::salt_size(blinding)) as u32
            &&& plan.transpose.are_inputs_on_device
            &&& plan.transpose.are_outputs_on_device
            &&& plan.output_domain_size == bits::log2(degree as int) + rate_bits
            &&& plan.leaf_count == extended
            &&& plan.leaf_length == count + oracle::salt_size(blinding)
        }),
    ensures
        commits(plan, polynomials, rate_bits as nat, blinding),
{
    let count = polynomials.len() as int;
    let degree = polynomials[0]@.len();
    let extended = degree * pow2(rate_bits as nat);
    let k = bits::log2(degree as int);
    lemma_pow2_adds(k, rate_bits as nat);
    bits::lemma_log2(k);
    merkle_tree::theorem_concatenated_leaf(polynomials, degree, 0);
    assert forall|j: int| 0 <= j < count implies plan.input@.subrange(
        j * degree,
        (j + 1) * degree,
    ) == (#[trigger] polynomials[j])@ by {
        assert(polynomials[j]@.len() == degree);
        merkle_tree::theorem_concatenated_leaf(polynomials, degree, j);
        assert((j + 1) * degree == j * degree + degree) by (nonlinear_arith);
    }
    let salt = oracle::salt_size(blinding) as int;
    assert((count + salt) * extended == count * extended + salt * extended) by (nonlinear_arith);
    assert forall|j: int, point: nat| 0 <= j < count && point < pow2(
        k + rate_bits as nat,
    ) implies #[trigger] configured_value(plan.lde, polynomials[j]@, point) == coset_value(
        polynomials[j]@,
        k + rate_bits as nat,
        point,
    ) by {
        assert(polynomials[j]@.len() == degree);
    }
}

/// Both routes to a device give the same values: what the launches of a batch leave at every point is
/// what the processor that holds the polynomial is configured to evaluate there.
#[verifier::rlimit(40)]
pub proof fn theorem_routes_agree(
    tables: &MetalNTT,
    polynomials: Seq<Vec<u64>>,
    rate_bits: usize,
    num_gpus: usize,
    widths: NttWidths,
    j: int,
    point: int,
)
    requires
        tables.wf(),
        oracle::extendable(polynomials, rate_bits as int),
        bits::log2(polynomials[0]@.len() as int) + rate_bits <= tables.limit(),
        num_gpus > 0,
        polynomials.len() * (polynomials[0]@.len() * pow2(rate_bits as nat)) <= u32::MAX,
        widths.fits(
            (polynomials.len() * (polynomials[0]@.len() * pow2(rate_bits as nat))) as int,
        ),
        0 <= j < polynomials.len(),
        0 <= point < polynomials[0]@.len() * pow2(rate_bits as nat),
    ensures
        ({
            let n = polynomials[0]@.len() * pow2(rate_bits as nat);
            let launches = ntt::batch_schedule(
                n,
                bits::log2(n as int),
                tables.stride(n),
                polynomials.len(),
                widths,
            );
            let results = ntt_kernels::after_launches(
                tables,
                launches,
                oracle::batch_words(polynomials, n),
            );
            let batches = all_batches(
                polynomials.len() as int,
                polynomials[0]@.len() as int,
                rate_bits,
                num_gpus as int,
            );
            exists|id: int|
                #[trigger] holds(batches, id, j) && results[j * n + point] as int
                    == configured_value(batches[id].config, polynomials[j]@, point as nat)
        }),
{
    let count = polynomials.len();
    let degree = polynomials[0]@.len();
    let n = degree * pow2(rate_bits as nat);
    let k = bits::log2(degree as int);
    let log_len = k + rate_bits as nat;
    lemma_pow2_adds(k, rate_bits as nat);
    bits::lemma_log2(k);
    bits::lemma_log2(log_len);
    lemma_pow2_pos(log_len);
    assert(count <= count * n) by (nonlinear_arith)
        requires
            n >= 1,
            count >= 0,
    ;
    assert forall|i: int| 0 <= i < count implies #[trigger] polynomials[i]@.len() <= pow2(
        log_len,
    ) by {
        bits::lemma_pow2_monotonic(k, log_len);
        assert(polynomials[i]@.len() == degree);
    }
    oracle::theorem_metal_values(tables, polynomials, log_len, widths, j, point);
    theorem_device_values(polynomials, rate_bits, num_gpus, j);
    let batches = all_batches(count as int, degree as int, rate_bits, num_gpus as int);
    assert(is_spread(batches, polynomials, rate_bits as nat, j));
    let id = choose|id: int|
        {
            &&& #[trigger] holds(batches, id, j)
            &&& is_extended_by(
                batches[id],
                polynomials[j]@,
                rate_bits as nat,
                j - batches[id].first,
            )
        };
    assert(holds(batches, id, j));
    assert(polynomials[j]@.len() == degree);
    assert(configured_value(batches[id].config, polynomials[j]@, point as nat) == coset_value(
        polynomials[j]@,
        log_len,
        point as nat,
    ));
}

} // verus!
