//! What the device is handed for the launches of a transform.

use crate::bits;
use crate::hash::metal::ntt::{
    self, MetalNTT, NTTUniforms, NttDispatch, NttKernel, NttLaunch, NttParameters, NttTable,
    NttWidths,
};
use vstd::arithmetic::power2::*;
use vstd::prelude::*;

verus! {

/// Whether a launch hands its kernel what the kernel takes: a bit reversal no table, butterflies the
/// powers of the root, or of its inverse and with the flag for it, a scaling an inverse and a count. The
/// kernels for many polynomials, and no others, take their number.
pub open spec fn is_suited(l: NttLaunch) -> bool {
    match l.kernel {
        NttKernel::BitReverse => l.table is Absent && l.parameters is Stage,
        NttKernel::Butterfly => l.table is Twiddles && (l.parameters matches NttParameters::Stage(u)
            && u.direction == 0),
        NttKernel::InverseButterfly => l.table is InverseTwiddles && (
        l.parameters matches NttParameters::Stage(u) && u.direction == 1),
        NttKernel::Scale => l.table is SizeInverses && l.parameters is Count,
        NttKernel::BatchBitReverse => l.table is Absent && (
        l.parameters matches NttParameters::BatchStage(u, _) && u.direction == 0),
        NttKernel::BatchButterfly => l.table is Twiddles && (
        l.parameters matches NttParameters::BatchStage(u, _) && u.direction == 0),
    }
}

/// Whether a launch is one row of groups of `width` threads, as many as `count` threads take.
pub open spec fn is_laid_out(l: NttLaunch, count: int, width: int) -> bool {
    &&& l.threads_per_group.width == width
    &&& l.threads_per_group.height == 1
    &&& l.threads_per_group.depth == 1
    &&& l.thread_groups.height == 1
    &&& l.thread_groups.depth == 1
    &&& l.thread_groups.width * width >= count
    &&& l.thread_groups.width > 0 ==> (l.thread_groups.width - 1) * width < count
}

/// The parameters that the kernels read from the words of a stage.
pub open spec fn read_stage(words: Seq<u32>) -> NTTUniforms {
    NTTUniforms {
        n: words[0],
        log_n: words[1],
        stage: words[2],
        direction: words[3],
        twiddle_stride: words[4],
    }
}

/// Groups of threads that cover a count fit it.
proof fn lemma_laid_out(l: NttLaunch, count: nat, width: nat)
    requires
        0 < width,
        count + width <= usize::MAX,
        l.thread_groups == crate::launch::MTLSize::spec_line(
            crate::launch::groups_for(count as int, width as int),
        ),
        l.threads_per_group == crate::launch::MTLSize::spec_line(width as int),
    ensures
        is_laid_out(l, count as int, width as int),
{
    crate::launch::theorem_groups_cover(count, width);
    let g = crate::launch::groups_for(count as int, width as int);
    assert(g <= count) by (nonlinear_arith)
        requires
            g > 0 ==> (g - 1) * width < count,
            width >= 1,
            count >= 0,
    ;
}

/// The launches of a transform: a bit reversal, one butterfly stage after another with the kernel and the
/// table of the transform's direction, and a scaling by the inverse of the size where it is inverse. The
/// parameters tell the size, the stage and the direction.
pub proof fn theorem_launches(
    ntt: &MetalNTT,
    log_n: nat,
    inverse: bool,
    widths: NttWidths,
    i: int,
)
    requires
        ntt.wf(),
        log_n <= ntt.limit(),
        widths.fits(pow2(log_n) as int),
        0 <= i,
        i < log_n + 1 + if inverse {
            1int
        } else {
            0
        },
    ensures
        ({
            let n = pow2(log_n);
            let launches = ntt::schedule(n, log_n, ntt.stride(n), inverse, widths);
            let l = launches[i];
            let flag = if inverse {
                1u32
            } else {
                0
            };
            &&& launches.len() == log_n + 1 + if inverse {
                1int
            } else {
                0
            }
            &&& is_suited(l)
            &&& i == 0 ==> {
                &&& l.kernel is BitReverse
                &&& l.parameters matches NttParameters::Stage(u) && {
                    &&& u.n == n
                    &&& u.log_n == log_n
                    &&& u.direction == flag
                }
                &&& is_laid_out(l, n as int, widths.bit_reverse as int)
            }
            &&& 0 < i <= log_n ==> {
                &&& inverse ==> l.kernel is InverseButterfly
                &&& !inverse ==> l.kernel is Butterfly
                &&& l.parameters matches NttParameters::Stage(u) && {
                    &&& u.n == n
                    &&& u.log_n == log_n
                    &&& u.stage == i - 1
                    &&& u.direction == flag
                    &&& u.twiddle_stride * n == pow2(ntt.limit())
                }
                &&& is_laid_out(l, n as int / 2, widths.butterfly as int)
            }
            &&& i > log_n ==> {
                &&& l.kernel is Scale
                &&& l.table == (NttTable::SizeInverses { offset: (8 * log_n) as usize })
                &&& l.parameters matches NttParameters::Count(count) && count == n
                &&& is_laid_out(l, n as int, widths.scale as int)
            }
        }),
{
    let n = pow2(log_n);
    let launches = ntt::schedule(n, log_n, ntt.stride(n), inverse, widths);
    let l = launches[i];
    lemma_sizes(ntt, log_n);
    if i == 0 {
        lemma_laid_out(l, n, widths.bit_reverse as nat);
    } else if i <= log_n {
        lemma_laid_out(l, n / 2, widths.butterfly as nat);
    } else {
        lemma_laid_out(l, n, widths.scale as nat);
    }
}

/// The sizes of a transform fit in words.
proof fn lemma_sizes(ntt: &MetalNTT, log_n: nat)
    requires
        ntt.wf(),
        log_n <= ntt.limit(),
    ensures
        0 < pow2(log_n) <= 0x1000000,
        0 < ntt.stride(pow2(log_n)) <= 0x1000000,
        ntt.stride(pow2(log_n)) * pow2(log_n) == pow2(ntt.limit()),
        log_n <= 24,
{
    let rest = (ntt.limit() - log_n) as nat;
    lemma2_to64();
    bits::lemma_pow2_monotonic(log_n, 24);
    bits::lemma_pow2_monotonic(rest, 24);
    lemma_pow2_pos(log_n);
    lemma_pow2_pos(rest);
    lemma_pow2_adds(rest, log_n);
    vstd::arithmetic::mul::lemma_mul_is_commutative(pow2(rest) as int, pow2(log_n) as int);
    vstd::arithmetic::div_mod::lemma_div_multiples_vanish(pow2(rest) as int, pow2(log_n) as int);
}

/// The launches of the transforms of many polynomials: a bit reversal, and one butterfly stage after
/// another, with threads for all of them.
pub proof fn theorem_batch_launches(
    ntt: &MetalNTT,
    log_n: nat,
    rows: nat,
    widths: NttWidths,
    i: int,
)
    requires
        ntt.wf(),
        log_n <= ntt.limit(),
        rows <= u32::MAX,
        widths.fits((rows * pow2(log_n)) as int),
        0 <= i <= log_n,
    ensures
        ({
            let n = pow2(log_n);
            let launches = ntt::batch_schedule(n, log_n, ntt.stride(n), rows, widths);
            let l = launches[i];
            &&& launches.len() == log_n + 1
            &&& is_suited(l)
            &&& l.parameters matches NttParameters::BatchStage(u, count) && {
                &&& u.n == n
                &&& u.log_n == log_n
                &&& u.direction == 0
                &&& count == rows
                &&& i > 0 ==> u.stage == i - 1
                &&& i > 0 ==> u.twiddle_stride * n == pow2(ntt.limit())
            }
            &&& i == 0 ==> {
                &&& l.kernel is BatchBitReverse
                &&& is_laid_out(l, (rows * n) as int, widths.bit_reverse as int)
            }
            &&& i > 0 ==> {
                &&& l.kernel is BatchButterfly
                &&& is_laid_out(l, rows * (n as int / 2), widths.butterfly as int)
            }
        }),
{
    let n = pow2(log_n);
    let launches = ntt::batch_schedule(n, log_n, ntt.stride(n), rows, widths);
    let l = launches[i];
    lemma_sizes(ntt, log_n);
    assert(0 <= rows * (n / 2) <= rows * n) by (nonlinear_arith)
        requires
            rows >= 0,
            n >= 0,
    ;
    if i == 0 {
        lemma_laid_out(l, rows * n, widths.bit_reverse as nat);
    } else {
        lemma_laid_out(l, rows * (n / 2), widths.butterfly as nat);
    }
}

/// The buffer of a transform holds its data, eight bytes for each word.
pub proof fn theorem_buffer_holds_data(
    ntt: &MetalNTT,
    d: NttDispatch,
    inverse: bool,
    widths: NttWidths,
)
    requires
        ntt.runs(d, inverse, widths),
    ensures
        d.buffer_size == 8 * d.data@.len(),
{
}

} // verus!
