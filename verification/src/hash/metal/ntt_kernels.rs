//! What the transform kernels do to the data buffer, and what the launches of a transform compute.
//!
//! The buffer holds rows of `2^log_n` elements, one row for each polynomial. A kernel's threads are
//! numbered from zero; those beyond the number of elements or butterflies have nothing to do. The
//! kernels count both in 32 bits.

use crate::bits;
use crate::flat;
use crate::hash::metal::ntt::{
    self, MetalNTT, NTTUniforms, NttDispatch, NttKernel, NttLaunch, NttParameters, NttTable,
    NttWidths,
};
use crate::math::goldilocks;
use crate::math::primes;
use crate::math::radix2;
use crate::math::transform;
use vstd::arithmetic::div_mod::*;
use vstd::arithmetic::mul::*;
use vstd::arithmetic::power::*;
use vstd::arithmetic::power2::*;
use vstd::prelude::*;

verus! {

/// The smaller of two numbers.
pub open spec fn smaller(a: int, b: int) -> int {
    if a <= b {
        a
    } else {
        b
    }
}

/// What is left of a number in 32 bits, which kernels count in.
pub open spec fn in_32_bits(x: int) -> int {
    x % 0x1_0000_0000
}

/// The threads of a launch.
pub open spec fn thread_count(l: NttLaunch) -> int {
    l.thread_groups.width * l.threads_per_group.width
}

/// Bit reversal within the rows: the thread of the lower of two elements swaps them.
pub open spec fn after_reversal(data: Seq<u64>, log_n: nat, active: int) -> Seq<u64> {
    Seq::new(
        data.len(),
        |i: int|
            {
                let n = pow2(log_n) as int;
                let r = (i / n) * n + bits::reversed((i % n) as nat, log_n);
                if i < active || r < active {
                    data[r]
                } else {
                    data[i]
                }
            },
    )
}

/// What butterfly stage `stage` puts in place `i`: the sum or the difference of the butterfly's lower
/// element and its upper element times a twiddle factor.
pub open spec fn butterfly_value(
    data: Seq<u64>,
    log_n: nat,
    stage: nat,
    table: Seq<u64>,
    stride: int,
    i: int,
) -> int {
    let m = pow2(stage) as int;
    let l = radix2::lower(stage, i);
    let twiddle = table[(pow2((log_n - stage - 1) as nat) * (i % m)) * stride];
    if i % (2 * m) < m {
        (data[l] + twiddle * data[l + m]) % goldilocks::modulus()
    } else {
        (data[l] - twiddle * data[l + m]) % goldilocks::modulus()
    }
}

/// Butterfly stage `stage`: each thread computes both elements of its butterfly.
pub open spec fn after_butterflies(
    data: Seq<u64>,
    log_n: nat,
    stage: nat,
    table: Seq<u64>,
    stride: int,
    active: int,
) -> Seq<u64> {
    Seq::new(
        data.len(),
        |i: int|
            {
                let m = pow2(stage) as int;
                let thread = (i / (2 * m)) * m + i % m;
                if thread < active {
                    butterfly_value(data, log_n, stage, table, stride, i) as u64
                } else {
                    data[i]
                }
            },
    )
}

/// Scaling: each thread multiplies its element by `factor`.
pub open spec fn after_scaling(data: Seq<u64>, factor: int, active: int) -> Seq<u64> {
    Seq::new(
        data.len(),
        |i: int|
            {
                if i < active {
                    ((data[i] * factor) % goldilocks::modulus()) as u64
                } else {
                    data[i]
                }
            },
    )
}

/// The table that a launch binds.
pub open spec fn bound_table(ntt: &MetalNTT, table: NttTable) -> Seq<u64> {
    match table {
        NttTable::Absent => Seq::empty(),
        NttTable::Twiddles => ntt.twiddles(),
        NttTable::InverseTwiddles => ntt.inverse_twiddles(),
        NttTable::SizeInverses { offset } => ntt.inverses().skip(offset as int / 8),
    }
}

/// The parameters of a stage.
pub open spec fn stage_parameters(l: NttLaunch) -> NTTUniforms {
    match l.parameters {
        NttParameters::Stage(u) => u,
        NttParameters::BatchStage(u, _) => u,
        NttParameters::Count(n) => NTTUniforms {
            n,
            log_n: 0,
            stage: 0,
            direction: 0,
            twiddle_stride: 0,
        },
    }
}

/// The rows that a launch works on.
pub open spec fn row_count(l: NttLaunch) -> int {
    match l.parameters {
        NttParameters::BatchStage(_, rows) => rows as int,
        _ => 1,
    }
}

/// What a launch leaves in the data buffer.
pub open spec fn after_launch(ntt: &MetalNTT, l: NttLaunch, data: Seq<u64>) -> Seq<u64> {
    let u = stage_parameters(l);
    let table = bound_table(ntt, l.table);
    let threads = thread_count(l);
    match l.kernel {
        NttKernel::BitReverse | NttKernel::BatchBitReverse => after_reversal(
            data,
            u.log_n as nat,
            smaller(threads, in_32_bits(u.n * row_count(l))),
        ),
        NttKernel::Scale => after_scaling(data, table[0] as int, smaller(threads, u.n as int)),
        _ => after_butterflies(
            data,
            u.log_n as nat,
            u.stage as nat,
            table,
            u.twiddle_stride as int,
            smaller(threads, in_32_bits((u.n as int / 2) * row_count(l))),
        ),
    }
}

/// What launches leave in the data buffer, one after another.
pub open spec fn after_launches(ntt: &MetalNTT, launches: Seq<NttLaunch>, data: Seq<u64>) -> Seq<u64>
    decreases launches.len(),
{
    if launches.len() == 0 {
        data
    } else {
        after_launch(ntt, launches.last(), after_launches(ntt, launches.drop_last(), data))
    }
}

/// Whether all words are field elements in canonical form.
pub open spec fn canonical(data: Seq<u64>) -> bool {
    forall|i: int| 0 <= i < data.len() ==> #[trigger] data[i] < goldilocks::modulus()
}

/// Whether `l` is a launch of a bit reversal that reaches all elements of `rows` rows.
spec fn is_reversal(l: NttLaunch, k: nat, rows: int) -> bool {
    let u = stage_parameters(l);
    &&& l.kernel is BitReverse || l.kernel is BatchBitReverse
    &&& u.n == pow2(k)
    &&& u.log_n == k
    &&& row_count(l) == rows
    &&& thread_count(l) >= rows * pow2(k)
}

/// Whether `l` is a launch of butterfly stage `stage`, for the root `w`, that reaches all butterflies
/// of `rows` rows.
spec fn is_butterfly(ntt: &MetalNTT, l: NttLaunch, k: nat, stage: nat, w: int, rows: int) -> bool {
    let u = stage_parameters(l);
    &&& l.kernel is Butterfly || l.kernel is InverseButterfly || l.kernel is BatchButterfly
    &&& u.n == pow2(k)
    &&& u.log_n == k
    &&& u.stage == stage
    &&& row_count(l) == rows
    &&& thread_count(l) >= rows * (pow2(k) / 2)
    &&& forall|i: int|
        0 <= i < pow2(k) ==> (#[trigger] bound_table(ntt, l.table)[i * u.twiddle_stride]) as int
            == pow(w, i as nat) % goldilocks::modulus()
}

/// A bit reversal prepares the first stage.
proof fn lemma_reversal(ntt: &MetalNTT, l: NttLaunch, k: nat, w: int, rows: int, data: Seq<u64>)
    requires
        is_reversal(l, k, rows),
        data.len() == rows * pow2(k),
        data.len() <= u32::MAX,
        canonical(data),
    ensures
        radix2::is_stage(data, w, k, 0, after_launch(ntt, l, data)),
        canonical(after_launch(ntt, l, data)),
{
    let n = pow2(k) as int;
    let r = after_launch(ntt, l, data);
    lemma_pow2_pos(k);
    lemma_mul_is_commutative(rows, n);
    lemma_small_mod(data.len(), 0x1_0000_0000);
    assert forall|i: int| 0 <= i < data.len() implies #[trigger] r[i] == data[(i / n) * n
        + bits::reversed((i % n) as nat, k)] && r[i] < goldilocks::modulus() by {
        flat::lemma_flat_position(i, rows, n);
        bits::lemma_reversed_bound((i % n) as nat, k);
        let row = i / n;
        assert(0 <= row * n && row * n + n <= rows * n) by (nonlinear_arith)
            requires
                0 <= row,
                row + 1 <= rows,
                n > 0,
        ;
    }
    radix2::lemma_first_stage(data, w, k, r);
}

/// The thread that computes element `i` is launched.
proof fn lemma_butterfly_thread(k: nat, s: nat, rows: int, i: int)
    requires
        s < k,
        0 <= i < rows * pow2(k),
    ensures
        (i / (2 * pow2(s) as int)) * pow2(s) + i % (pow2(s) as int) < rows * (pow2(k) / 2),
        0 <= i % (pow2(s) as int) < pow2(s),
{
    let m = pow2(s) as int;
    let h = pow2((k - s - 1) as nat) as int;
    let n = pow2(k) as int;
    lemma_pow2_pos(s);
    lemma_pow2_unfold(s + 1);
    lemma_pow2_adds(s + 1, (k - s - 1) as nat);
    lemma_pow2_unfold(k);
    lemma_pow2_adds(s, (k - s - 1) as nat);
    assert(n / 2 == pow2((k - 1) as nat));
    let blocks = rows * h;
    assert(rows * n == blocks * (2 * m)) by (nonlinear_arith)
        requires
            n == (2 * m) * h,
            blocks == rows * h,
    ;
    assert(rows * (n / 2) == blocks * m) by (nonlinear_arith)
        requires
            n / 2 == m * h,
            blocks == rows * h,
    ;
    flat::lemma_flat_position(i, blocks, 2 * m);
    lemma_mod_division_less_than_divisor(i, m);
    let b = i / (2 * m);
    assert(b * m + m <= blocks * m && b * m <= b * (2 * m)) by (nonlinear_arith)
        requires
            b + 1 <= blocks,
            0 <= b,
            m > 0,
    ;
    let j = i % (2 * m);
    assert(i == (2 * b) * m + j) by (nonlinear_arith)
        requires
            i == b * (2 * m) + j,
    ;
    lemma_mod_multiples_vanish(2 * b, j, m);
    lemma_mul_is_commutative(m, 2 * b);
    lemma_mod_decreases(j as nat, m as nat);
}

/// A butterfly launch takes one stage to the next.
proof fn lemma_butterfly(
    ntt: &MetalNTT,
    l: NttLaunch,
    c: Seq<u64>,
    k: nat,
    s: nat,
    w: int,
    rows: int,
    data: Seq<u64>,
)
    requires
        s < k,
        is_butterfly(ntt, l, k, s, w, rows),
        pow(w, pow2((k - 1) as nat)) % goldilocks::modulus() == goldilocks::modulus() - 1,
        c.len() == rows * pow2(k),
        c.len() <= u32::MAX,
        radix2::is_stage(c, w, k, s, data),
    ensures
        radix2::is_stage(c, w, k, s + 1, after_launch(ntt, l, data)),
        canonical(after_launch(ntt, l, data)),
{
    let p = goldilocks::modulus();
    let n = pow2(k) as int;
    let m = pow2(s) as int;
    let h = pow2((k - s - 1) as nat) as int;
    let u = stage_parameters(l);
    let table = bound_table(ntt, l.table);
    let next = after_launch(ntt, l, data);
    lemma_pow2_pos(s);
    lemma_pow2_pos(k);
    lemma_mul_is_commutative(rows, n);
    lemma_mul_is_commutative(rows, n / 2);
    lemma_mod_multiples_basic(rows, n);
    assert(0 <= rows) by (nonlinear_arith)
        requires
            rows * n >= 0,
            n > 0,
    ;
    assert(0 <= rows * (n / 2) <= rows * n) by (nonlinear_arith)
        requires
            rows >= 0,
            n > 0,
    ;
    lemma_small_mod((rows * (n / 2)) as nat, 0x1_0000_0000);
    assert forall|i: int| 0 <= i < c.len() implies ({
        let turn = pow(w, (h * (i % m)) as nat);
        let low = radix2::lower(s, i);
        primes::congruent(
            #[trigger] next[i] as int,
            if i % (2 * m) < m {
                data[low] + turn * data[low + m]
            } else {
                data[low] - turn * data[low + m]
            },
            p,
        ) && next[i] < p
    }) by {
        lemma_butterfly_thread(k, s, rows, i);
        let j = i % m;
        lemma_pow2_adds(s, (k - s - 1) as nat);
        lemma_pow2_unfold(k);
        lemma_pow2_pos((k - s - 1) as nat);
        assert(0 <= h * j < n) by (nonlinear_arith)
            requires
                0 <= j < m,
                h > 0,
                m * h < n,
        ;
        let turn = pow(w, (h * j) as nat);
        assert(table[(h * j) * u.twiddle_stride] as int == turn % p);
        let t = turn % p;
        let low = radix2::lower(s, i);
        let a = data[low] as int;
        let b = data[low + m] as int;
        lemma_mod_twice(turn, p);
        primes::lemma_congruent_mul(t, turn, b, b, p);
        primes::lemma_congruent_add(a, a, t * b, turn * b, p);
        primes::lemma_congruent_mul(-1, -1, t * b, turn * b, p);
        primes::lemma_congruent_add(a, a, -1 * (t * b), -1 * (turn * b), p);
        lemma_mod_division_less_than_divisor(a + t * b, p);
        lemma_mod_division_less_than_divisor(a - t * b, p);
        lemma_mod_twice(a + t * b, p);
        lemma_mod_twice(a - t * b, p);
    }
    radix2::lemma_next_stage(c, w, k, s, data, next);
}

/// A bit reversal and the first `s` butterfly stages.
proof fn lemma_stages(
    ntt: &MetalNTT,
    launches: Seq<NttLaunch>,
    c: Seq<u64>,
    k: nat,
    s: nat,
    w: int,
    rows: int,
)
    requires
        s <= k,
        launches.len() == s + 1,
        is_reversal(launches[0], k, rows),
        forall|st: int|
            0 <= st < s ==> is_butterfly(ntt, #[trigger] launches[st + 1], k, st as nat, w, rows),
        k > 0 ==> pow(w, pow2((k - 1) as nat)) % goldilocks::modulus() == goldilocks::modulus()
            - 1,
        c.len() == rows * pow2(k),
        c.len() <= u32::MAX,
        canonical(c),
    ensures
        radix2::is_stage(c, w, k, s, after_launches(ntt, launches, c)),
        canonical(after_launches(ntt, launches, c)),
    decreases s,
{
    let before = launches.drop_last();
    if s == 0 {
        assert(after_launches(ntt, before, c) == c);
        lemma_reversal(ntt, launches[0], k, w, rows, c);
    } else {
        let t = (s - 1) as nat;
        assert forall|st: int| 0 <= st < t implies is_butterfly(
            ntt,
            #[trigger] before[st + 1],
            k,
            st as nat,
            w,
            rows,
        ) by {
            assert(before[st + 1] == launches[st + 1]);
        }
        lemma_stages(ntt, before, c, k, t, w, rows);
        assert(is_butterfly(ntt, launches[t as int + 1], k, t, w, rows));
        lemma_butterfly(ntt, launches.last(), c, k, t, w, rows, after_launches(ntt, before, c));
    }
}

/// A launch over `count` threads has them.
proof fn lemma_launch_threads(
    kernel: NttKernel,
    table: NttTable,
    parameters: NttParameters,
    count: nat,
    width: usize,
)
    requires
        0 < width <= usize::MAX - count,
    ensures
        thread_count(ntt::launch_of(kernel, table, parameters, count as int, width as int))
            >= count,
{
    let g = crate::launch::groups_for(count as int, width as int);
    crate::launch::theorem_groups_cover(count, width as nat);
    lemma_div_nonincreasing(count + width - 1, width as int);
    let groups = g as usize;
    assert(groups == g);
}

/// The tables serve a transform of `2^k` points: their entries at the multiples of the stride are the
/// powers of the root and of its inverse, whose half-way power is minus one.
proof fn lemma_roots(ntt: &MetalNTT, k: nat)
    requires
        ntt.wf(),
        k <= ntt.limit(),
    ensures
        forall|i: int|
            0 <= i < pow2(k) ==> (#[trigger] ntt.twiddles()[i * ntt.stride(pow2(k))]) as int == pow(
                goldilocks::root_of_unity(k),
                i as nat,
            ) % goldilocks::modulus(),
        forall|i: int|
            0 <= i < pow2(k) ==> (#[trigger] ntt.inverse_twiddles()[i * ntt.stride(pow2(k))]) as int
                == pow(ntt::field_inverse(goldilocks::root_of_unity(k)), i as nat)
                % goldilocks::modulus(),
        k > 0 ==> pow(goldilocks::root_of_unity(k), pow2((k - 1) as nat)) % goldilocks::modulus()
            == goldilocks::modulus() - 1,
        k > 0 ==> pow(
            ntt::field_inverse(goldilocks::root_of_unity(k)),
            pow2((k - 1) as nat),
        ) % goldilocks::modulus() == goldilocks::modulus() - 1,
{
    let p = goldilocks::modulus();
    let w = goldilocks::root_of_unity(k);
    let v = ntt::field_inverse(w);
    assert forall|i: int| 0 <= i < pow2(k) implies (#[trigger] ntt.twiddles()[i * ntt.stride(
        pow2(k),
    )]) as int == pow(w, i as nat) % p by {
        ntt::theorem_twiddle_stride(ntt, k, i as nat);
    }
    assert forall|i: int| 0 <= i < pow2(k) implies (#[trigger] ntt.inverse_twiddles()[i
        * ntt.stride(pow2(k))]) as int == pow(v, i as nat) % p by {
        ntt::theorem_twiddle_stride(ntt, k, i as nat);
    }
    if k > 0 {
        let half = pow2((k - 1) as nat);
        goldilocks::lemma_root_half_order(k);
        ntt::lemma_root_inverse(k);
        // The product of the two half-way powers is one, and the first is minus one.
        let a = pow(w, half);
        let b = pow(v, half);
        lemma_pow_distributes(w, v, half);
        lemma_small_mod(1, p as nat);
        primes::lemma_congruent_pow(w * v, 1, half, p);
        lemma1_pow(half);
        assert((a * b) % p == 1);
        lemma_small_mod((p - 1) as nat, p as nat);
        lemma_mod_multiples_vanish(1, -1, p);
        assert(primes::congruent(a, -1, p));
        primes::lemma_congruent_mul(a, -1, b, b, p);
        primes::lemma_congruent_mul(-1, -1, -1 * b, 1, p);
        assert(-1 * (-1 * b) == b);
        assert(primes::congruent(b, -1, p));
    }
}

/// The launches of a transform are a bit reversal and butterfly stages.
proof fn lemma_schedule(ntt: &MetalNTT, k: nat, inverse: bool, widths: NttWidths, c: Seq<u64>)
    requires
        ntt.wf(),
        k <= ntt.limit(),
        widths.fits(pow2(k) as int),
        c.len() == pow2(k),
        canonical(c),
    ensures
        ({
            let all = ntt::schedule(pow2(k), k, ntt.stride(pow2(k)), inverse, widths);
            let w = goldilocks::root_of_unity(k);
            let data = after_launches(ntt, all.take(k as int + 1), c);
            &&& all.len() == if inverse {
                k + 2
            } else {
                k + 1
            }
            &&& radix2::is_stage(
                c,
                if inverse {
                    ntt::field_inverse(w)
                } else {
                    w
                },
                k,
                k,
                data,
            )
            &&& canonical(data)
        }),
{
    let n = pow2(k);
    let stride = ntt.stride(n);
    let all = ntt::schedule(n, k, stride, inverse, widths);
    let launches = all.take(k as int + 1);
    let root = goldilocks::root_of_unity(k);
    let w = if inverse {
        ntt::field_inverse(root)
    } else {
        root
    };
    lemma2_to64();
    bits::lemma_pow2_monotonic(k, 24);
    bits::lemma_pow2_monotonic(ntt.limit(), 24);
    lemma_pow2_pos(k);
    lemma_div_nonincreasing(pow2(ntt.limit()) as int, n as int);
    lemma_div_pos_is_pos(pow2(ntt.limit()) as int, n as int);
    lemma_roots(ntt, k);
    lemma_launch_threads(
        launches[0].kernel,
        launches[0].table,
        launches[0].parameters,
        n,
        widths.bit_reverse,
    );
    assert(is_reversal(launches[0], k, 1));
    assert forall|st: int| 0 <= st < k implies is_butterfly(
        ntt,
        #[trigger] launches[st + 1],
        k,
        st as nat,
        w,
        1,
    ) by {
        let l = launches[st + 1];
        assert(l == ntt::stage_launch(n, k, stride, inverse, widths.butterfly as nat, st));
        lemma_launch_threads(l.kernel, l.table, l.parameters, n / 2, widths.butterfly);
    }
    lemma_stages(ntt, launches, c, k, k, w, 1);
}

/// The launches of a forward transform leave the values of the polynomial at the powers of the root,
/// in natural order.
pub proof fn theorem_forward_transform(ntt: &MetalNTT, d: NttDispatch, widths: NttWidths)
    requires
        ntt.wf(),
        ntt.accepts(d.data@.len()),
        widths.fits(d.data@.len() as int),
        ntt.runs(d, false, widths),
        canonical(d.data@),
    ensures
        transform::is_transform(
            d.data@,
            goldilocks::root_of_unity(bits::log2(d.data@.len() as int)),
            after_launches(ntt, d.launches@, d.data@),
        ),
{
    let c = d.data@;
    let k = bits::log2(c.len() as int);
    let w = goldilocks::root_of_unity(k);
    let p = goldilocks::modulus();
    lemma_schedule(ntt, k, false, widths, c);
    assert(d.launches@.take(k as int + 1) =~= d.launches@);
    let v = after_launches(ntt, d.launches@, c);
    assert forall|j: int| 0 <= j < v.len() implies #[trigger] v[j] as int == transform::evaluate(
        c,
        pow(w, j as nat),
    ) % p by {
        assert(0 * pow2(k) == 0 && (0 + 1) * pow2(k) == pow2(k)) by (nonlinear_arith);
        radix2::lemma_last_stage(c, w, k, v, 0, j);
        assert(c.subrange(0, c.len() as int) =~= c);
        lemma_small_mod(v[j] as nat, p as nat);
    }
}

/// The launches of an inverse transform leave the values at the powers of the inverse root, scaled by
/// the inverse of their number.
pub proof fn theorem_inverse_transform(ntt: &MetalNTT, d: NttDispatch, widths: NttWidths)
    requires
        ntt.wf(),
        ntt.accepts(d.data@.len()),
        widths.fits(d.data@.len() as int),
        ntt.runs(d, true, widths),
        canonical(d.data@),
    ensures
        ntt::is_inverse_transform(
            bits::log2(d.data@.len() as int),
            d.data@,
            after_launches(ntt, d.launches@, d.data@),
        ),
        canonical(after_launches(ntt, d.launches@, d.data@)),
{
    let c = d.data@;
    let k = bits::log2(c.len() as int);
    let n = pow2(k);
    let p = goldilocks::modulus();
    let w = ntt::field_inverse(goldilocks::root_of_unity(k));
    let all = d.launches@;
    lemma_schedule(ntt, k, true, widths, c);
    assert(all.take(k as int + 1) =~= all.drop_last());
    let v = after_launches(ntt, all.drop_last(), c);
    let u = after_launches(ntt, all, c);
    let last = all.last();
    lemma2_to64();
    bits::lemma_pow2_monotonic(k, 24);
    lemma_launch_threads(last.kernel, last.table, last.parameters, n, widths.scale);
    let f = ntt::field_inverse(n as int);
    lemma_mod_division_less_than_divisor(pow(n as int, (p - 2) as nat), p);
    assert((k * 8) as usize as int / 8 == k);
    assert(bound_table(ntt, last.table)[0] == ntt.inverses()[k as int]);
    assert(bound_table(ntt, last.table)[0] as int == f);
    assert forall|i: int| 0 <= i < c.len() implies #[trigger] u[i] as int == (transform::evaluate(
        c,
        pow(w, i as nat),
    ) * f) % p && u[i] < p by {
        assert(0 * pow2(k) == 0 && (0 + 1) * pow2(k) == pow2(k)) by (nonlinear_arith);
        radix2::lemma_last_stage(c, w, k, v, 0, i);
        assert(c.subrange(0, c.len() as int) =~= c);
        primes::lemma_congruent_mul(v[i] as int, transform::evaluate(c, pow(w, i as nat)), f, f, p);
        lemma_mod_division_less_than_divisor(v[i] * f, p);
    }
}

/// Running the inverse transform on what a forward transform left gives the coefficients back.
pub proof fn theorem_roundtrip(
    ntt: &MetalNTT,
    forward: NttDispatch,
    backward: NttDispatch,
    widths: NttWidths,
)
    requires
        ntt.wf(),
        ntt.accepts(forward.data@.len()),
        widths.fits(forward.data@.len() as int),
        ntt.runs(forward, false, widths),
        canonical(forward.data@),
        backward.data@ == after_launches(ntt, forward.launches@, forward.data@),
        ntt.runs(backward, true, widths),
    ensures
        after_launches(ntt, backward.launches@, backward.data@) == forward.data@,
{
    let c = forward.data@;
    let v = backward.data@;
    let p = goldilocks::modulus();
    let k = bits::log2(c.len() as int);
    theorem_forward_transform(ntt, forward, widths);
    assert forall|i: int| 0 <= i < v.len() implies #[trigger] v[i] < p by {
        lemma_mod_division_less_than_divisor(
            transform::evaluate(c, pow(goldilocks::root_of_unity(k), i as nat)),
            p,
        );
    }
    theorem_inverse_transform(ntt, backward, widths);
    let u = after_launches(ntt, backward.launches@, v);
    ntt::theorem_intt_recovers(k, c, v, u);
    assert forall|i: int| 0 <= i < c.len() implies #[trigger] u[i] == c[i] by {
        lemma_small_mod(c[i] as nat, p as nat);
    }
    assert(u =~= c);
}

/// The launches of a batched transform leave, in each row, the transform of that row. The rows together
/// have fewer than `2^32` elements, because the kernels number their threads in 32 bits: no thread
/// would work on an element beyond.
pub proof fn theorem_batch_transform(
    ntt: &MetalNTT,
    k: nat,
    batches: nat,
    widths: NttWidths,
    data: Seq<u64>,
    b: int,
)
    requires
        ntt.wf(),
        k <= ntt.limit(),
        data.len() == batches * pow2(k),
        data.len() <= u32::MAX,
        widths.fits(data.len() as int),
        canonical(data),
        0 <= b < batches,
    ensures
        ({
            let n = pow2(k) as int;
            let launches = ntt::batch_schedule(
                pow2(k),
                k,
                ntt.stride(pow2(k)),
                batches,
                widths,
            );
            let v = after_launches(ntt, launches, data);
            &&& v.len() == data.len()
            &&& 0 <= b * n
            &&& b * n + n <= data.len()
            &&& transform::is_transform(
                data.subrange(b * n, b * n + n),
                goldilocks::root_of_unity(k),
                v.subrange(b * n, b * n + n),
            )
        }),
{
    let n = pow2(k) as int;
    let p = goldilocks::modulus();
    let stride = ntt.stride(pow2(k));
    let launches = ntt::batch_schedule(pow2(k), k, stride, batches, widths);
    let w = goldilocks::root_of_unity(k);
    lemma2_to64();
    bits::lemma_pow2_monotonic(k, 24);
    bits::lemma_pow2_monotonic(ntt.limit(), 24);
    lemma_pow2_pos(k);
    lemma_div_nonincreasing(pow2(ntt.limit()) as int, n);
    lemma_div_pos_is_pos(pow2(ntt.limit()) as int, n);
    assert(batches <= batches * n) by (nonlinear_arith)
        requires
            n >= 1,
            batches >= 0,
    ;
    assert(0 <= batches * (n / 2) <= batches * n) by (nonlinear_arith)
        requires
            n >= 0,
            batches >= 0,
    ;
    lemma_roots(ntt, k);
    lemma_launch_threads(
        launches[0].kernel,
        launches[0].table,
        launches[0].parameters,
        batches * pow2(k),
        widths.bit_reverse,
    );
    assert(is_reversal(launches[0], k, batches as int));
    assert forall|st: int| 0 <= st < k implies is_butterfly(
        ntt,
        #[trigger] launches[st + 1],
        k,
        st as nat,
        w,
        batches as int,
    ) by {
        let l = launches[st + 1];
        assert(l == ntt::batch_stage_launch(
            pow2(k),
            k,
            stride,
            batches,
            widths.butterfly as nat,
            st,
        ));
        lemma_launch_threads(
            l.kernel,
            l.table,
            l.parameters,
            batches * (pow2(k) / 2),
            widths.butterfly,
        );
    }
    lemma_stages(ntt, launches, data, k, k, w, batches as int);
    let v = after_launches(ntt, launches, data);
    assert(0 <= b * n && b * n + n <= batches * n && (b + 1) * n == b * n + n) by (nonlinear_arith)
        requires
            0 <= b,
            b + 1 <= batches,
            n > 0,
    ;
    let c = data.subrange(b * n, b * n + n);
    let r = v.subrange(b * n, b * n + n);
    assert forall|j: int| 0 <= j < r.len() implies #[trigger] r[j] as int == transform::evaluate(
        c,
        pow(w, j as nat),
    ) % p by {
        radix2::lemma_last_stage(data, w, k, v, b, j);
        lemma_small_mod(r[j] as nat, p as nat);
    }
}

/// Packing polynomials, running the batched transform and splitting the result gives each polynomial's
/// values on the coset, for as many elements as the kernels' 32-bit thread numbers reach.
pub proof fn theorem_batch_coset_transform(
    ntt: &MetalNTT,
    polys: Seq<Vec<u64>>,
    shift: u64,
    k: nat,
    widths: NttWidths,
    b: int,
)
    requires
        ntt.wf(),
        k <= ntt.limit(),
        forall|i: int| 0 <= i < polys.len() ==> #[trigger] polys[i]@.len() == pow2(k),
        polys.len() * pow2(k) <= u32::MAX,
        widths.fits((polys.len() * pow2(k)) as int),
        0 <= b < polys.len(),
    ensures
        ({
            let n = pow2(k) as int;
            let launches = ntt::batch_schedule(
                pow2(k),
                k,
                ntt.stride(pow2(k)),
                polys.len(),
                widths,
            );
            let v = after_launches(ntt, launches, ntt::packed(polys, shift as int, pow2(k)));
            transform::is_coset_transform(
                polys[b]@,
                shift as int,
                goldilocks::root_of_unity(k),
                v.subrange(b * n, b * n + n),
            )
        }),
{
    let n = pow2(k) as int;
    let p = goldilocks::modulus();
    let data = ntt::packed(polys, shift as int, pow2(k));
    lemma_pow2_pos(k);
    assert forall|i: int| 0 <= i < data.len() implies #[trigger] data[i] < p by {
        flat::lemma_flat_position(i, polys.len() as int, n);
        let poly = polys[i / n]@;
        assert(poly.len() == n);
        lemma_mod_division_less_than_divisor(
            poly[i % n] as int * pow(shift as int, (i % n) as nat),
            p,
        );
    }
    theorem_batch_transform(ntt, k, polys.len(), widths, data, b);
    ntt::theorem_packed_rows(polys, shift as int, pow2(k), b);
    let launches = ntt::batch_schedule(pow2(k), k, ntt.stride(pow2(k)), polys.len(), widths);
    let v = after_launches(ntt, launches, data);
    ntt::theorem_coset_transform(
        polys[b]@,
        shift,
        goldilocks::root_of_unity(k),
        v.subrange(b * n, b * n + n),
    );
}

} // verus!
