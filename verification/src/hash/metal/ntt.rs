//! Number-theoretic transforms over the Goldilocks field.
//!
//! [`MetalNTT`] holds the tables of twiddle factors and turns a transform into the sequence of
//! kernel launches that performs it.

use crate::bits;
use crate::flat;
use crate::hash::metal::ntt_launches;
use crate::launch::{group_count, MTLSize};
use crate::math::goldilocks;
use crate::math::primes;
use crate::math::transform;
use vstd::arithmetic::div_mod::*;
use vstd::arithmetic::mul::*;
use vstd::arithmetic::power::*;
use vstd::arithmetic::power2::*;
use vstd::prelude::*;

verus! {

pub use crate::math::goldilocks::GOLDILOCKS_PRIME;

/// Logarithm of the largest transform size.
pub const MAX_LOG_N: usize = 24;

/// The shift of the coset that low-degree extensions are evaluated on.
pub const GOLDILOCKS_COSET_SHIFT: u64 = 7;

/// The product of `a` and `b` modulo `m`.
pub fn mul_mod(a: u64, b: u64, m: u64) -> (r: u64)
    requires
        m > 0,
    ensures
        r as int == (a as int * b as int) % m as int,
{
    proof {
        assert(0 <= a as int * b as int <= 0xffff_ffff_ffff_ffff * 0xffff_ffff_ffff_ffff)
            by (nonlinear_arith)
            requires
                0 <= a <= 0xffff_ffff_ffff_ffff,
                0 <= b <= 0xffff_ffff_ffff_ffff,
        ;
    }
    let product: u128 = (a as u128) * (b as u128);
    (product % (m as u128)) as u64
}

/// `base^exp` modulo `modulus`, by repeated squaring.
pub fn pow_mod(base: u64, exp: u64, modulus: u64) -> (r: u64)
    requires
        modulus > 0,
    ensures
        r as int == pow(base as int, exp as nat) % modulus as int,
{
    let mut result: u64 = 1 % modulus;
    let mut square: u64 = base % modulus;
    let mut rest: u64 = exp;
    let ghost m = modulus as int;
    let ghost target = pow(base as int, exp as nat);
    proof {
        lemma_mod_twice(base as int, m);
        primes::lemma_congruent_pow(base as int % m, base as int, exp as nat, m);
        lemma_mul_basics(pow(square as int, exp as nat));
        lemma_mod_twice(1, m);
        primes::lemma_congruent_mul(
            1int % m,
            1,
            pow(square as int, exp as nat),
            pow(base as int, exp as nat),
            m,
        );
    }
    while rest > 0
        invariant
            modulus > 0,
            m == modulus as int,
            target == pow(base as int, exp as nat),
            primes::congruent(result as int * pow(square as int, rest as nat), target, m),
            result < modulus,
        decreases rest,
    {
        let ghost s = square as int;
        let ghost half = (rest / 2) as nat;
        let ghost before = result as int;
        proof {
            lemma_pow_multiplies(s, 2, half);
            lemma_pow_adds(s, 1, 1);
            lemma_pow1(s);
            lemma_mod_twice(s * s, m);
            primes::lemma_congruent_pow((s * s) % m, s * s, half, m);
            lemma_pow_adds(s, 2 * half, 1);
        }
        if rest % 2 == 1 {
            result = mul_mod(result, square, modulus);
            proof {
                assert(rest as nat == 2 * half + 1);
                lemma_mod_twice(before * s, m);
                primes::lemma_congruent_mul(
                    result as int,
                    before * s,
                    pow((s * s) % m, half),
                    pow(s * s, half),
                    m,
                );
                let q = pow(s, 2 * half);
                assert((before * s) * q == before * (q * s)) by (nonlinear_arith);
            }
        } else {
            proof {
                assert(rest as nat == 2 * half);
                primes::lemma_congruent_mul(
                    before,
                    before,
                    pow((s * s) % m, half),
                    pow(s * s, half),
                    m,
                );
            }
        }
        rest = rest / 2;
        square = mul_mod(square, square, modulus);
    }
    proof {
        lemma_pow0(square as int);
        assert(result as int * 1 == result);
        lemma_small_mod(result as nat, m as nat);
    }
    result
}

/// The inverse of `a` modulo the prime `p`, as `a^(p-2)`.
pub fn mod_inverse(a: u64, p: u64) -> (r: u64)
    requires
        p >= 2,
    ensures
        r as int == pow(a as int, (p - 2) as nat) % p as int,
        primes::is_prime(p as int) && !primes::divides(p as int, a as int) ==> (a as int * r as int)
            % p as int == 1,
{
    let r: u64 = pow_mod(a, p - 2, p);
    proof {
        if primes::is_prime(p as int) && !primes::divides(p as int, a as int) {
            lemma_inverse(a as int, p as int);
        }
    }
    r
}

/// Fermat's inverse is an inverse.
pub proof fn lemma_inverse(a: int, p: int)
    requires
        primes::is_prime(p),
        !primes::divides(p, a),
    ensures
        (a * (pow(a, (p - 2) as nat) % p)) % p == 1,
{
    primes::theorem_fermat(a, p);
    lemma_pow1(a);
    lemma_pow_adds(a, 1, (p - 2) as nat);
    lemma_mul_mod_noop_right(a, pow(a, (p - 2) as nat), p);
}

/// The primitive root of unity whose order is the largest power of two that divides `n`.
pub fn compute_primitive_root(n: usize) -> (root: u64)
    requires
        n > 0,
        bits::two_adic_valuation(n as nat) <= goldilocks::TWO_ADICITY,
    ensures
        root as int == goldilocks::root_of_unity(bits::two_adic_valuation(n as nat)),
{
    let log_n: usize = bits::trailing_zeros(n);
    let mut root: u64 = goldilocks::POWER_OF_TWO_GENERATOR;
    let ghost g = goldilocks::POWER_OF_TWO_GENERATOR as int;
    let mut squarings: usize = 0;
    proof {
        lemma2_to64();
        lemma_pow1(g);
        lemma_small_mod(g as nat, goldilocks::modulus() as nat);
    }
    while squarings < 32 - log_n
        invariant
            log_n <= 32,
            squarings <= 32 - log_n,
            g == goldilocks::POWER_OF_TWO_GENERATOR as int,
            root as int == pow(g, pow2(squarings as nat)) % goldilocks::modulus(),
        decreases 32 - log_n - squarings,
    {
        proof {
            goldilocks::lemma_square_step(
                g,
                squarings as nat,
                root as int,
                (root as int * root as int) % goldilocks::modulus(),
                goldilocks::modulus(),
            );
        }
        root = mul_mod(root, root, goldilocks::GOLDILOCKS_PRIME);
        squarings = squarings + 1;
    }
    root
}

/// The powers `x^0, x^1, ...` modulo the field's prime.
pub open spec fn powers(x: int, n: nat) -> Seq<u64> {
    Seq::new(n, |i: int| (pow(x, i as nat) % goldilocks::modulus()) as u64)
}

/// The inverse in the field.
pub open spec fn field_inverse(x: int) -> int {
    pow(x, (goldilocks::modulus() - 2) as nat) % goldilocks::modulus()
}

/// The inverses of `1, 2, 4, ...` in the field.
pub open spec fn size_inverses(n: nat) -> Seq<u64> {
    Seq::new(n, |k: int| field_inverse(pow2(k as nat) as int) as u64)
}

/// The powers `x^0, ..., x^(n-1)` modulo the field's prime.
fn power_table(x: u64, n: usize) -> (table: Vec<u64>)
    ensures
        table@ == powers(x as int, n as nat),
{
    let mut table: Vec<u64> = Vec::with_capacity(n);
    let mut power: u64 = 1;
    let mut i: usize = 0;
    proof {
        lemma_pow0(x as int);
    }
    while i < n
        invariant
            i <= n,
            table@ == powers(x as int, i as nat),
            power as int == pow(x as int, i as nat) % goldilocks::modulus(),
        decreases n - i,
    {
        table.push(power);
        proof {
            lemma_pow_adds(x as int, i as nat, 1);
            lemma_pow1(x as int);
            lemma_mul_mod_noop_left(pow(x as int, i as nat), x as int, goldilocks::modulus());
            assert(table@ =~= powers(x as int, (i + 1) as nat));
        }
        power = mul_mod(power, x, goldilocks::GOLDILOCKS_PRIME);
        i = i + 1;
    }
    table
}

/// A positive number below the prime is invertible.
proof fn lemma_invertible(x: int)
    requires
        0 < x < goldilocks::modulus(),
    ensures
        !primes::divides(goldilocks::modulus(), x),
        (x * field_inverse(x)) % goldilocks::modulus() == 1,
        0 < field_inverse(x) < goldilocks::modulus(),
{
    let p = goldilocks::modulus();
    goldilocks::theorem_goldilocks_is_prime();
    lemma_small_mod(x as nat, p as nat);
    lemma_inverse(x, p);
    lemma_mod_division_less_than_divisor(pow(x, (p - 2) as nat), p);
    if field_inverse(x) == 0 {
        assert(x * 0 == 0);
    }
}

/// A root of unity is not zero.
proof fn lemma_root_positive(k: nat)
    requires
        k <= 32,
    ensures
        0 < goldilocks::root_of_unity(k) < goldilocks::modulus(),
{
    let w = goldilocks::root_of_unity(k);
    let p = goldilocks::modulus();
    lemma_mod_division_less_than_divisor(
        pow(goldilocks::POWER_OF_TWO_GENERATOR as int, pow2((32 - k) as nat)),
        p,
    );
    goldilocks::theorem_root_order(k);
    if w == 0 {
        lemma_pow2_pos(k);
        lemma0_pow(pow2(k));
    }
}

/// A root of unity times its inverse is one.
pub proof fn lemma_root_inverse(k: nat)
    requires
        k <= 32,
    ensures
        (goldilocks::root_of_unity(k) * field_inverse(goldilocks::root_of_unity(k)))
            % goldilocks::modulus() == 1,
{
    lemma_root_positive(k);
    lemma_invertible(goldilocks::root_of_unity(k));
}

/// The twiddle tables for transforms of up to `2^max_log_n` points: the powers of the primitive
/// root, the powers of its inverse, and the inverses of the transform sizes.
pub fn precompute_twiddles(max_log_n: usize) -> (r: (Vec<u64>, Vec<u64>, Vec<u64>))
    requires
        max_log_n <= goldilocks::TWO_ADICITY,
        max_log_n < usize::BITS,
    ensures
        ({
            let omega = goldilocks::root_of_unity(max_log_n as nat);
            let n = pow2(max_log_n as nat);
            &&& r.0@ == powers(omega, n)
            &&& r.1@ == powers(field_inverse(omega), n)
            &&& r.2@ == size_inverses((max_log_n + 1) as nat)
        }),
{
    let max_n: usize = bits::shl_one(max_log_n);
    proof {
        bits::lemma_two_adic_valuation_pow2(max_log_n as nat);
        lemma_root_positive(max_log_n as nat);
    }
    let omega: u64 = compute_primitive_root(max_n);
    let omega_inv: u64 = mod_inverse(omega, goldilocks::GOLDILOCKS_PRIME);
    let twiddles: Vec<u64> = power_table(omega, max_n);
    let inv_twiddles: Vec<u64> = power_table(omega_inv, max_n);
    let mut n_inverses: Vec<u64> = Vec::with_capacity(max_log_n + 1);
    let mut n: u64 = 1;
    let mut log_n: usize = 0;
    proof {
        lemma2_to64();
        lemma2_to64_rest();
    }
    while log_n <= max_log_n
        invariant
            max_log_n <= 32,
            log_n <= max_log_n + 1,
            n == pow2(log_n as nat),
            n_inverses@ == size_inverses(log_n as nat),
        decreases max_log_n + 1 - log_n,
    {
        n_inverses.push(mod_inverse(n, goldilocks::GOLDILOCKS_PRIME));
        proof {
            assert(n_inverses@ =~= size_inverses((log_n + 1) as nat));
            lemma_pow2_unfold((log_n + 1) as nat);
            lemma2_to64();
            lemma2_to64_rest();
            bits::lemma_pow2_monotonic(log_n as nat, 32);
        }
        n = n * 2;
        log_n = log_n + 1;
    }
    (twiddles, inv_twiddles, n_inverses)
}

/// Parameters of a bit reversal or a butterfly stage.
#[derive(Clone, Copy, Debug, PartialEq, Eq, Structural)]
pub struct NTTUniforms {
    pub n: u32,
    pub log_n: u32,
    pub stage: u32,
    pub direction: u32,
    pub twiddle_stride: u32,
}

impl NTTUniforms {
    /// The parameters as the kernels read them, one 32-bit word after another.
    pub fn words(&self) -> (r: Vec<u32>)
        ensures
            r@ == seq![self.n, self.log_n, self.stage, self.direction, self.twiddle_stride],
            ntt_launches::read_stage(r@) == *self,
    {
        let words: Vec<u32> = vec![
            self.n,
            self.log_n,
            self.stage,
            self.direction,
            self.twiddle_stride,
        ];
        proof {
            assert(words@ =~= seq![
                self.n,
                self.log_n,
                self.stage,
                self.direction,
                self.twiddle_stride,
            ]);
        }
        words
    }
}

/// The kernels of the transform library.
#[derive(Clone, Copy, Debug, PartialEq, Eq, Structural)]
pub enum NttKernel {
    BitReverse,
    Butterfly,
    InverseButterfly,
    Scale,
    BatchBitReverse,
    BatchButterfly,
}

impl NttKernel {
    /// The name of the kernel's function in the shader library.
    pub open spec fn spec_function_name(self) -> Seq<char> {
        match self {
            NttKernel::BitReverse => "ntt_bit_reverse"@,
            NttKernel::Butterfly => "ntt_butterfly"@,
            NttKernel::InverseButterfly => "intt_butterfly"@,
            NttKernel::Scale => "ntt_scale"@,
            NttKernel::BatchBitReverse => "ntt_batch_bit_reverse"@,
            NttKernel::BatchButterfly => "ntt_batch_butterfly"@,
        }
    }

    /// The name of the kernel's function in the shader library.
    pub fn function_name(&self) -> (r: &'static str)
        ensures
            r@ == self.spec_function_name(),
    {
        match self {
            NttKernel::BitReverse => "ntt_bit_reverse",
            NttKernel::Butterfly => "ntt_butterfly",
            NttKernel::InverseButterfly => "intt_butterfly",
            NttKernel::Scale => "ntt_scale",
            NttKernel::BatchBitReverse => "ntt_batch_bit_reverse",
            NttKernel::BatchButterfly => "ntt_batch_butterfly",
        }
    }
}

/// The table that a launch binds after the data, if any.
#[derive(Clone, Copy, Debug, PartialEq, Eq, Structural)]
pub enum NttTable {
    /// No table.
    Absent,
    /// The powers of the primitive root.
    Twiddles,
    /// The powers of its inverse.
    InverseTwiddles,
    /// The inverses of the transform sizes, from a byte offset on.
    SizeInverses { offset: usize },
}

/// The bytes that a launch binds after its buffers.
#[derive(Clone, Copy, Debug, PartialEq, Eq, Structural)]
pub enum NttParameters {
    /// The parameters of a stage.
    Stage(NTTUniforms),
    /// The parameters of a stage, and the number of polynomials.
    BatchStage(NTTUniforms, u32),
    /// The number of elements.
    Count(u32),
}

/// One kernel launch on the data buffer, which is bound at index zero.
#[derive(Clone, Copy, Debug, PartialEq, Eq, Structural)]
pub struct NttLaunch {
    pub kernel: NttKernel,
    pub table: NttTable,
    pub parameters: NttParameters,
    pub thread_groups: MTLSize,
    pub threads_per_group: MTLSize,
}

/// The thread execution widths of the kernels' pipelines.
#[derive(Clone, Copy, Debug, PartialEq, Eq, Structural)]
pub struct NttWidths {
    pub bit_reverse: usize,
    pub butterfly: usize,
    pub scale: usize,
}

impl NttWidths {
    /// Whether launches over `count` threads can be laid out with these widths.
    pub open spec fn fits(self, count: int) -> bool {
        &&& 0 < self.bit_reverse <= usize::MAX - count
        &&& 0 < self.butterfly <= usize::MAX - count
        &&& 0 < self.scale <= usize::MAX - count
    }
}

/// A transform, ready to run: the words to upload and the launches to perform on them.
#[derive(Debug)]
pub struct NttDispatch {
    pub data: Vec<u64>,
    pub buffer_size: usize,
    pub launches: Vec<NttLaunch>,
}

/// Tables and size limit of the transform runtime.
#[derive(Debug)]
pub struct MetalNTT {
    twiddle_factors: Vec<u64>,
    inv_twiddle_factors: Vec<u64>,
    n_inverses: Vec<u64>,
    max_log_n: usize,
}

/// The launch of `kernel` over `count` threads.
pub open spec fn launch_of(
    kernel: NttKernel,
    table: NttTable,
    parameters: NttParameters,
    count: int,
    width: int,
) -> NttLaunch {
    NttLaunch {
        kernel,
        table,
        parameters,
        thread_groups: MTLSize::spec_line(crate::launch::groups_for(count, width)),
        threads_per_group: MTLSize::spec_line(width),
    }
}

/// The direction flag of a transform.
pub open spec fn direction_flag(inverse: bool) -> u32 {
    if inverse {
        1
    } else {
        0
    }
}

/// The launch of butterfly stage `stage`, with twiddle factors `stride` apart.
pub open spec fn stage_launch(
    n: nat,
    log_n: nat,
    stride: nat,
    inverse: bool,
    width: nat,
    stage: int,
) -> NttLaunch {
    launch_of(
        if inverse {
            NttKernel::InverseButterfly
        } else {
            NttKernel::Butterfly
        },
        if inverse {
            NttTable::InverseTwiddles
        } else {
            NttTable::Twiddles
        },
        NttParameters::Stage(
            NTTUniforms {
                n: n as u32,
                log_n: log_n as u32,
                stage: stage as u32,
                direction: direction_flag(inverse),
                twiddle_stride: stride as u32,
            },
        ),
        (n / 2) as int,
        width as int,
    )
}

/// The launches of a transform of `n = 2^log_n` points: a bit reversal, one butterfly stage for
/// each bit, and, for the inverse transform, a scaling by the inverse of `n`.
pub open spec fn schedule(
    n: nat,
    log_n: nat,
    stride: nat,
    inverse: bool,
    widths: NttWidths,
) -> Seq<NttLaunch> {
    let reversal = launch_of(
        NttKernel::BitReverse,
        NttTable::Absent,
        NttParameters::Stage(
            NTTUniforms {
                n: n as u32,
                log_n: log_n as u32,
                stage: 0,
                direction: direction_flag(inverse),
                twiddle_stride: 0,
            },
        ),
        n as int,
        widths.bit_reverse as int,
    );
    let stages = Seq::new(
        log_n,
        |stage: int| stage_launch(n, log_n, stride, inverse, widths.butterfly as nat, stage),
    );
    let scaling = launch_of(
        NttKernel::Scale,
        NttTable::SizeInverses { offset: (log_n * 8) as usize },
        NttParameters::Count(n as u32),
        n as int,
        widths.scale as int,
    );
    if inverse {
        (seq![reversal] + stages).push(scaling)
    } else {
        seq![reversal] + stages
    }
}

/// The coefficients `c[i] * shift^i`, reduced.
pub open spec fn shifted(c: Seq<u64>, shift: int) -> Seq<u64> {
    Seq::new(
        c.len(),
        |i: int| ((c[i] as int * pow(shift, i as nat)) % goldilocks::modulus()) as u64,
    )
}

/// The coefficients `c[i] * shift^i`, reduced.
pub fn shift_coefficients(coeffs: &Vec<u64>, shift: u64) -> (r: Vec<u64>)
    ensures
        r@ == shifted(coeffs@, shift as int),
{
    let n: usize = coeffs.len();
    let mut r: Vec<u64> = Vec::with_capacity(n);
    let mut shift_pow: u64 = 1;
    let mut i: usize = 0;
    proof {
        lemma_pow0(shift as int);
        lemma_small_mod(1, goldilocks::modulus() as nat);
    }
    while i < n
        invariant
            i <= n == coeffs.len(),
            shift_pow as int == pow(shift as int, i as nat) % goldilocks::modulus(),
            r@ == shifted(coeffs@, shift as int).take(i as int),
        decreases n - i,
    {
        let s: u64 = mul_mod(coeffs[i], shift_pow, goldilocks::GOLDILOCKS_PRIME);
        r.push(s);
        proof {
            let p = pow(shift as int, i as nat);
            lemma_mul_mod_noop_right(coeffs[i as int] as int, p, goldilocks::modulus());
            lemma_pow_adds(shift as int, i as nat, 1);
            lemma_pow1(shift as int);
            lemma_mul_mod_noop_left(p, shift as int, goldilocks::modulus());
            assert(r@ =~= shifted(coeffs@, shift as int).take(i + 1));
        }
        shift_pow = mul_mod(shift_pow, shift, goldilocks::GOLDILOCKS_PRIME);
        i = i + 1;
    }
    proof {
        assert(r@ =~= shifted(coeffs@, shift as int));
    }
    r
}

/// The coefficients, with zeros appended up to length `n`.
pub open spec fn zero_padded(c: Seq<u64>, n: nat) -> Seq<u64> {
    Seq::new(
        n,
        |i: int|
            if i < c.len() {
                c[i]
            } else {
                0
            },
    )
}

/// The coefficients, with zeros appended up to length `n`.
pub fn zero_pad(coeffs: Vec<u64>, n: usize) -> (r: Vec<u64>)
    requires
        coeffs@.len() <= n,
    ensures
        r@ == zero_padded(coeffs@, n as nat),
{
    let mut r: Vec<u64> = coeffs;
    while r.len() < n
        invariant
            coeffs@.len() <= r@.len() <= n,
            r@ == zero_padded(coeffs@, r@.len()),
        decreases n - r.len(),
    {
        r.push(0);
        proof {
            assert(r@ =~= zero_padded(coeffs@, r@.len()));
        }
    }
    proof {
        assert(r@ =~= zero_padded(coeffs@, n as nat));
    }
    r
}

impl MetalNTT {
    /// Logarithm of the largest transform size.
    pub closed spec fn limit(&self) -> nat {
        self.max_log_n as nat
    }

    /// The powers of the primitive root.
    pub closed spec fn twiddles(&self) -> Seq<u64> {
        self.twiddle_factors@
    }

    /// The powers of the inverse of the primitive root.
    pub closed spec fn inverse_twiddles(&self) -> Seq<u64> {
        self.inv_twiddle_factors@
    }

    /// The inverses of the transform sizes.
    pub closed spec fn inverses(&self) -> Seq<u64> {
        self.n_inverses@
    }

    /// The tables belong to the size limit.
    pub open spec fn wf(&self) -> bool {
        let omega = goldilocks::root_of_unity(self.limit());
        let n = pow2(self.limit());
        &&& self.limit() <= MAX_LOG_N
        &&& self.twiddles() == powers(omega, n)
        &&& self.inverse_twiddles() == powers(field_inverse(omega), n)
        &&& self.inverses() == size_inverses(self.limit() + 1)
    }

    /// The distance in the twiddle tables between successive powers for `n` points.
    pub open spec fn stride(&self, n: nat) -> nat {
        pow2(self.limit()) / n
    }

    /// A runtime for transforms of up to `2^max_log_n` points.
    pub fn new(max_log_n: usize) -> (r: MetalNTT)
        requires
            max_log_n <= MAX_LOG_N,
        ensures
            r.wf(),
            r.limit() == max_log_n,
    {
        let (twiddle_factors, inv_twiddle_factors, n_inverses) = precompute_twiddles(max_log_n);
        MetalNTT { twiddle_factors, inv_twiddle_factors, n_inverses, max_log_n }
    }

    /// The runtime for the largest supported size.
    pub fn get() -> (r: MetalNTT)
        ensures
            r.wf(),
            r.limit() == MAX_LOG_N,
            r.limit() == 24,
    {
        MetalNTT::new(MAX_LOG_N)
    }

    /// The words of a table, to upload.
    pub fn twiddle_words(&self) -> (r: &Vec<u64>)
        ensures
            r@ == self.twiddles(),
    {
        &self.twiddle_factors
    }

    /// The words of the table of inverse powers, to upload.
    pub fn inverse_twiddle_words(&self) -> (r: &Vec<u64>)
        ensures
            r@ == self.inverse_twiddles(),
    {
        &self.inv_twiddle_factors
    }

    /// The words of the table of size inverses, to upload.
    pub fn size_inverse_words(&self) -> (r: &Vec<u64>)
        ensures
            r@ == self.inverses(),
    {
        &self.n_inverses
    }

    /// The launches of a transform of `n = 2^log_n` points.
    pub fn ntt_in_place(&self, n: usize, log_n: usize, inverse: bool, widths: &NttWidths) -> (r:
        Vec<NttLaunch>)
        requires
            self.wf(),
            log_n <= self.limit(),
            n == pow2(log_n as nat),
            widths.fits(n as int),
        ensures
            r@ == schedule(n as nat, log_n as nat, self.stride(n as nat), inverse, *widths),
    {
        let direction: u32 = if inverse {
            1
        } else {
            0
        };
        let ghost stride = self.stride(n as nat);
        proof {
            lemma2_to64();
            bits::lemma_pow2_monotonic(log_n as nat, 24);
            bits::lemma_pow2_monotonic(self.limit(), 24);
            lemma_pow2_pos(log_n as nat);
            lemma_div_nonincreasing(pow2(self.limit()) as int, n as int);
        }
        let mut launches: Vec<NttLaunch> = Vec::with_capacity(log_n + 2);
        launches.push(
            NttLaunch {
                kernel: NttKernel::BitReverse,
                table: NttTable::Absent,
                parameters: NttParameters::Stage(
                    NTTUniforms {
                        n: n as u32,
                        log_n: log_n as u32,
                        stage: 0,
                        direction,
                        twiddle_stride: 0,
                    },
                ),
                thread_groups: MTLSize::line(group_count(n, widths.bit_reverse)),
                threads_per_group: MTLSize::line(widths.bit_reverse),
            },
        );
        let ghost reversal = launches@[0];
        let twiddle_stride: usize = bits::shl_one(self.max_log_n) / n;
        let butterflies: usize = n / 2;
        let groups: MTLSize = MTLSize::line(group_count(butterflies, widths.butterfly));
        let mut stage: usize = 0;
        while stage < log_n
            invariant
                stage <= log_n <= 24,
                n == pow2(log_n as nat),
                n <= 0x1000000,
                stride <= 0x1000000,
                twiddle_stride == stride,
                butterflies == n / 2,
                direction == direction_flag(inverse),
                groups == MTLSize::spec_line(
                    crate::launch::groups_for(butterflies as int, widths.butterfly as int),
                ),
                launches@ == seq![reversal] + Seq::new(
                    stage as nat,
                    |s: int|
                        stage_launch(
                            n as nat,
                            log_n as nat,
                            stride,
                            inverse,
                            widths.butterfly as nat,
                            s,
                        ),
                ),
            decreases log_n - stage,
        {
            launches.push(
                NttLaunch {
                    kernel: if inverse {
                        NttKernel::InverseButterfly
                    } else {
                        NttKernel::Butterfly
                    },
                    table: if inverse {
                        NttTable::InverseTwiddles
                    } else {
                        NttTable::Twiddles
                    },
                    parameters: NttParameters::Stage(
                        NTTUniforms {
                            n: n as u32,
                            log_n: log_n as u32,
                            stage: stage as u32,
                            direction,
                            twiddle_stride: twiddle_stride as u32,
                        },
                    ),
                    thread_groups: groups,
                    threads_per_group: MTLSize::line(widths.butterfly),
                },
            );
            stage = stage + 1;
        }
        if inverse {
            launches.push(
                NttLaunch {
                    kernel: NttKernel::Scale,
                    table: NttTable::SizeInverses { offset: log_n * 8 },
                    parameters: NttParameters::Count(n as u32),
                    thread_groups: MTLSize::line(group_count(n, widths.scale)),
                    threads_per_group: MTLSize::line(widths.scale),
                },
            );
        }
        launches
    }

    /// The dispatch of a transform of `data`.
    fn dispatch(&self, data: Vec<u64>, inverse: bool, widths: &NttWidths) -> (r: NttDispatch)
        requires
            self.wf(),
            self.accepts(data@.len()),
            widths.fits(data@.len() as int),
        ensures
            r.data@ == data@,
            self.runs(r, inverse, *widths),
    {
        let n: usize = data.len();
        let log_n: usize = bits::log2_strict(n);
        proof {
            lemma2_to64();
            bits::lemma_pow2_monotonic(log_n as nat, 24);
        }
        let launches: Vec<NttLaunch> = self.ntt_in_place(n, log_n, inverse, widths);
        NttDispatch { data, buffer_size: n * 8, launches }
    }

    /// Whether a transform of `n` points is supported.
    pub open spec fn accepts(&self, n: nat) -> bool {
        &&& bits::power_of_two(n as int)
        &&& bits::log2(n as int) <= self.limit()
    }

    /// Whether `d` transforms its data: its buffer holds them, and its launches are those of a
    /// transform of their number.
    pub open spec fn runs(&self, d: NttDispatch, inverse: bool, widths: NttWidths) -> bool {
        let n = d.data@.len();
        &&& d.buffer_size == n * 8
        &&& d.launches@ == schedule(
            n,
            bits::log2(n as int),
            self.stride(n),
            inverse,
            widths,
        )
    }

    /// The transform of coefficients, in natural order.
    pub fn ntt(&self, coeffs: &Vec<u64>, widths: &NttWidths) -> (r: NttDispatch)
        requires
            self.wf(),
            self.accepts(coeffs@.len()),
            widths.fits(coeffs@.len() as int),
        ensures
            r.data@ == coeffs@,
            self.runs(r, false, *widths),
    {
        let data: Vec<u64> = flat::copy_range(coeffs, 0, coeffs.len());
        proof {
            assert(data@ =~= coeffs@);
        }
        self.dispatch(data, false, widths)
    }

    /// The inverse transform, from values to coefficients.
    pub fn intt(&self, evals: &Vec<u64>, widths: &NttWidths) -> (r: NttDispatch)
        requires
            self.wf(),
            self.accepts(evals@.len()),
            widths.fits(evals@.len() as int),
        ensures
            r.data@ == evals@,
            self.runs(r, true, *widths),
    {
        let data: Vec<u64> = flat::copy_range(evals, 0, evals.len());
        proof {
            assert(data@ =~= evals@);
        }
        self.dispatch(data, true, widths)
    }

    /// The transform onto the coset of `shift`: that of the coefficients `c[i] * shift^i`.
    pub fn coset_ntt(&self, coeffs: &Vec<u64>, shift: u64, widths: &NttWidths) -> (r: NttDispatch)
        requires
            self.wf(),
            self.accepts(coeffs@.len()),
            widths.fits(coeffs@.len() as int),
        ensures
            r.data@ == shifted(coeffs@, shift as int),
            self.runs(r, false, *widths),
    {
        self.dispatch(shift_coefficients(coeffs, shift), false, widths)
    }

    /// The first half of the inverse coset transform: an inverse transform of the values.
    pub fn coset_intt(&self, evals: &Vec<u64>, widths: &NttWidths) -> (r: NttDispatch)
        requires
            self.wf(),
            self.accepts(evals@.len()),
            widths.fits(evals@.len() as int),
        ensures
            r.data@ == evals@,
            self.runs(r, true, *widths),
    {
        self.intt(evals, widths)
    }

    /// The second half of the inverse coset transform: coefficient `i` is scaled by `shift^-i`.
    pub fn coset_intt_finish(coeffs: &Vec<u64>, shift: u64) -> (r: Vec<u64>)
        ensures
            r@ == shifted(coeffs@, field_inverse(shift as int)),
    {
        let shift_inv: u64 = mod_inverse(shift, goldilocks::GOLDILOCKS_PRIME);
        shift_coefficients(coeffs, shift_inv)
    }

    /// The first half of a low-degree extension by `2^rate_bits`: an inverse transform of the
    /// values.
    pub fn lde(&self, values: &Vec<u64>, rate_bits: usize, widths: &NttWidths) -> (r: NttDispatch)
        requires
            self.wf(),
            bits::power_of_two(values@.len() as int),
            bits::log2(values@.len() as int) + rate_bits <= self.limit(),
            widths.fits(values@.len() as int),
        ensures
            r.data@ == values@,
            self.runs(r, true, *widths),
    {
        self.intt(values, widths)
    }

    /// The second half of a low-degree extension: the transform of the zero-padded coefficients.
    pub fn lde_finish(&self, coeffs: Vec<u64>, rate_bits: usize, widths: &NttWidths) -> (r:
        NttDispatch)
        requires
            self.wf(),
            bits::power_of_two(coeffs@.len() as int),
            bits::log2(coeffs@.len() as int) + rate_bits <= self.limit(),
            widths.fits((coeffs@.len() * pow2(rate_bits as nat)) as int),
        ensures
            r.data@ == zero_padded(coeffs@, coeffs@.len() * pow2(rate_bits as nat)),
            self.runs(r, false, *widths),
    {
        let extended: Vec<u64> = self.extend(coeffs, rate_bits);
        self.dispatch(extended, false, widths)
    }

    /// The first half of a low-degree extension onto the coset: an inverse transform of the
    /// values.
    pub fn lde_onto_coset(&self, values: &Vec<u64>, rate_bits: usize, widths: &NttWidths) -> (r:
        NttDispatch)
        requires
            self.wf(),
            bits::power_of_two(values@.len() as int),
            bits::log2(values@.len() as int) + rate_bits <= self.limit(),
            widths.fits(values@.len() as int),
        ensures
            r.data@ == values@,
            self.runs(r, true, *widths),
    {
        self.intt(values, widths)
    }

    /// The second half of a low-degree extension onto the coset: the coset transform of the
    /// zero-padded coefficients.
    pub fn lde_onto_coset_finish(
        &self,
        coeffs: Vec<u64>,
        rate_bits: usize,
        widths: &NttWidths,
    ) -> (r: NttDispatch)
        requires
            self.wf(),
            bits::power_of_two(coeffs@.len() as int),
            bits::log2(coeffs@.len() as int) + rate_bits <= self.limit(),
            widths.fits((coeffs@.len() * pow2(rate_bits as nat)) as int),
        ensures
            r.data@ == shifted(
                zero_padded(coeffs@, coeffs@.len() * pow2(rate_bits as nat)),
                GOLDILOCKS_COSET_SHIFT as int,
            ),
            self.runs(r, false, *widths),
    {
        let extended: Vec<u64> = self.extend(coeffs, rate_bits);
        self.coset_ntt(&extended, GOLDILOCKS_COSET_SHIFT, widths)
    }

    /// The coefficients, zero-padded to `2^rate_bits` times their number.
    fn extend(&self, coeffs: Vec<u64>, rate_bits: usize) -> (r: Vec<u64>)
        requires
            self.wf(),
            bits::power_of_two(coeffs@.len() as int),
            bits::log2(coeffs@.len() as int) + rate_bits <= self.limit(),
        ensures
            r@ == zero_padded(coeffs@, coeffs@.len() * pow2(rate_bits as nat)),
            self.accepts(r@.len()),
    {
        let n: usize = coeffs.len();
        proof {
            let k = bits::log2(n as int);
            lemma_pow2_adds(k, rate_bits as nat);
            bits::lemma_log2(k + rate_bits as nat);
            bits::lemma_pow2_monotonic(k + rate_bits as nat, 24);
            lemma2_to64();
            lemma_pow2_pos(rate_bits as nat);
            assert(n * pow2(rate_bits as nat) >= n) by (nonlinear_arith)
                requires
                    pow2(rate_bits as nat) >= 1,
                    n >= 0,
            ;
        }
        let extended_n: usize = bits::shl(n, rate_bits);
        zero_pad(coeffs, extended_n)
    }
}

/// The launch of batched butterfly stage `stage`.
pub open spec fn batch_stage_launch(
    n: nat,
    log_n: nat,
    stride: nat,
    batch_count: nat,
    width: nat,
    stage: int,
) -> NttLaunch {
    launch_of(
        NttKernel::BatchButterfly,
        NttTable::Twiddles,
        NttParameters::BatchStage(
            NTTUniforms {
                n: n as u32,
                log_n: log_n as u32,
                stage: stage as u32,
                direction: 0,
                twiddle_stride: stride as u32,
            },
            batch_count as u32,
        ),
        (batch_count * (n / 2)) as int,
        width as int,
    )
}

/// The launches of a forward transform of `batch_count` polynomials of `n` coefficients each, one
/// after another in the data buffer.
pub open spec fn batch_schedule(
    n: nat,
    log_n: nat,
    stride: nat,
    batch_count: nat,
    widths: NttWidths,
) -> Seq<NttLaunch> {
    let reversal = launch_of(
        NttKernel::BatchBitReverse,
        NttTable::Absent,
        NttParameters::BatchStage(
            NTTUniforms {
                n: n as u32,
                log_n: log_n as u32,
                stage: 0,
                direction: 0,
                twiddle_stride: 0,
            },
            batch_count as u32,
        ),
        (batch_count * n) as int,
        widths.bit_reverse as int,
    );
    seq![reversal] + Seq::new(
        log_n,
        |stage: int|
            batch_stage_launch(n, log_n, stride, batch_count, widths.butterfly as nat, stage),
    )
}

/// The polynomials' shifted coefficients, one polynomial after another.
pub open spec fn packed(polys: Seq<Vec<u64>>, shift: int, n: nat) -> Seq<u64> {
    Seq::new(
        polys.len() * n,
        |i: int| shifted(polys[i / n as int]@, shift)[i % n as int],
    )
}

impl MetalNTT {
    /// The launches of a forward transform of `batch_count` polynomials of `n = 2^log_n`
    /// coefficients each.
    pub fn batch_ntt_in_place(
        &self,
        n: usize,
        log_n: usize,
        batch_count: usize,
        widths: &NttWidths,
    ) -> (r: Vec<NttLaunch>)
        requires
            self.wf(),
            log_n <= self.limit(),
            n == pow2(log_n as nat),
            widths.fits(batch_count * n),
        ensures
            r@ == batch_schedule(
                n as nat,
                log_n as nat,
                self.stride(n as nat),
                batch_count as nat,
                *widths,
            ),
    {
        let ghost stride = self.stride(n as nat);
        proof {
            lemma2_to64();
            bits::lemma_pow2_monotonic(log_n as nat, 24);
            bits::lemma_pow2_monotonic(self.limit(), 24);
            lemma_pow2_pos(log_n as nat);
            lemma_div_nonincreasing(pow2(self.limit()) as int, n as int);
            assert(0 <= batch_count * (n / 2) <= batch_count * n) by (nonlinear_arith)
                requires
                    n >= 0,
                    batch_count >= 0,
            ;
        }
        let count: u32 = #[verifier::truncate] (batch_count as u32);
        let mut launches: Vec<NttLaunch> = Vec::with_capacity(log_n + 1);
        launches.push(
            NttLaunch {
                kernel: NttKernel::BatchBitReverse,
                table: NttTable::Absent,
                parameters: NttParameters::BatchStage(
                    NTTUniforms {
                        n: n as u32,
                        log_n: log_n as u32,
                        stage: 0,
                        direction: 0,
                        twiddle_stride: 0,
                    },
                    count,
                ),
                thread_groups: MTLSize::line(group_count(batch_count * n, widths.bit_reverse)),
                threads_per_group: MTLSize::line(widths.bit_reverse),
            },
        );
        let ghost reversal = launches@[0];
        let twiddle_stride: usize = bits::shl_one(self.max_log_n) / n;
        let butterflies: usize = batch_count * (n / 2);
        let groups: MTLSize = MTLSize::line(group_count(butterflies, widths.butterfly));
        let mut stage: usize = 0;
        while stage < log_n
            invariant
                stage <= log_n <= 24,
                n == pow2(log_n as nat),
                n <= 0x1000000,
                stride <= 0x1000000,
                twiddle_stride == stride,
                butterflies == batch_count * (n / 2),
                count == batch_count as u32,
                groups == MTLSize::spec_line(
                    crate::launch::groups_for(butterflies as int, widths.butterfly as int),
                ),
                launches@ == seq![reversal] + Seq::new(
                    stage as nat,
                    |s: int|
                        batch_stage_launch(
                            n as nat,
                            log_n as nat,
                            stride,
                            batch_count as nat,
                            widths.butterfly as nat,
                            s,
                        ),
                ),
            decreases log_n - stage,
        {
            launches.push(
                NttLaunch {
                    kernel: NttKernel::BatchButterfly,
                    table: NttTable::Twiddles,
                    parameters: NttParameters::BatchStage(
                        NTTUniforms {
                            n: n as u32,
                            log_n: log_n as u32,
                            stage: stage as u32,
                            direction: 0,
                            twiddle_stride: twiddle_stride as u32,
                        },
                        count,
                    ),
                    thread_groups: groups,
                    threads_per_group: MTLSize::line(widths.butterfly),
                },
            );
            stage = stage + 1;
        }
        launches
    }

    /// The transform of all `polys` onto the coset of `shift` in one dispatch; nothing to run where
    /// there are no polynomials.
    pub fn batch_coset_ntt(&self, polys: &Vec<Vec<u64>>, shift: u64, widths: &NttWidths) -> (r:
        Option<NttDispatch>)
        requires
            self.wf(),
            forall|b: int| 0 <= b < polys@.len() ==> #[trigger] polys@[b]@.len() == polys@[0]@.len(),
            polys@.len() > 0 ==> self.accepts(polys@[0]@.len()),
            polys@.len() > 0 ==> widths.fits((polys@.len() * polys@[0]@.len()) as int),
            polys@.len() > 0 ==> polys@.len() * polys@[0]@.len() * 8 <= usize::MAX,
        ensures
            r is None <==> polys@.len() == 0,
            r matches Some(d) ==> {
                let n = polys@[0]@.len();
                &&& d.data@ == packed(polys@, shift as int, n)
                &&& d.buffer_size == polys@.len() * n * 8
                &&& d.launches@ == batch_schedule(
                    n,
                    bits::log2(n as int),
                    self.stride(n),
                    polys@.len(),
                    *widths,
                )
            },
    {
        let batch_count: usize = polys.len();
        if batch_count == 0 {
            return None;
        }
        let n: usize = polys[0].len();
        let log_n: usize = bits::log2_strict(n);
        proof {
            lemma_pow2_pos(log_n as nat);
        }
        let total: usize = batch_count * n;
        let mut data: Vec<u64> = Vec::with_capacity(total);
        let mut b: usize = 0;
        while b < batch_count
            invariant
                b <= batch_count == polys@.len(),
                n > 0,
                n == polys@[0]@.len(),
                batch_count * n <= usize::MAX,
                forall|k: int| 0 <= k < polys@.len() ==> #[trigger] polys@[k]@.len() == n,
                data@ == packed(polys@, shift as int, n as nat).take(b * n),
            decreases batch_count - b,
        {
            let row: Vec<u64> = shift_coefficients(&polys[b], shift);
            proof {
                assert(b * n + n <= batch_count * n) by (nonlinear_arith)
                    requires
                        b + 1 <= batch_count,
                        n >= 0,
                ;
            }
            let ghost before = data@;
            flat::append_words(&mut data, &row);
            proof {
                assert((b + 1) * n == b * n + n) by (nonlinear_arith);
                let all = packed(polys@, shift as int, n as nat);
                assert forall|i: int| 0 <= i < b * n + n implies #[trigger] data@[i] == all.take(
                    (b + 1) * n,
                )[i] by {
                    if i < b * n {
                        assert(before[i] == all[i]);
                    } else {
                        flat::lemma_flat_index(b as int, i - b * n, n as int);
                        assert(data@[i] == row@[i - b * n]);
                    }
                }
                assert(data@ =~= all.take((b + 1) * n));
            }
            b = b + 1;
        }
        proof {
            assert(data@ =~= packed(polys@, shift as int, n as nat));
        }
        let launches: Vec<NttLaunch> = self.batch_ntt_in_place(n, log_n, batch_count, widths);
        Some(NttDispatch { data, buffer_size: total * 8, launches })
    }

    /// The results of a batched transform, one row for each polynomial.
    pub fn batch_split(results: &Vec<u64>, batch_count: usize, n: usize) -> (r: Vec<Vec<u64>>)
        requires
            results@.len() == batch_count * n,
        ensures
            r@.len() == batch_count,
            forall|b: int|
                0 <= b < batch_count ==> (#[trigger] r@[b])@ == results@.subrange(
                    b * n,
                    b * n + n,
                ),
            forall|b: int, i: int|
                0 <= b < batch_count && 0 <= i < n ==> #[trigger] r@[b]@[i] == results@[b * n + i],
    {
        let total: usize = results.len();
        let mut r: Vec<Vec<u64>> = Vec::with_capacity(batch_count);
        let mut b: usize = 0;
        while b < batch_count
            invariant
                b <= batch_count,
                results@.len() == total == batch_count * n,
                r@.len() == b,
                forall|k: int|
                    0 <= k < b ==> (#[trigger] r@[k])@ == results@.subrange(k * n, k * n + n),
            decreases batch_count - b,
        {
            proof {
                assert(0 <= b * n && b * n + n <= batch_count * n) by (nonlinear_arith)
                    requires
                        0 <= b,
                        b + 1 <= batch_count,
                        n >= 0,
                ;
            }
            let start: usize = b * n;
            r.push(flat::copy_range(results, start, start + n));
            b = b + 1;
        }
        proof {
            assert forall|b: int, i: int| 0 <= b < batch_count && 0 <= i < n implies #[trigger] r@[b]@[i]
                == results@[b * n + i] by {
                assert(r@[b]@ == results@.subrange(b * n, b * n + n));
                assert(0 <= b * n && b * n + n <= batch_count * n) by (nonlinear_arith)
                    requires
                        0 <= b,
                        b + 1 <= batch_count,
                        n >= 0,
                ;
            }
        }
        r
    }
}

/// Splitting packed polynomials gives each one's shifted coefficients back.
pub proof fn theorem_packed_rows(polys: Seq<Vec<u64>>, shift: int, n: nat, b: int)
    requires
        n > 0,
        0 <= b < polys.len(),
        forall|k: int| 0 <= k < polys.len() ==> #[trigger] polys[k]@.len() == n,
    ensures
        0 <= b * n,
        b * n + n <= packed(polys, shift, n).len(),
        packed(polys, shift, n).subrange(b * n, b * n + n) == shifted(polys[b]@, shift),
{
    let all = packed(polys, shift, n);
    let row = shifted(polys[b]@, shift);
    assert(0 <= b * n && b * n + n <= polys.len() * n) by (nonlinear_arith)
        requires
            0 <= b,
            b + 1 <= polys.len(),
            n >= 0,
    ;
    assert(polys[b]@.len() == n);
    assert forall|j: int| 0 <= j < n implies #[trigger] all.subrange(b * n, b * n + n)[j] == row[j]
        by {
        flat::lemma_flat_index(b, j, n as int);
    }
    assert(all.subrange(b * n, b * n + n) =~= row);
}

/// Whether `u` holds what the inverse transform makes of `2^k` values: their evaluations at the
/// powers of the inverse root, scaled by the inverse of their number.
pub open spec fn is_inverse_transform(k: nat, v: Seq<u64>, u: Seq<u64>) -> bool {
    &&& u.len() == v.len()
    &&& forall|i: int|
        0 <= i < v.len() ==> #[trigger] u[i] as int == (transform::evaluate(
            v,
            pow(field_inverse(goldilocks::root_of_unity(k)), i as nat),
        ) * field_inverse(pow2(k) as int)) % goldilocks::modulus()
}

/// For a transform of `2^k` points, the tables hold the powers of the root of order `2^k`, and of
/// its inverse, at the multiples of the stride.
pub proof fn theorem_twiddle_stride(ntt: &MetalNTT, k: nat, i: nat)
    requires
        ntt.wf(),
        k <= ntt.limit(),
        i < pow2(k),
    ensures
        0 <= i * ntt.stride(pow2(k)) < ntt.twiddles().len(),
        ntt.twiddles()[i * ntt.stride(pow2(k)) as int] as int == pow(
            goldilocks::root_of_unity(k),
            i,
        ) % goldilocks::modulus(),
        ntt.inverse_twiddles()[i * ntt.stride(pow2(k)) as int] as int == pow(
            field_inverse(goldilocks::root_of_unity(k)),
            i,
        ) % goldilocks::modulus(),
{
    let p = goldilocks::modulus();
    let m = ntt.limit();
    let n = pow2(k);
    let s = pow2((m - k) as nat);
    lemma_pow2_adds(k, (m - k) as nat);
    lemma_pow2_pos(k);
    lemma_pow2_pos((m - k) as nat);
    lemma_div_multiples_vanish(s as int, n as int);
    assert(ntt.stride(n) == s);
    assert(0 <= i * s < n * s) by (nonlinear_arith)
        requires
            i < n,
            s > 0,
    ;
    let w = goldilocks::root_of_unity(m);
    goldilocks::lemma_root_power(k, m);
    lemma_mul_is_commutative(i as int, s as int);
    lemma_pow_multiplies(w, s, i);
    lemma_pow_mod_noop(pow(w, s), i, p);
    lemma_mod_division_less_than_divisor(pow(w, i * s), p);
    // The inverse of the root of order 2^k is the same power of the inverse of the larger root.
    let e = (p - 2) as nat;
    lemma_pow_mod_noop(pow(w, e), i * s, p);
    lemma_pow_multiplies(w, e, i * s);
    lemma_mul_is_commutative(e as int, (i * s) as int);
    lemma_mul_is_associative(e as int, s as int, i as int);
    lemma_mul_is_commutative(e as int, s as int);
    lemma_pow_multiplies(w, s, e);
    lemma_pow_multiplies(w, s * e, i);
    lemma_pow_mod_noop(pow(w, s), e, p);
    lemma_pow_mod_noop(pow(goldilocks::root_of_unity(k), e), i, p);
    lemma_pow_mod_noop(pow(w, s * e), i, p);
    lemma_mod_division_less_than_divisor(pow(field_inverse(w), i * s), p);
}

/// The scaling table holds at index `k` the inverse of `2^k`.
pub proof fn theorem_size_inverse(ntt: &MetalNTT, k: nat)
    requires
        ntt.wf(),
        k <= ntt.limit(),
    ensures
        (pow2(k) * ntt.inverses()[k as int]) % goldilocks::modulus() == 1,
{
    lemma2_to64();
    bits::lemma_pow2_monotonic(k, 24);
    lemma_pow2_pos(k);
    lemma_invertible(pow2(k) as int);
}

/// The inverse transform recovers the coefficients that were transformed.
pub proof fn theorem_intt_recovers(k: nat, c: Seq<u64>, v: Seq<u64>, u: Seq<u64>)
    requires
        k <= 32,
        c.len() == pow2(k),
        transform::is_transform(c, goldilocks::root_of_unity(k), v),
        is_inverse_transform(k, v, u),
    ensures
        u.len() == c.len(),
        forall|i: int|
            0 <= i < c.len() ==> #[trigger] u[i] as int == c[i] as int % goldilocks::modulus(),
{
    let w = goldilocks::root_of_unity(k);
    lemma_root_positive(k);
    lemma_invertible(w);
    lemma2_to64();
    lemma2_to64_rest();
    lemma_pow2_pos(k);
    bits::lemma_pow2_monotonic(k, 32);
    lemma_invertible(pow2(k) as int);
    assert forall|i: int| 0 <= i < c.len() implies #[trigger] u[i] as int == c[i] as int
        % goldilocks::modulus() by {
        transform::theorem_inverse_transform(
            k,
            c,
            v,
            field_inverse(w),
            field_inverse(pow2(k) as int),
            i,
        );
    }
}

/// Transforming the shifted coefficients evaluates the polynomial on the coset.
pub proof fn theorem_coset_transform(c: Seq<u64>, shift: u64, w: int, v: Seq<u64>)
    requires
        transform::is_transform(shifted(c, shift as int), w, v),
    ensures
        transform::is_coset_transform(c, shift as int, w, v),
{
    let d = shifted(c, shift as int);
    let p = goldilocks::modulus();
    assert forall|j: int| 0 <= j < v.len() implies #[trigger] v[j] as int == transform::evaluate(
        c,
        shift as int * pow(w, j as nat),
    ) % p by {
        assert forall|i: int| 0 <= i < c.len() implies #[trigger] d[i] as int == (c[i] as int * pow(
            shift as int,
            i as nat,
        )) % p by {
            lemma_mod_division_less_than_divisor(c[i] as int * pow(shift as int, i as nat), p);
        }
        transform::theorem_shifted_coefficients(c, d, shift as int, pow(w, j as nat));
    }
}

/// Unshifting undoes shifting.
pub proof fn theorem_unshift(c: Seq<u64>, shift: u64, i: int)
    requires
        shift as int % goldilocks::modulus() != 0,
        0 <= i < c.len(),
    ensures
        shifted(shifted(c, shift as int), field_inverse(shift as int))[i] as int == c[i] as int
            % goldilocks::modulus(),
{
    let p = goldilocks::modulus();
    let s = shift as int;
    let t = field_inverse(s);
    goldilocks::theorem_goldilocks_is_prime();
    lemma_inverse(s, p);
    let x = c[i] as int * pow(s, i as nat);
    lemma_mod_division_less_than_divisor(x, p);
    let y = (x % p) * pow(t, i as nat);
    lemma_mod_division_less_than_divisor(y, p);
    lemma_mul_mod_noop_left(x, pow(t, i as nat), p);
    lemma_mul_is_associative(c[i] as int, pow(s, i as nat), pow(t, i as nat));
    lemma_pow_distributes(s, t, i as nat);
    lemma_pow_mod_noop(s * t, i as nat, p);
    lemma1_pow(i as nat);
    lemma_small_mod(1, p as nat);
    lemma_mul_mod_noop_right(c[i] as int, pow(s * t, i as nat), p);
}

/// The inverse coset transform recovers the coefficients that were transformed onto the coset.
pub proof fn theorem_coset_intt_recovers(
    k: nat,
    c: Seq<u64>,
    shift: u64,
    v: Seq<u64>,
    u: Seq<u64>,
    i: int,
)
    requires
        k <= 32,
        c.len() == pow2(k),
        shift as int % goldilocks::modulus() != 0,
        transform::is_transform(shifted(c, shift as int), goldilocks::root_of_unity(k), v),
        is_inverse_transform(k, v, u),
        0 <= i < c.len(),
    ensures
        shifted(u, field_inverse(shift as int))[i] as int == c[i] as int % goldilocks::modulus(),
{
    let p = goldilocks::modulus();
    let d = shifted(c, shift as int);
    theorem_intt_recovers(k, d, v, u);
    assert(u =~= d) by {
        assert forall|j: int| 0 <= j < d.len() implies #[trigger] u[j] == d[j] by {
            lemma_mod_division_less_than_divisor(c[j] as int * pow(shift as int, j as nat), p);
            lemma_small_mod(d[j] as nat, p as nat);
        }
    }
    theorem_unshift(c, shift, i);
}

/// A low-degree extension keeps the values it extends: interpolating `values` and transforming
/// the padded coefficients gives, at every `2^rate_bits`-th index, the values again.
pub proof fn theorem_lde_restricts(
    k: nat,
    rate_bits: nat,
    coeffs: Seq<u64>,
    values: Seq<u64>,
    extended: Seq<u64>,
    j: int,
)
    requires
        k + rate_bits <= 32,
        coeffs.len() == pow2(k),
        transform::is_transform(coeffs, goldilocks::root_of_unity(k), values),
        transform::is_transform(
            zero_padded(coeffs, coeffs.len() * pow2(rate_bits)),
            goldilocks::root_of_unity(k + rate_bits),
            extended,
        ),
        0 <= j < values.len(),
    ensures
        0 <= j * pow2(rate_bits) < extended.len(),
        extended[j * pow2(rate_bits)] == values[j],
{
    let d = zero_padded(coeffs, coeffs.len() * pow2(rate_bits));
    lemma_pow2_adds(k, rate_bits);
    lemma_pow2_pos(rate_bits);
    assert(coeffs.len() <= d.len()) by (nonlinear_arith)
        requires
            d.len() == coeffs.len() * pow2(rate_bits),
            pow2(rate_bits) >= 1,
    ;
    transform::theorem_extension_restricts(k, rate_bits, coeffs, d, values, extended, j);
}

} // verus!
