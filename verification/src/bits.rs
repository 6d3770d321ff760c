//! Powers of two, shifts and bit reversal on machine integers.

use vstd::arithmetic::div_mod::*;
use vstd::arithmetic::mul::*;
use vstd::arithmetic::power2::*;
use vstd::bits::*;
use vstd::prelude::*;

verus! {

/// Whether `n` is a power of two.
pub open spec fn power_of_two(n: int) -> bool {
    exists|k: nat| n == #[trigger] pow2(k)
}

/// The exponent of a power of two.
pub open spec fn log2(n: int) -> nat {
    choose|k: nat| n == #[trigger] pow2(k)
}

/// Different exponents give different powers of two.
pub proof fn lemma_pow2_injective(a: nat, b: nat)
    requires
        pow2(a) == pow2(b),
    ensures
        a == b,
{
    if a < b {
        lemma_pow2_strictly_increases(a, b);
    } else if b < a {
        lemma_pow2_strictly_increases(b, a);
    }
}

/// `pow2` does not decrease.
pub proof fn lemma_pow2_monotonic(a: nat, b: nat)
    requires
        a <= b,
    ensures
        pow2(a) <= pow2(b),
{
    if a < b {
        lemma_pow2_strictly_increases(a, b);
    }
}

/// The logarithm of a power of two is its exponent.
pub proof fn lemma_log2(k: nat)
    ensures
        power_of_two(pow2(k) as int),
        log2(pow2(k) as int) == k,
{
    let n = pow2(k) as int;
    lemma_pow2_injective(log2(n), k);
}

/// A power of two that fits `usize` has an exponent below its width.
pub proof fn lemma_exponent_fits(k: nat)
    requires
        pow2(k) <= usize::MAX,
    ensures
        k < usize::BITS,
{
    vstd::layout::unsigned_int_max_values();
    if k >= usize::BITS {
        lemma_pow2_monotonic(usize::BITS as nat, k);
    }
}

/// `2^k`.
pub fn shl_one(k: usize) -> (r: usize)
    requires
        k < usize::BITS,
    ensures
        r == pow2(k as nat),
        r > 0,
{
    proof {
        lemma_usize_pow2_no_overflow(k as nat);
        lemma_usize_shl_is_mul(1, k);
    }
    1usize << k
}

/// `x * 2^k`.
pub fn shl(x: usize, k: usize) -> (r: usize)
    requires
        k < usize::BITS,
        x * pow2(k as nat) <= usize::MAX,
    ensures
        r == x * pow2(k as nat),
{
    proof {
        lemma_usize_shl_is_mul(x, k);
    }
    x << k
}

/// `x / 2^k`, rounded down.
pub fn shr(x: usize, k: usize) -> (r: usize)
    requires
        k < usize::BITS,
    ensures
        r == x as nat / pow2(k as nat),
{
    proof {
        lemma_usize_shr_is_div(x, k);
    }
    x >> k
}

/// How often two divides a positive `n`.
pub open spec fn two_adic_valuation(n: nat) -> nat
    decreases n,
{
    if n == 0 || n % 2 == 1 {
        0
    } else {
        1 + two_adic_valuation(n / 2)
    }
}

/// A positive number is its largest power of two times an odd number.
pub proof fn lemma_two_adic_valuation(n: nat)
    requires
        n > 0,
    ensures
        n == pow2(two_adic_valuation(n)) * (n / pow2(two_adic_valuation(n))),
        (n / pow2(two_adic_valuation(n))) % 2 == 1,
    decreases n,
{
    let t = two_adic_valuation(n);
    lemma_pow2_pos(t);
    if n % 2 == 1 {
        lemma2_to64();
    } else {
        let m = n / 2;
        lemma_two_adic_valuation(m);
        let s = two_adic_valuation(m);
        lemma_pow2_pos(s);
        lemma_pow2_unfold(t);
        let q = m / pow2(s);
        assert(n == q * pow2(t)) by (nonlinear_arith)
            requires
                n == 2 * m,
                m == pow2(s) * q,
                pow2(t) == 2 * pow2(s),
        ;
        lemma_div_by_multiple(q as int, pow2(t) as int);
        lemma_mul_is_commutative(q as int, pow2(t) as int);
    }
}

/// The valuation of a power of two is its exponent.
pub proof fn lemma_two_adic_valuation_pow2(k: nat)
    ensures
        two_adic_valuation(pow2(k)) == k,
    decreases k,
{
    lemma2_to64();
    lemma_pow2_pos(k);
    if k > 0 {
        lemma_pow2_unfold(k);
        lemma_two_adic_valuation_pow2((k - 1) as nat);
    }
}

/// The number of zero bits below the lowest one bit of a positive number.
pub fn trailing_zeros(n: usize) -> (r: usize)
    requires
        n > 0,
    ensures
        r == two_adic_valuation(n as nat),
        r < usize::BITS,
{
    let mut m: usize = n;
    let mut r: usize = 0;
    proof {
        lemma2_to64();
    }
    while m % 2 == 0
        invariant
            m > 0,
            n as nat == m as nat * pow2(r as nat),
            pow2(r as nat) <= n,
            two_adic_valuation(n as nat) == r as nat + two_adic_valuation(m as nat),
            r < usize::BITS,
        decreases m,
    {
        let ghost before = m as nat;
        m = m / 2;
        proof {
            lemma_pow2_unfold((r + 1) as nat);
            let p = pow2(r as nat);
            assert(before == 2 * (m as nat));
            assert(before * p == (m as nat) * (2 * p)) by (nonlinear_arith)
                requires
                    before == 2 * (m as nat),
            ;
            lemma_pow2_pos((r + 1) as nat);
            assert(pow2((r + 1) as nat) <= n) by (nonlinear_arith)
                requires
                    n as nat == (m as nat) * pow2((r + 1) as nat),
                    m >= 1,
            ;
            lemma_exponent_fits((r + 1) as nat);
        }
        r = r + 1;
    }
    r
}

/// Whether `n` is a power of two.
pub fn is_power_of_two(n: usize) -> (r: bool)
    ensures
        r == power_of_two(n as int),
{
    if n == 0 {
        proof {
            assert forall|k: nat| n as int != #[trigger] pow2(k) by {
                lemma_pow2_pos(k);
            }
        }
        return false;
    }
    let t: usize = trailing_zeros(n);
    proof {
        lemma_two_adic_valuation(n as nat);
        if power_of_two(n as int) {
            let k = log2(n as int);
            lemma_two_adic_valuation_pow2(k);
            assert(n == pow2(t as nat));
        }
        lemma_usize_pow2_no_overflow(t as nat);
    }
    shl_one(t) == n
}

/// The exponent of a power of two.
pub fn log2_strict(n: usize) -> (r: usize)
    requires
        power_of_two(n as int),
    ensures
        r == log2(n as int),
        n == pow2(r as nat),
        r < usize::BITS,
{
    proof {
        let k = log2(n as int);
        lemma_pow2_pos(k);
        lemma_two_adic_valuation_pow2(k);
    }
    trailing_zeros(n)
}

/// The smallest power of two that is at least `n`.
pub open spec fn is_next_power_of_two(n: int, r: int) -> bool {
    &&& power_of_two(r)
    &&& n <= r
    &&& forall|k: nat| n <= #[trigger] pow2(k) ==> r <= pow2(k)
}

/// A number up to `2^limit` has a next power of two.
pub proof fn lemma_next_power_of_two_exists(n: int, limit: nat) -> (k: nat)
    requires
        0 <= n <= pow2(limit),
    ensures
        k <= limit,
        is_next_power_of_two(n, pow2(k) as int),
    decreases limit,
{
    if limit > 0 && n <= pow2((limit - 1) as nat) {
        lemma_next_power_of_two_exists(n, (limit - 1) as nat)
    } else {
        assert forall|j: nat| n <= #[trigger] pow2(j) implies pow2(limit) <= pow2(j) by {
            if j < limit {
                lemma_pow2_monotonic(j, (limit - 1) as nat);
            } else {
                lemma_pow2_monotonic(limit, j);
            }
        }
        limit
    }
}

/// The smallest power of two that is at least `n`.
pub fn next_power_of_two(n: usize) -> (r: usize)
    requires
        n <= pow2((usize::BITS - 1) as nat),
    ensures
        is_next_power_of_two(n as int, r as int),
{
    let mut r: usize = 1;
    let ghost mut k: nat = 0;
    proof {
        lemma2_to64();
    }
    while r < n
        invariant
            r == pow2(k),
            k < usize::BITS,
            k == 0 || pow2((k - 1) as nat) < n,
            n <= pow2((usize::BITS - 1) as nat),
        decreases usize::BITS - k,
    {
        proof {
            if k >= usize::BITS - 1 {
                lemma_pow2_monotonic((usize::BITS - 1) as nat, k);
            }
            lemma_pow2_unfold(k + 1);
            lemma_usize_pow2_no_overflow(k + 1);
            k = k + 1;
        }
        r = r * 2;
    }
    proof {
        assert forall|j: nat| n <= #[trigger] pow2(j) implies r <= pow2(j) by {
            if j < k {
                lemma_pow2_monotonic(j, (k - 1) as nat);
            } else {
                lemma_pow2_monotonic(k, j);
            }
        }
    }
    r
}

/// The number whose `bits` low bits are those of `n` in reverse order.
pub open spec fn reversed(n: nat, bits: nat) -> nat
    decreases bits,
{
    if bits == 0 {
        0
    } else {
        (n % 2) * pow2((bits - 1) as nat) + reversed(n / 2, (bits - 1) as nat)
    }
}

/// A reversed number fits the bits that were reversed.
pub proof fn lemma_reversed_bound(n: nat, bits: nat)
    ensures
        reversed(n, bits) < pow2(bits),
    decreases bits,
{
    lemma2_to64();
    if bits > 0 {
        let b = (bits - 1) as nat;
        lemma_reversed_bound(n / 2, b);
        lemma_pow2_unfold(bits);
        assert((n % 2) * pow2(b) <= pow2(b)) by (nonlinear_arith)
            requires
                n % 2 <= 1,
        ;
    }
}

/// Bits above those that are reversed do not matter.
pub proof fn lemma_reversed_low_bits(n: nat, bits: nat)
    ensures
        reversed(n, bits) == reversed(n % pow2(bits), bits),
    decreases bits,
{
    lemma2_to64();
    lemma_pow2_pos(bits);
    if bits > 0 {
        let b = (bits - 1) as nat;
        let m = n % pow2(bits);
        lemma_pow2_unfold(bits);
        lemma_pow2_pos(b);
        lemma_mod_breakdown(n as int, 2, pow2(b) as int);
        assert(m == 2 * ((n / 2) % pow2(b)) + n % 2);
        assert(m % 2 == n % 2);
        assert(m / 2 == (n / 2) % pow2(b));
        lemma_reversed_low_bits(n / 2, b);
    }
}

/// Reversal, split at the high bit.
proof fn lemma_reversed_high_bit(high: nat, low: nat, bits: nat)
    requires
        high <= 1,
        low < pow2(bits),
    ensures
        reversed(high * pow2(bits) + low, bits + 1) == 2 * reversed(low, bits) + high,
    decreases bits,
{
    lemma2_to64();
    let n = high * pow2(bits) + low;
    if bits == 0 {
        assert(high * 1 == high);
        assert(reversed(n / 2, 0) == 0);
        assert(reversed(n, 1) == (n % 2) * pow2(0) + reversed(n / 2, 0));
        assert((n % 2) * 1 == n % 2) by (nonlinear_arith);
    } else {
        let b = (bits - 1) as nat;
        lemma_pow2_unfold(bits);
        lemma_pow2_unfold(bits + 1);
        assert(high * pow2(bits) == 2 * (high * pow2(b))) by (nonlinear_arith)
            requires
                pow2(bits) == 2 * pow2(b),
        ;
        assert(n % 2 == low % 2);
        assert(n / 2 == high * pow2(b) + low / 2);
        lemma_reversed_high_bit(high, low / 2, b);
        assert((low % 2) * pow2(bits) == 2 * ((low % 2) * pow2(b))) by (nonlinear_arith)
            requires
                pow2(bits) == 2 * pow2(b),
        ;
    }
}

/// Reversing twice gives the number back.
pub proof fn theorem_reversed_involution(n: nat, bits: nat)
    requires
        n < pow2(bits),
    ensures
        reversed(reversed(n, bits), bits) == n,
    decreases bits,
{
    lemma2_to64();
    if bits > 0 {
        let b = (bits - 1) as nat;
        lemma_pow2_unfold(bits);
        lemma_reversed_bound(n / 2, b);
        lemma_reversed_high_bit(n % 2, reversed(n / 2, b), b);
        theorem_reversed_involution(n / 2, b);
    }
}

/// Bit `i` of the reversed number is bit `bits - 1 - i` of the number.
pub proof fn theorem_reversed_bit(n: nat, bits: nat, i: nat)
    requires
        i < bits,
    ensures
        (reversed(n, bits) / pow2(i)) % 2 == (n / pow2((bits - 1 - i) as nat)) % 2,
    decreases bits,
{
    lemma2_to64();
    let b = (bits - 1) as nat;
    let rest = reversed(n / 2, b);
    lemma_reversed_bound(n / 2, b);
    lemma_pow2_pos(i);
    lemma_pow2_pos(b);
    if i == b {
        assert((n % 2) * pow2(b) + rest == pow2(b) * (n % 2) + rest) by (nonlinear_arith);
        lemma_fundamental_div_mod_converse(
            reversed(n, bits) as int,
            pow2(b) as int,
            (n % 2) as int,
            rest as int,
        );
        assert(n as int / 1 == n);
    } else {
        let k = (b - i) as nat;
        lemma_pow2_adds(i, k);
        lemma_pow2_unfold(k);
        let half = pow2((k - 1) as nat);
        // The highest bit does not show in bit `i`.
        let high = (n % 2) * half;
        assert((n % 2) * pow2(b) == pow2(i) * (2 * high)) by (nonlinear_arith)
            requires
                pow2(b) == pow2(i) * pow2(k),
                pow2(k) == 2 * half,
                high == (n % 2) * half,
        ;
        lemma_fundamental_div_mod(rest as int, pow2(i) as int);
        let q = rest as int / pow2(i) as int;
        let r = rest as int % pow2(i) as int;
        assert(reversed(n, bits) as int == pow2(i) * (2 * high + q) + r) by (nonlinear_arith)
            requires
                reversed(n, bits) as int == pow2(i) * (2 * high) + rest,
                rest as int == pow2(i) * q + r,
        ;
        lemma_fundamental_div_mod_converse(
            reversed(n, bits) as int,
            pow2(i) as int,
            2 * high + q,
            r,
        );
        assert((2 * high + q) % 2 == q % 2);
        assert(reversed(n, bits) as int / pow2(i) as int == 2 * high + q);
        theorem_reversed_bit(n / 2, b, i);
        assert((b - 1 - i) as nat == (k - 1) as nat);
        lemma_pow2_pos((k - 1) as nat);
        lemma_div_denominator(n as int, 2, half as int);
        assert(n / (2 * half) == (n / 2) / half);
    }
}

/// Numbers with the same bits are the same.
pub proof fn lemma_same_bits(a: nat, b: nat, bits: nat)
    requires
        a < pow2(bits),
        b < pow2(bits),
        forall|i: nat| i < bits ==> (a / #[trigger] pow2(i)) % 2 == (b / pow2(i)) % 2,
    ensures
        a == b,
    decreases bits,
{
    lemma2_to64();
    if bits > 0 {
        let k = (bits - 1) as nat;
        lemma_pow2_unfold(bits);
        assert((a / pow2(0)) % 2 == (b / pow2(0)) % 2);
        assert(a / 1 == a && b / 1 == b);
        assert forall|i: nat| i < k implies ((a / 2) / #[trigger] pow2(i)) % 2 == ((b / 2) / pow2(
            i,
        )) % 2 by {
            lemma_pow2_unfold(i + 1);
            lemma_pow2_pos(i);
            lemma_div_denominator(a as int, 2, pow2(i) as int);
            lemma_div_denominator(b as int, 2, pow2(i) as int);
            assert((a / pow2(i + 1)) % 2 == (b / pow2(i + 1)) % 2);
            assert(a / (2 * pow2(i)) == (a / 2) / pow2(i));
            assert(b / (2 * pow2(i)) == (b / 2) / pow2(i));
        }
        lemma_same_bits(a / 2, b / 2, k);
    }
}

/// The number whose `bits` low bits are those of `n` in reverse order.
pub fn reverse_bits(n: usize, bits: usize) -> (r: usize)
    requires
        bits < usize::BITS,
    ensures
        r == reversed(n as nat, bits as nat),
        r < pow2(bits as nat),
        forall|i: nat|
            i < bits ==> (r as nat / #[trigger] pow2(i)) % 2 == (n as nat / pow2(
                (bits - 1 - i) as nat,
            )) % 2,
{
    let mut rest: usize = n;
    let mut r: usize = 0;
    let mut done: usize = 0;
    proof {
        lemma2_to64();
        lemma_reversed_bound(n as nat, bits as nat);
        lemma_usize_pow2_no_overflow(bits as nat);
        assert(0 * pow2(bits as nat) == 0);
    }
    while done < bits
        invariant
            done <= bits < usize::BITS,
            reversed(n as nat, bits as nat) == r as nat * pow2((bits - done) as nat) + reversed(
                rest as nat,
                (bits - done) as nat,
            ),
            reversed(n as nat, bits as nat) < pow2(bits as nat),
            pow2(bits as nat) <= usize::MAX,
            r < pow2(done as nat),
        decreases bits - done,
    {
        let ghost left = (bits - done) as nat;
        let ghost half = pow2((left - 1) as nat);
        proof {
            lemma_pow2_unfold(left);
            lemma_pow2_unfold((done + 1) as nat);
            lemma_pow2_monotonic((done + 1) as nat, bits as nat);
            assert(r as nat * pow2(left) + (rest as nat % 2) * half == (2 * r as nat + rest as nat
                % 2) * half) by (nonlinear_arith)
                requires
                    pow2(left) == 2 * half,
            ;
        }
        r = r * 2 + rest % 2;
        rest = rest / 2;
        done = done + 1;
    }
    proof {
        assert(r as nat * 1 == r);
        assert forall|i: nat| i < bits implies (r as nat / #[trigger] pow2(i)) % 2 == (n as nat
            / pow2((bits - 1 - i) as nat)) % 2 by {
            theorem_reversed_bit(n as nat, bits as nat, i);
        }
    }
    r
}

} // verus!
