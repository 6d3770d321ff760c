//! The Goldilocks field: its modulus is prime, and it has roots of unity of every order up to
//! `2^32`.

use crate::math::primes;
use vstd::arithmetic::div_mod::*;
use vstd::arithmetic::mul::*;
use vstd::arithmetic::power::*;
use vstd::arithmetic::power2::*;
use vstd::prelude::*;
use vstd::set_lib::*;

verus! {

/// The modulus of the Goldilocks field, `2^64 - 2^32 + 1`.
pub const GOLDILOCKS_PRIME: u64 = 18446744069414584321;

/// A generator of the subgroup of order `2^32`.
pub const POWER_OF_TWO_GENERATOR: u64 = 1753635133440165772;

/// The largest `k` for which the field has roots of unity of order `2^k`.
pub const TWO_ADICITY: u32 = 32;

/// The modulus as a mathematical integer.
pub open spec fn modulus() -> int {
    GOLDILOCKS_PRIME as int
}

/// Squaring doubles the exponent.
pub proof fn lemma_square_step(g: int, k: nat, before: int, after: int, m: int)
    requires
        m > 0,
        pow(g, pow2(k)) % m == before,
        (before * before) % m == after,
    ensures
        pow(g, pow2(k + 1)) % m == after,
{
    lemma_pow2_unfold(k + 1);
    lemma_pow_adds(g, pow2(k), pow2(k));
    lemma_mul_mod_noop_general(pow(g, pow2(k)), pow(g, pow2(k)), m);
}

/// The generator raised to `2^31` is minus one.
pub proof fn lemma_generator_half_order()
    ensures
        pow(POWER_OF_TWO_GENERATOR as int, pow2(31)) % modulus() == modulus() - 1,
{
    let g = POWER_OF_TWO_GENERATOR as int;
    let m = modulus();
    lemma2_to64();
    lemma_pow1(g);
    lemma_small_mod(g as nat, m as nat);
    assert(pow(g, pow2(0)) % m == g);
    lemma_square_step(g, 0, 1753635133440165772, 4614640910117430873, m);
    lemma_square_step(g, 1, 4614640910117430873, 9123114210336311365, m);
    lemma_square_step(g, 2, 9123114210336311365, 16116352524544190054, m);
    lemma_square_step(g, 3, 16116352524544190054, 6414415596519834757, m);
    lemma_square_step(g, 4, 6414415596519834757, 1213594585890690845, m);
    lemma_square_step(g, 5, 1213594585890690845, 17096174751763063430, m);
    lemma_square_step(g, 6, 17096174751763063430, 5456943929260765144, m);
    lemma_square_step(g, 7, 5456943929260765144, 9713644485405565297, m);
    lemma_square_step(g, 8, 9713644485405565297, 16905767614792059275, m);
    lemma_square_step(g, 9, 16905767614792059275, 5416168637041100469, m);
    lemma_square_step(g, 10, 5416168637041100469, 17654865857378133588, m);
    lemma_square_step(g, 11, 17654865857378133588, 3511170319078647661, m);
    lemma_square_step(g, 12, 3511170319078647661, 18146160046829613826, m);
    lemma_square_step(g, 13, 18146160046829613826, 9306717745644682924, m);
    lemma_square_step(g, 14, 9306717745644682924, 12380578893860276750, m);
    lemma_square_step(g, 15, 12380578893860276750, 6115771955107415310, m);
    lemma_square_step(g, 16, 6115771955107415310, 17776499369601055404, m);
    lemma_square_step(g, 17, 17776499369601055404, 16207902636198568418, m);
    lemma_square_step(g, 18, 16207902636198568418, 1532612707718625687, m);
    lemma_square_step(g, 19, 1532612707718625687, 17492915097719143606, m);
    lemma_square_step(g, 20, 17492915097719143606, 455906449640507599, m);
    lemma_square_step(g, 21, 455906449640507599, 11353340290879379826, m);
    lemma_square_step(g, 22, 11353340290879379826, 1803076106186727246, m);
    lemma_square_step(g, 23, 1803076106186727246, 13797081185216407910, m);
    lemma_square_step(g, 24, 13797081185216407910, 17870292113338400769, m);
    lemma_square_step(g, 25, 17870292113338400769, 549755813888, m);
    lemma_square_step(g, 26, 549755813888, 70368744161280, m);
    lemma_square_step(g, 27, 70368744161280, 17293822564807737345, m);
    lemma_square_step(g, 28, 17293822564807737345, 18446744069397807105, m);
    lemma_square_step(g, 29, 18446744069397807105, 281474976710656, m);
    lemma_square_step(g, 30, 281474976710656, 18446744069414584320, m);
}

/// A number is even or odd times a power of two.
proof fn lemma_odd_part(n: nat) -> (r: (nat, nat))
    requires
        n > 0,
    ensures
        n == pow2(r.0) * r.1,
        r.1 % 2 == 1,
    decreases n,
{
    if n % 2 == 1 {
        lemma2_to64();
        (0, n)
    } else {
        let (t, m) = lemma_odd_part(n / 2);
        lemma_pow2_unfold(t + 1);
        assert(n == pow2(t + 1) * m) by (nonlinear_arith)
            requires
                n == 2 * (n / 2),
                n / 2 == pow2(t) * m,
                pow2(t + 1) == 2 * pow2(t),
        ;
        (t + 1, m)
    }
}

/// An odd power of minus one is minus one.
proof fn lemma_minus_one_odd_power(x: int, e: nat, q: int)
    requires
        q > 1,
        x % q == q - 1,
        e % 2 == 1,
    ensures
        pow(x, e) % q == q - 1,
    decreases e,
{
    if e == 1 {
        lemma_pow1(x);
    } else {
        let f = (e - 2) as nat;
        lemma_minus_one_odd_power(x, f, q);
        lemma_pow_adds(x, f, 2);
        lemma_pow_adds(x, 1, 1);
        lemma_pow1(x);
        lemma_mul_mod_noop_general(x, x, q);
        assert((q - 1) * (q - 1) == q * (q - 2) + 1) by (nonlinear_arith);
        lemma_mod_multiples_vanish(q - 2, 1, q);
        lemma_small_mod(1, q as nat);
        lemma_mul_mod_noop_general(pow(x, f), pow(x, 2), q);
        lemma_small_mod((q - 1) as nat, q as nat);
    }
}

/// Where `x^(2^(k-1))` is minus one modulo `q > 2`, no positive power of `x` below `2^k` is one.
pub proof fn lemma_order(x: int, k: nat, d: nat, q: int)
    requires
        q > 2,
        k >= 1,
        pow(x, pow2((k - 1) as nat)) % q == q - 1,
        0 < d < pow2(k),
    ensures
        pow(x, d) % q != 1,
{
    let (t, m) = lemma_odd_part(d);
    if t >= k {
        if t > k {
            lemma_pow2_strictly_increases(k, t);
        }
        assert(d >= pow2(t)) by (nonlinear_arith)
            requires
                d == pow2(t) * m,
                m >= 1,
        ;
    }
    if pow(x, d) % q == 1 {
        let up = pow2((k - 1 - t) as nat);
        let half = pow2((k - 1) as nat);
        lemma_pow2_adds((k - 1 - t) as nat, t);
        assert(d * up == half * m) by (nonlinear_arith)
            requires
                d == pow2(t) * m,
                half == up * pow2(t),
        ;
        lemma_pow_multiplies(x, d, up);
        lemma_pow_mod_noop(pow(x, d), up, q);
        lemma1_pow(up);
        lemma_small_mod(1, q as nat);
        lemma_pow_multiplies(x, half, m);
        lemma_minus_one_odd_power(pow(x, half), m, q);
    }
}

/// Where `x^(2^(k-1))` is minus one modulo `q`, `x^(2^k)` is one.
pub proof fn lemma_full_order(x: int, k: nat, q: int)
    requires
        q > 1,
        k >= 1,
        pow(x, pow2((k - 1) as nat)) % q == q - 1,
    ensures
        pow(x, pow2(k)) % q == 1,
{
    assert((q - 1) * (q - 1) == q * (q - 2) + 1) by (nonlinear_arith);
    lemma_mod_multiples_vanish(q - 2, 1, q);
    lemma_small_mod(1, q as nat);
    lemma_square_step(x, (k - 1) as nat, q - 1, 1, q);
}

/// The powers of `x` below `2^k` are pairwise distinct modulo `q`.
pub proof fn lemma_powers_distinct(x: int, k: nat, i: nat, j: nat, q: int)
    requires
        q > 2,
        k >= 1,
        pow(x, pow2((k - 1) as nat)) % q == q - 1,
        i < j < pow2(k),
    ensures
        pow(x, i) % q != pow(x, j) % q,
{
    if pow(x, i) % q == pow(x, j) % q {
        let n = pow2(k);
        let rest = (n - i) as nat;
        // Multiply both sides by x^(n - i).
        lemma_pow_adds(x, i, rest);
        lemma_pow_adds(x, j, rest);
        primes::lemma_congruent_mul(pow(x, i), pow(x, j), pow(x, rest), pow(x, rest), q);
        lemma_full_order(x, k, q);
        let d = (j - i) as nat;
        lemma_pow_adds(x, d, n);
        assert(j + rest == d + n);
        lemma_mul_mod_noop_general(pow(x, d), pow(x, n), q);
        lemma_mod_twice(pow(x, d), q);
        lemma_order(x, k, d, q);
    }
}

/// A modulus above two for which some `x^(2^(k-1))` is minus one is at least `2^k`.
proof fn lemma_modulus_at_least_order(x: int, k: nat, q: int)
    requires
        q > 2,
        k >= 1,
        pow(x, pow2((k - 1) as nat)) % q == q - 1,
    ensures
        q >= pow2(k),
{
    let n = pow2(k) as int;
    let exponents = set_int_range(0, n);
    let residues = set_int_range(0, q);
    let f = |i: int| pow(x, i as nat) % q;
    lemma_int_range(0, n);
    lemma_int_range(0, q);
    assert(vstd::relations::injective_on(f, exponents)) by {
        assert forall|i: int, j: int|
            exponents.contains(i) && exponents.contains(j) && #[trigger] f(i) == #[trigger] f(
                j,
            ) implies i == j by {
            if i < j {
                lemma_powers_distinct(x, k, i as nat, j as nat, q);
            } else if j < i {
                lemma_powers_distinct(x, k, j as nat, i as nat, q);
            }
        }
    }
    let image = exponents.map(f);
    lemma_map_size(exponents, image, f);
    assert(image.subset_of(residues)) by {
        assert forall|y: int| image.contains(y) implies residues.contains(y) by {
            let i = choose|i: int| exponents.contains(i) && f(i) == y;
            lemma_mod_division_less_than_divisor(pow(x, i as nat), q);
        }
    }
    lemma_len_subset(image, residues);
}

/// The Goldilocks modulus is a prime number.
pub proof fn theorem_goldilocks_is_prime()
    ensures
        primes::is_prime(modulus()),
{
    let p = modulus();
    assert forall|d: int| 1 < d < p implies !#[trigger] primes::divides(d, p) by {
        if primes::divides(d, p) {
            let e = p / d;
            lemma_fundamental_div_mod(p, d);
            lemma_mul_is_commutative(d, e);
            assert(e > 1) by (nonlinear_arith)
                requires
                    p == d * e,
                    1 < d < p,
            ;
            lemma_fundamental_div_mod_converse(p, e, d, 0);
            let q = if d <= e { d } else { e };
            assert(primes::divides(q, p));
            lemma2_to64();
            lemma2_to64_rest();
            assert(q < pow2(32)) by (nonlinear_arith)
                requires
                    p == d * e,
                    q <= d,
                    q <= e,
                    q > 1,
                    p < 0x1_0000_0000_0000_0000,
                    pow2(32) == 0x1_0000_0000,
            ;
            let g = POWER_OF_TWO_GENERATOR as int;
            lemma_generator_half_order();
            lemma_small_mod((p - 1) as nat, p as nat);
            primes::lemma_congruent_divisor(pow(g, pow2(31)), p - 1, p, q);
            lemma_congruent_minus_one(p, q);
            lemma_modulus_at_least_order(g, 32, q);
        }
    }
}

/// Modulo a divisor of `p`, `p - 1` is minus one.
proof fn lemma_congruent_minus_one(p: int, q: int)
    requires
        q > 1,
        primes::divides(q, p),
    ensures
        (p - 1) % q == q - 1,
{
    lemma_fundamental_div_mod(p, q);
    let k = p / q;
    assert(p - 1 == q * (k - 1) + (q - 1)) by (nonlinear_arith)
        requires
            p == q * k,
    ;
    lemma_mul_is_commutative(q, k - 1);
    lemma_fundamental_div_mod_converse(p - 1, q, k - 1, q - 1);
}

/// The root of unity of order `2^k` that the library works with.
pub open spec fn root_of_unity(k: nat) -> int {
    pow(POWER_OF_TWO_GENERATOR as int, pow2((TWO_ADICITY - k) as nat)) % modulus()
}

/// The root of order `2^k` is primitive: its power `2^(k-1)` is minus one.
pub proof fn lemma_root_half_order(k: nat)
    requires
        1 <= k <= 32,
    ensures
        pow(root_of_unity(k), pow2((k - 1) as nat)) % modulus() == modulus() - 1,
{
    let g = POWER_OF_TWO_GENERATOR as int;
    let up = pow2((32 - k) as nat);
    let half = pow2((k - 1) as nat);
    lemma_pow2_adds((32 - k) as nat, (k - 1) as nat);
    lemma_pow_multiplies(g, up, half);
    lemma_pow_mod_noop(pow(g, up), half, modulus());
    lemma_generator_half_order();
}

/// The root of order `2^k`, raised to `2^k`, is one.
pub proof fn theorem_root_order(k: nat)
    requires
        k <= 32,
    ensures
        pow(root_of_unity(k), pow2(k)) % modulus() == 1,
        forall|d: nat| 0 < d < pow2(k) ==> #[trigger] pow(root_of_unity(k), d) % modulus() != 1,
{
    let g = POWER_OF_TWO_GENERATOR as int;
    lemma2_to64();
    if k == 0 {
        lemma_generator_half_order();
        lemma_full_order(g, 32, modulus());
        lemma_pow1(root_of_unity(0));
    } else {
        lemma_root_half_order(k);
        lemma_full_order(root_of_unity(k), k, modulus());
        assert forall|d: nat| 0 < d < pow2(k) implies #[trigger] pow(root_of_unity(k), d)
            % modulus() != 1 by {
            lemma_order(root_of_unity(k), k, d, modulus());
        }
    }
}

/// The root of order `2^j` is a power of the root of order `2^k`, for `j <= k`.
pub proof fn lemma_root_power(j: nat, k: nat)
    requires
        j <= k <= 32,
    ensures
        pow(root_of_unity(k), pow2((k - j) as nat)) % modulus() == root_of_unity(j),
{
    let g = POWER_OF_TWO_GENERATOR as int;
    let up = pow2((32 - k) as nat);
    let step = pow2((k - j) as nat);
    lemma_pow2_adds((32 - k) as nat, (k - j) as nat);
    lemma_pow_multiplies(g, up, step);
    lemma_pow_mod_noop(pow(g, up), step, modulus());
}

} // verus!
