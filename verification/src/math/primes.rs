//! Congruences, Euclid's lemma and Fermat's little theorem.

use vstd::arithmetic::div_mod::*;
use vstd::arithmetic::mul::*;
use vstd::arithmetic::power::*;
use vstd::prelude::*;

verus! {

/// Whether `d` divides `n`.
pub open spec fn divides(d: int, n: int) -> bool {
    n % d == 0
}

/// Whether `p` is a prime number.
pub open spec fn is_prime(p: int) -> bool {
    &&& p > 1
    &&& forall|d: int| 1 < d < p ==> !#[trigger] divides(d, p)
}

/// Whether `a` and `b` leave the same remainder modulo `m`.
pub open spec fn congruent(a: int, b: int, m: int) -> bool {
    a % m == b % m
}

/// Congruences may be multiplied.
pub proof fn lemma_congruent_mul(a: int, b: int, c: int, d: int, m: int)
    requires
        m > 0,
        congruent(a, b, m),
        congruent(c, d, m),
    ensures
        congruent(a * c, b * d, m),
{
    lemma_mul_mod_noop_general(a, c, m);
    lemma_mul_mod_noop_general(b, d, m);
}

/// Congruences may be added.
pub proof fn lemma_congruent_add(a: int, b: int, c: int, d: int, m: int)
    requires
        m > 0,
        congruent(a, b, m),
        congruent(c, d, m),
    ensures
        congruent(a + c, b + d, m),
{
    lemma_add_mod_noop(a, c, m);
    lemma_add_mod_noop(b, d, m);
}

/// Both sides of a congruence may be raised to a power.
pub proof fn lemma_congruent_pow(a: int, b: int, e: nat, m: int)
    requires
        m > 0,
        congruent(a, b, m),
    ensures
        congruent(pow(a, e), pow(b, e), m),
{
    lemma_pow_mod_noop(a, e, m);
    lemma_pow_mod_noop(b, e, m);
}

/// Two numbers are congruent exactly where the modulus divides their difference.
pub proof fn lemma_congruent_difference(a: int, b: int, m: int)
    requires
        m > 0,
    ensures
        congruent(a, b, m) <==> divides(m, a - b),
{
    lemma_mod_equivalence(a, b, m);
}

/// A divisor of a modulus preserves its congruences.
pub proof fn lemma_congruent_divisor(a: int, b: int, m: int, d: int)
    requires
        m > 0,
        d > 0,
        divides(d, m),
        congruent(a, b, m),
    ensures
        congruent(a, b, d),
{
    lemma_congruent_difference(a, b, m);
    lemma_congruent_difference(a, b, d);
    let k = (a - b) / m;
    let l = m / d;
    lemma_fundamental_div_mod(a - b, m);
    lemma_fundamental_div_mod(m, d);
    assert(a - b == (k * l) * d) by (nonlinear_arith)
        requires
            a - b == m * k,
            m == d * l,
    ;
    lemma_mod_multiples_basic(k * l, d);
}

/// Euclid's lemma for a factor below the prime.
proof fn lemma_euclid_reduced(a: int, b: int, p: int)
    requires
        is_prime(p),
        0 < a < p,
        divides(p, a * b),
    ensures
        divides(p, b),
    decreases a,
{
    if a == 1 {
        assert(a * b == b) by (nonlinear_arith)
            requires
                a == 1,
        ;
    } else {
        let q = p / a;
        let r = p % a;
        lemma_fundamental_div_mod(p, a);
        lemma_mod_division_less_than_divisor(p, a);
        assert(!divides(a, p));
        let k = (a * b) / p;
        lemma_fundamental_div_mod(a * b, p);
        assert(r * b == (b - q * k) * p) by (nonlinear_arith)
            requires
                p == a * q + r,
                a * b == p * k,
        ;
        lemma_mod_multiples_basic(b - q * k, p);
        lemma_euclid_reduced(r, b, p);
    }
}

/// Euclid's lemma: a prime that divides a product divides one of its factors.
pub proof fn lemma_euclid(a: int, b: int, p: int)
    requires
        is_prime(p),
        divides(p, a * b),
    ensures
        divides(p, a) || divides(p, b),
{
    if !divides(p, a) {
        lemma_mod_division_less_than_divisor(a, p);
        lemma_mul_mod_noop_left(a, b, p);
        lemma_euclid_reduced(a % p, b, p);
    }
}

/// The product of a sequence of integers.
pub open spec fn product(s: Seq<int>) -> int
    decreases s.len(),
{
    if s.len() == 0 {
        1
    } else {
        product(s.drop_last()) * s.last()
    }
}

/// One element may be split off a product.
proof fn lemma_product_remove(s: Seq<int>, i: int)
    requires
        0 <= i < s.len(),
    ensures
        product(s) == s[i] * product(s.remove(i)),
    decreases s.len(),
{
    let last = s.last();
    let front = s.drop_last();
    if i == s.len() - 1 {
        assert(s.remove(i) =~= front);
        lemma_mul_is_commutative(product(front), last);
    } else {
        lemma_product_remove(front, i);
        assert(s.remove(i).drop_last() =~= front.remove(i));
        assert(s.remove(i).last() == last);
        let rest = product(front.remove(i));
        assert((s[i] * rest) * last == s[i] * (rest * last)) by (nonlinear_arith);
    }
}

/// A product does not depend on the order of its distinct factors.
proof fn lemma_product_reorder(s: Seq<int>, t: Seq<int>)
    requires
        s.len() == t.len(),
        s.no_duplicates(),
        t.no_duplicates(),
        forall|i: int| 0 <= i < s.len() ==> t.contains(#[trigger] s[i]),
    ensures
        product(s) == product(t),
    decreases s.len(),
{
    if s.len() > 0 {
        let x = s.last();
        assert(t.contains(s[s.len() - 1]));
        let j = choose|j: int| 0 <= j < t.len() && t[j] == x;
        let front = s.drop_last();
        let rest = t.remove(j);
        assert forall|i: int| 0 <= i < front.len() implies rest.contains(#[trigger] front[i]) by {
            assert(t.contains(s[i]));
            let k = choose|k: int| 0 <= k < t.len() && t[k] == s[i];
            assert(k != j);
            if k < j {
                assert(rest[k] == s[i]);
            } else {
                assert(rest[k - 1] == s[i]);
            }
        }
        assert(rest.no_duplicates());
        lemma_product_reorder(front, rest);
        lemma_product_remove(t, j);
        lemma_mul_is_commutative(product(front), x);
    }
}

/// The numbers `1, 2, ..., n`.
spec fn first_numbers(n: nat) -> Seq<int> {
    Seq::new(n, |i: int| i + 1)
}

/// The numbers `a, 2a, ..., na`, reduced modulo `p`.
spec fn scaled_numbers(a: int, n: nat, p: int) -> Seq<int> {
    Seq::new(n, |i: int| (a * (i + 1)) % p)
}

/// The product of scaled numbers, each reduced, is the scaled product.
proof fn lemma_product_scaled(a: int, n: nat, p: int)
    requires
        p > 0,
    ensures
        congruent(product(scaled_numbers(a, n, p)), pow(a, n) * product(first_numbers(n)), p),
    decreases n,
{
    if n == 0 {
        lemma_pow0(a);
    } else {
        let m = (n - 1) as nat;
        lemma_product_scaled(a, m, p);
        assert(scaled_numbers(a, n, p).drop_last() =~= scaled_numbers(a, m, p));
        assert(first_numbers(n).drop_last() =~= first_numbers(m));
        let f = product(first_numbers(m));
        let t = product(scaled_numbers(a, m, p));
        let x = a * (n as int);
        lemma_mod_twice(x, p);
        lemma_congruent_mul(t, pow(a, m) * f, x % p, x, p);
        lemma_pow_adds(a, m, 1);
        lemma_pow1(a);
        assert((pow(a, m) * f) * x == pow(a, n) * (f * (n as int))) by (nonlinear_arith)
            requires
                x == a * (n as int),
                pow(a, n) == pow(a, m) * a,
        ;
    }
}

/// A prime does not divide the product of smaller positive numbers.
proof fn lemma_factorial_coprime(n: nat, p: int)
    requires
        is_prime(p),
        n < p,
    ensures
        !divides(p, product(first_numbers(n))),
    decreases n,
{
    if n == 0 {
        lemma_small_mod(1, p as nat);
    } else {
        let m = (n - 1) as nat;
        lemma_factorial_coprime(m, p);
        assert(first_numbers(n).drop_last() =~= first_numbers(m));
        lemma_small_mod(n, p as nat);
        let f = product(first_numbers(m));
        if divides(p, f * (n as int)) {
            lemma_euclid(f, n as int, p);
        }
    }
}

/// Fermat's little theorem: `a^(p-1)` is one modulo a prime `p` that does not divide `a`.
pub proof fn theorem_fermat(a: int, p: int)
    requires
        is_prime(p),
        !divides(p, a),
    ensures
        pow(a, (p - 1) as nat) % p == 1,
{
    let n = (p - 1) as nat;
    let s = scaled_numbers(a, n, p);
    let t = first_numbers(n);
    assert forall|i: int| 0 <= i < s.len() implies t.contains(#[trigger] s[i]) by {
        lemma_mod_division_less_than_divisor(a * (i + 1), p);
        if s[i] == 0 {
            lemma_euclid(a, i + 1, p);
            lemma_small_mod((i + 1) as nat, p as nat);
        }
        assert(t[s[i] - 1] == s[i]);
    }
    assert forall|i: int, j: int| 0 <= i < j < s.len() implies s[i] != s[j] by {
        if s[i] == s[j] {
            lemma_congruent_difference(a * (j + 1), a * (i + 1), p);
            assert(a * (j + 1) - a * (i + 1) == a * (j - i)) by (nonlinear_arith);
            lemma_euclid(a, j - i, p);
            lemma_small_mod((j - i) as nat, p as nat);
        }
    }
    lemma_product_reorder(s, t);
    lemma_product_scaled(a, n, p);
    let f = product(t);
    let e = pow(a, n);
    lemma_congruent_difference(e * f, f, p);
    assert(e * f - f == (e - 1) * f) by (nonlinear_arith);
    lemma_factorial_coprime(n, p);
    lemma_euclid(e - 1, f, p);
    lemma_congruent_difference(e, 1, p);
    lemma_small_mod(1, p as nat);
}

} // verus!
