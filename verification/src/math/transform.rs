//! Number-theoretic transforms over the Goldilocks field, as evaluations of polynomials.

use crate::math::goldilocks;
use crate::math::primes;
use vstd::arithmetic::div_mod::*;
use vstd::arithmetic::mul::*;
use vstd::arithmetic::power::*;
use vstd::arithmetic::power2::*;
use vstd::prelude::*;

verus! {

/// The sum of `f(0), f(1), ..., f(n - 1)`.
pub open spec fn sum(n: nat, f: spec_fn(int) -> int) -> int
    decreases n,
{
    if n == 0 {
        0
    } else {
        sum((n - 1) as nat, f) + f(n - 1)
    }
}

/// The value at `x` of the polynomial with coefficients `c`, lowest degree first.
pub open spec fn evaluate(c: Seq<u64>, x: int) -> int {
    sum(c.len(), |i: int| c[i] as int * pow(x, i as nat))
}

/// Whether `v` holds the values, reduced, of the polynomial `c` at `shift * w^0, shift * w^1, ...`.
pub open spec fn is_coset_transform(c: Seq<u64>, shift: int, w: int, v: Seq<u64>) -> bool {
    &&& v.len() == c.len()
    &&& forall|j: int|
        0 <= j < v.len() ==> #[trigger] v[j] as int == evaluate(c, shift * pow(w, j as nat))
            % goldilocks::modulus()
}

/// Whether `v` holds the values, reduced, of the polynomial `c` at `w^0, w^1, ...`.
pub open spec fn is_transform(c: Seq<u64>, w: int, v: Seq<u64>) -> bool {
    &&& v.len() == c.len()
    &&& forall|j: int|
        0 <= j < v.len() ==> #[trigger] v[j] as int == evaluate(c, pow(w, j as nat))
            % goldilocks::modulus()
}

/// Sums with equal terms are equal.
pub proof fn lemma_sum_equal(n: nat, f: spec_fn(int) -> int, g: spec_fn(int) -> int)
    requires
        forall|i: int| 0 <= i < n ==> #[trigger] f(i) == g(i),
    ensures
        sum(n, f) == sum(n, g),
    decreases n,
{
    if n > 0 {
        lemma_sum_equal((n - 1) as nat, f, g);
        assert(f(n - 1) == g(n - 1));
    }
}

/// Sums with congruent terms are congruent.
pub proof fn lemma_sum_congruent(
    n: nat,
    f: spec_fn(int) -> int,
    g: spec_fn(int) -> int,
    m: int,
)
    requires
        m > 0,
        forall|i: int| 0 <= i < n ==> primes::congruent(#[trigger] f(i), g(i), m),
    ensures
        primes::congruent(sum(n, f), sum(n, g), m),
    decreases n,
{
    if n > 0 {
        let k = (n - 1) as nat;
        lemma_sum_congruent(k, f, g, m);
        assert(primes::congruent(f(n - 1), g(n - 1), m));
        primes::lemma_congruent_add(sum(k, f), sum(k, g), f(n - 1), g(n - 1), m);
    }
}

/// A factor may be drawn out of a sum.
pub proof fn lemma_sum_scale(n: nat, a: int, f: spec_fn(int) -> int)
    ensures
        sum(n, |i: int| a * f(i)) == a * sum(n, f),
    decreases n,
{
    if n > 0 {
        lemma_sum_scale((n - 1) as nat, a, f);
        lemma_mul_is_distributive_add(a, sum((n - 1) as nat, f), f(n - 1));
    } else {
        assert(a * 0 == 0);
    }
}

/// Sums may be added term by term.
pub proof fn lemma_sum_add(n: nat, f: spec_fn(int) -> int, g: spec_fn(int) -> int)
    ensures
        sum(n, |i: int| f(i) + g(i)) == sum(n, f) + sum(n, g),
    decreases n,
{
    if n > 0 {
        lemma_sum_add((n - 1) as nat, f, g);
    }
}

/// A sum of zeros is zero.
pub proof fn lemma_sum_zero(n: nat, f: spec_fn(int) -> int)
    requires
        forall|i: int| 0 <= i < n ==> #[trigger] f(i) == 0,
    ensures
        sum(n, f) == 0,
    decreases n,
{
    if n > 0 {
        lemma_sum_zero((n - 1) as nat, f);
        assert(f(n - 1) == 0);
    }
}

/// The order of two sums may be exchanged.
pub proof fn lemma_sum_exchange(n: nat, m: nat, a: spec_fn(int, int) -> int)
    ensures
        sum(n, |i: int| sum(m, |j: int| a(i, j))) == sum(m, |j: int| sum(n, |i: int| a(i, j))),
    decreases n,
{
    let outer = |i: int| sum(m, |j: int| a(i, j));
    if n == 0 {
        lemma_sum_zero(m, |j: int| sum(n, |i: int| a(i, j)));
    } else {
        let k = (n - 1) as nat;
        lemma_sum_exchange(k, m, a);
        let before = |j: int| sum(k, |i: int| a(i, j));
        let last = |j: int| a(n - 1, j);
        lemma_sum_add(m, before, last);
        let columns = |j: int| sum(n, |i: int| a(i, j));
        lemma_sum_equal(m, columns, |j: int| before(j) + last(j));
        assert(outer(n - 1) == sum(m, |j: int| a(n - 1, j)));
    }
}

/// A sum may be cut in two.
pub proof fn lemma_sum_split(n: nat, m: nat, f: spec_fn(int) -> int)
    ensures
        sum(n + m, f) == sum(n, f) + sum(m, |i: int| f(n + i)),
    decreases m,
{
    if m > 0 {
        lemma_sum_split(n, (m - 1) as nat, f);
        assert((n + m - 1) as nat == n + (m - 1) as nat);
    }
}

/// The terms of a sum may be taken from the last to the first.
pub proof fn lemma_sum_reverse(n: nat, f: spec_fn(int) -> int)
    ensures
        sum(n, f) == sum(n, |i: int| f(n - 1 - i)),
    decreases n,
{
    if n > 0 {
        let k = (n - 1) as nat;
        let reversed = |i: int| f(n - 1 - i);
        lemma_sum_split(1, k, reversed);
        lemma_sum_reverse(k, f);
        lemma_sum_equal(k, |i: int| reversed(1 + i), |i: int| f(k - 1 - i));
        reveal_with_fuel(sum, 2);
        assert(sum(1, reversed) == reversed(0));
    }
}

/// The terms of a sum may be taken from term `i` on, the first `i` terms last.
pub proof fn lemma_sum_rotate(n: nat, i: nat, f: spec_fn(int) -> int, g: spec_fn(int) -> int)
    requires
        i <= n,
        forall|j: int|
            0 <= j < n ==> #[trigger] g(j) == if j < n - i {
                f(i + j)
            } else {
                f(i + j - n)
            },
    ensures
        sum(n, f) == sum(n, g),
{
    let rest = (n - i) as nat;
    lemma_sum_split(i, rest, f);
    lemma_sum_split(rest, i, g);
    lemma_sum_equal(rest, |j: int| f(i + j), g);
    lemma_sum_equal(i, |j: int| g(rest + j), f);
}

/// Where all terms but one vanish modulo `m`, the sum is that term.
proof fn lemma_sum_single(n: nat, f: spec_fn(int) -> int, k: int, m: int)
    requires
        m > 0,
        0 <= k < n,
        forall|i: int| 0 <= i < n && i != k ==> #[trigger] f(i) % m == 0,
    ensures
        primes::congruent(sum(n, f), f(k), m),
    decreases n,
{
    let before = (n - 1) as nat;
    if k == n - 1 {
        lemma_sum_congruent(before, f, |i: int| 0, m);
        lemma_sum_zero(before, |i: int| 0);
        primes::lemma_congruent_add(sum(before, f), 0, f(k), f(k), m);
    } else {
        lemma_sum_single(before, f, k, m);
        assert(f(n - 1) % m == 0);
        primes::lemma_congruent_add(sum(before, f), f(k), f(n - 1), 0, m);
    }
}

/// The geometric sum of `x` telescopes.
proof fn lemma_geometric(n: nat, x: int)
    ensures
        (x - 1) * sum(n, |j: int| pow(x, j as nat)) == pow(x, n) - 1,
    decreases n,
{
    let f = |j: int| pow(x, j as nat);
    if n == 0 {
        lemma_pow0(x);
        assert((x - 1) * 0 == 0);
    } else {
        let k = (n - 1) as nat;
        lemma_geometric(k, x);
        lemma_mul_is_distributive_add(x - 1, sum(k, f), pow(x, k));
        lemma_pow_adds(x, 1, k);
        lemma_pow1(x);
        assert((x - 1) * pow(x, k) == x * pow(x, k) - pow(x, k)) by (nonlinear_arith);
    }
}

/// A sum of ones counts them.
proof fn lemma_sum_ones(n: nat)
    ensures
        sum(n, |j: int| 1) == n,
    decreases n,
{
    if n > 0 {
        lemma_sum_ones((n - 1) as nat);
    }
}

/// The geometric sum over `n = 2^k` powers of `w^l * w_inv^i`: `n` where `l` is `i`, zero elsewhere.
proof fn lemma_orthogonality(k: nat, w_inv: int, l: nat, i: nat)
    requires
        k <= 32,
        l < pow2(k),
        i < pow2(k),
        (goldilocks::root_of_unity(k) * w_inv) % goldilocks::modulus() == 1,
    ensures
        ({
            let x = pow(goldilocks::root_of_unity(k), l) * pow(w_inv, i);
            primes::congruent(
                sum(pow2(k), |j: int| pow(x, j as nat)),
                if l == i {
                    pow2(k) as int
                } else {
                    0
                },
                goldilocks::modulus(),
            )
        }),
{
    let p = goldilocks::modulus();
    let w = goldilocks::root_of_unity(k);
    let n = pow2(k);
    let x = pow(w, l) * pow(w_inv, i);
    let terms = |j: int| pow(x, j as nat);
    lemma_small_mod(1, p as nat);
    // (w * w_inv)^i is one.
    lemma_pow_mod_noop(w * w_inv, i, p);
    lemma1_pow(i);
    lemma_pow_distributes(w, w_inv, i);
    if l == i {
        assert forall|j: int| 0 <= j < n implies primes::congruent(#[trigger] terms(j), 1, p) by {
            lemma_pow_mod_noop(x, j as nat, p);
            lemma1_pow(j as nat);
        }
        lemma_sum_congruent(n, terms, |j: int| 1, p);
        lemma_sum_ones(n);
    } else {
        goldilocks::theorem_root_order(k);
        goldilocks::theorem_goldilocks_is_prime();
        // x^n is one.
        lemma_pow_distributes(pow(w, l), pow(w_inv, i), n);
        lemma_pow_multiplies(w, l, n);
        lemma_pow_multiplies(w, n, l);
        lemma_mul_is_commutative(l as int, n as int);
        lemma_pow_mod_noop(pow(w, n), l, p);
        lemma1_pow(l);
        lemma_pow_multiplies(w_inv, i, n);
        lemma_pow_multiplies(w_inv, n, i);
        lemma_mul_is_commutative(i as int, n as int);
        lemma_pow_distributes(w, w_inv, n);
        lemma_pow_mod_noop(w * w_inv, n, p);
        lemma1_pow(n);
        lemma_mul_mod_noop_left(pow(w, n), pow(w_inv, n), p);
        lemma_pow_mod_noop(pow(w_inv, n), i, p);
        primes::lemma_congruent_mul(pow(pow(w, l), n), 1, pow(pow(w_inv, i), n), 1, p);
        assert(pow(x, n) % p == 1);
        // x is not one: otherwise w^l and w^i would agree.
        if x % p == 1 {
            primes::lemma_congruent_mul(x, 1, pow(w, i), pow(w, i), p);
            primes::lemma_congruent_mul(
                pow(w, i) * pow(w_inv, i),
                1,
                pow(w, l),
                pow(w, l),
                p,
            );
            let a = pow(w, l);
            let b = pow(w_inv, i);
            let c = pow(w, i);
            assert((a * b) * c == (c * b) * a) by (nonlinear_arith);
            assert(primes::congruent(pow(w, i), pow(w, l), p));
            if k == 0 {
                lemma2_to64();
            } else {
                goldilocks::lemma_root_half_order(k);
                if l < i {
                    goldilocks::lemma_powers_distinct(w, k, l, i, p);
                } else {
                    goldilocks::lemma_powers_distinct(w, k, i, l, p);
                }
            }
        }
        lemma_geometric(n, x);
        primes::lemma_congruent_difference(pow(x, n), 1, p);
        primes::lemma_congruent_difference(x, 1, p);
        primes::lemma_euclid(x - 1, sum(n, terms), p);
    }
}

/// The inverse transform undoes the transform: evaluating the transformed values at the powers of
/// the inverse root and scaling by the inverse of the length gives back the coefficients.
pub proof fn theorem_inverse_transform(
    k: nat,
    c: Seq<u64>,
    v: Seq<u64>,
    w_inv: int,
    n_inv: int,
    i: int,
)
    requires
        k <= 32,
        c.len() == pow2(k),
        is_transform(c, goldilocks::root_of_unity(k), v),
        (goldilocks::root_of_unity(k) * w_inv) % goldilocks::modulus() == 1,
        (pow2(k) * n_inv) % goldilocks::modulus() == 1,
        0 <= i < c.len(),
    ensures
        primes::congruent(
            evaluate(v, pow(w_inv, i as nat)) * n_inv,
            c[i] as int,
            goldilocks::modulus(),
        ),
{
    let p = goldilocks::modulus();
    let w = goldilocks::root_of_unity(k);
    let n = pow2(k);
    let y = pow(w_inv, i as nat);
    let entry = |j: int, l: int|
        (c[l] as int * pow(pow(w, j as nat), l as nat)) * pow(y, j as nat);
    let given = |j: int| v[j] as int * pow(y, j as nat);
    let rows = |j: int| sum(n, |l: int| entry(j, l));
    assert forall|j: int| 0 <= j < n implies primes::congruent(
        #[trigger] given(j),
        rows(j),
        p,
    ) by {
        let z = pow(y, j as nat);
        let f = |l: int| c[l] as int * pow(pow(w, j as nat), l as nat);
        lemma_sum_scale(n, z, f);
        let row = |l: int| entry(j, l);
        assert forall|l: int| 0 <= l < n implies #[trigger] row(l) == z * f(l) by {
            lemma_mul_is_commutative(f(l), z);
        }
        lemma_sum_equal(n, row, |l: int| z * f(l));
        assert(v[j] as int == evaluate(c, pow(w, j as nat)) % p);
        lemma_mul_mod_noop_left(sum(n, f), z, p);
        lemma_mul_is_commutative(sum(n, f), z);
    }
    lemma_sum_congruent(n, given, rows, p);
    lemma_sum_exchange(n, n, entry);
    let columns = |l: int| sum(n, |j: int| entry(j, l));
    let x = |l: int| pow(w, l as nat) * y;
    let kernel = |l: int| sum(n, |j: int| pow(x(l), j as nat));
    let weighted = |l: int| c[l] as int * kernel(l);
    assert forall|l: int| 0 <= l < n implies #[trigger] columns(l) == weighted(l) by {
        let powers = |j: int| pow(x(l), j as nat);
        lemma_sum_scale(n, c[l] as int, powers);
        assert forall|j: int| 0 <= j < n implies #[trigger] entry(j, l) == c[l] as int * powers(
            j,
        ) by {
            lemma_pow_multiplies(w, j as nat, l as nat);
            lemma_pow_multiplies(w, l as nat, j as nat);
            lemma_mul_is_commutative(j, l);
            lemma_pow_distributes(pow(w, l as nat), y, j as nat);
            lemma_mul_is_associative(
                c[l] as int,
                pow(pow(w, j as nat), l as nat),
                pow(y, j as nat),
            );
        }
        lemma_sum_equal(n, |j: int| entry(j, l), |j: int| c[l] as int * powers(j));
    }
    lemma_sum_equal(n, columns, weighted);
    assert forall|l: int| 0 <= l < n && l != i implies #[trigger] weighted(l) % p == 0 by {
        lemma_orthogonality(k, w_inv, l as nat, i as nat);
        primes::lemma_congruent_mul(c[l] as int, c[l] as int, kernel(l), 0, p);
    }
    lemma_sum_single(n, weighted, i, p);
    lemma_orthogonality(k, w_inv, i as nat, i as nat);
    primes::lemma_congruent_mul(c[i] as int, c[i] as int, kernel(i), n as int, p);
    assert(evaluate(v, y) == sum(n, given));
    assert(primes::congruent(evaluate(v, y), c[i] as int * n, p));
    primes::lemma_congruent_mul(evaluate(v, y), c[i] as int * n, n_inv, n_inv, p);
    lemma_mul_is_associative(c[i] as int, n as int, n_inv);
    lemma_small_mod(1, p as nat);
    primes::lemma_congruent_mul(c[i] as int, c[i] as int, n * n_inv, 1, p);
}

/// Scaling coefficient `i` by `shift^i` turns an evaluation at `x` into one at `shift * x`.
pub proof fn theorem_shifted_coefficients(c: Seq<u64>, d: Seq<u64>, shift: int, x: int)
    requires
        d.len() == c.len(),
        forall|i: int|
            0 <= i < c.len() ==> #[trigger] d[i] as int == (c[i] as int * pow(shift, i as nat))
                % goldilocks::modulus(),
    ensures
        primes::congruent(evaluate(d, x), evaluate(c, shift * x), goldilocks::modulus()),
{
    let p = goldilocks::modulus();
    let f = |i: int| d[i] as int * pow(x, i as nat);
    let g = |i: int| c[i] as int * pow(shift * x, i as nat);
    assert forall|i: int| 0 <= i < c.len() implies primes::congruent(#[trigger] f(i), g(i), p) by {
        let s = c[i] as int * pow(shift, i as nat);
        lemma_mul_mod_noop_left(s, pow(x, i as nat), p);
        assert(d[i] as int == s % p);
        lemma_pow_distributes(shift, x, i as nat);
        lemma_mul_is_associative(c[i] as int, pow(shift, i as nat), pow(x, i as nat));
    }
    lemma_sum_congruent(c.len(), f, g, p);
}

/// Zero coefficients of high degree do not change the values of a polynomial.
pub proof fn theorem_zero_padding(c: Seq<u64>, d: Seq<u64>, x: int)
    requires
        c.len() <= d.len(),
        forall|i: int| 0 <= i < c.len() ==> #[trigger] d[i] == c[i],
        forall|i: int| c.len() <= i < d.len() ==> #[trigger] d[i] == 0,
    ensures
        evaluate(d, x) == evaluate(c, x),
    decreases d.len(),
{
    let f = |i: int| d[i] as int * pow(x, i as nat);
    let g = |i: int| c[i] as int * pow(x, i as nat);
    if c.len() == d.len() {
        lemma_sum_equal(c.len(), f, g);
    } else {
        let e = d.drop_last();
        theorem_zero_padding(c, e, x);
        let h = |i: int| e[i] as int * pow(x, i as nat);
        lemma_sum_equal(e.len(), f, h);
        assert(d[d.len() - 1] == 0);
        assert(f(d.len() - 1) == 0);
    }
}

/// A low-degree extension extends the transform: with `2^r` times as many points, every `2^r`-th
/// value of the extension is a value of the original transform.
pub proof fn theorem_extension_restricts(
    k: nat,
    r: nat,
    c: Seq<u64>,
    d: Seq<u64>,
    small: Seq<u64>,
    large: Seq<u64>,
    j: int,
)
    requires
        k + r <= 32,
        c.len() == pow2(k),
        d.len() == pow2(k + r),
        c.len() <= d.len(),
        forall|i: int| 0 <= i < c.len() ==> #[trigger] d[i] == c[i],
        forall|i: int| c.len() <= i < d.len() ==> #[trigger] d[i] == 0,
        is_transform(c, goldilocks::root_of_unity(k), small),
        is_transform(d, goldilocks::root_of_unity(k + r), large),
        0 <= j < small.len(),
    ensures
        0 <= j * pow2(r) < large.len(),
        large[j * pow2(r)] == small[j],
{
    let p = goldilocks::modulus();
    let w = goldilocks::root_of_unity(k + r);
    let u = goldilocks::root_of_unity(k);
    lemma_pow2_adds(k, r);
    lemma_pow2_pos(r);
    assert(0 <= j * pow2(r) < pow2(k) * pow2(r)) by (nonlinear_arith)
        requires
            0 <= j < pow2(k),
            pow2(r) > 0,
    ;
    let jj = j * pow2(r);
    goldilocks::lemma_root_power(k, k + r);
    assert(((k + r) - k) as nat == r);
    lemma_pow_multiplies(w, pow2(r), j as nat);
    lemma_mul_is_commutative(j, pow2(r) as int);
    lemma_pow_mod_noop(pow(w, pow2(r)), j as nat, p);
    assert(pow(w, jj as nat) % p == pow(u, j as nat) % p);
    theorem_zero_padding(c, d, pow(w, jj as nat));
    lemma_evaluate_congruent(c, pow(w, jj as nat), pow(u, j as nat));
    assert(large[jj] as int == evaluate(d, pow(w, jj as nat)) % p);
    assert(small[j] as int == evaluate(c, pow(u, j as nat)) % p);
}

/// Congruent arguments give congruent values.
pub proof fn lemma_evaluate_congruent(c: Seq<u64>, x: int, y: int)
    requires
        primes::congruent(x, y, goldilocks::modulus()),
    ensures
        primes::congruent(evaluate(c, x), evaluate(c, y), goldilocks::modulus()),
{
    let p = goldilocks::modulus();
    let f = |i: int| c[i] as int * pow(x, i as nat);
    let g = |i: int| c[i] as int * pow(y, i as nat);
    assert forall|i: int| 0 <= i < c.len() implies primes::congruent(#[trigger] f(i), g(i), p) by {
        primes::lemma_congruent_pow(x, y, i as nat, p);
        primes::lemma_congruent_mul(
            c[i] as int,
            c[i] as int,
            pow(x, i as nat),
            pow(y, i as nat),
            p,
        );
    }
    lemma_sum_congruent(c.len(), f, g, p);
}

} // verus!
