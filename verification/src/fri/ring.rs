//! The laws of arithmetic in an extension of the Goldilocks field.

use crate::fri::extension;
use crate::math::goldilocks;
use crate::math::primes;
use crate::math::transform;
use vstd::arithmetic::div_mod::*;
use vstd::prelude::*;

verus! {

/// Whether all coefficients are reduced.
pub open spec fn reduced(a: Seq<u64>) -> bool {
    forall|k: int| 0 <= k < a.len() ==> #[trigger] a[k] < goldilocks::modulus()
}

/// Coefficient `m` of `b`, or of `b` times `x^d` where `m` is negative.
spec fn reach(b: Seq<u64>, m: int) -> int {
    if m >= 0 {
        b[m] as int
    } else {
        extension::spec_extension_w(b.len()) * b[m + b.len()]
    }
}

/// What the coefficients of `a` add to coefficient `k` of the product.
spec fn row(a: Seq<u64>, b: Seq<u64>, k: int) -> spec_fn(int) -> int {
    |i: int| a[i] * reach(b, k - i)
}

/// Contributions are the terms of a sum.
proof fn lemma_contributions(a: Seq<u64>, b: Seq<u64>, k: int, m: nat)
    requires
        a.len() == b.len(),
        0 <= k < a.len(),
        m <= a.len(),
    ensures
        extension::contributions(a, b, k, m) == transform::sum(m, row(a, b, k)),
    decreases m,
{
    if m > 0 {
        let i = m - 1;
        lemma_contributions(a, b, k, (m - 1) as nat);
        if i > k {
            let w = extension::spec_extension_w(a.len()) as int;
            let u = a[i] as int;
            let v = b[k + a.len() - i] as int;
            assert(w * (u * v) == u * (w * v)) by (nonlinear_arith);
        }
        assert(extension::contribution(a, b, k, i) == row(a, b, k)(i));
    }
}

/// A coefficient of a product, as a sum.
proof fn lemma_coefficient(a: Seq<u64>, b: Seq<u64>, k: int)
    requires
        a.len() == b.len(),
        0 <= k < a.len(),
    ensures
        extension::times(a, b)[k] as int == transform::sum(a.len(), row(a, b, k))
            % goldilocks::modulus(),
        primes::congruent(
            extension::times(a, b)[k] as int,
            transform::sum(a.len(), row(a, b, k)),
            goldilocks::modulus(),
        ),
{
    let p = goldilocks::modulus();
    lemma_contributions(a, b, k, a.len());
    lemma_mod_bound(transform::sum(a.len(), row(a, b, k)), p);
    lemma_mod_twice(transform::sum(a.len(), row(a, b, k)), p);
}

/// Sums and products have reduced coefficients.
pub proof fn lemma_reduced(a: Seq<u64>, b: Seq<u64>)
    ensures
        reduced(extension::plus(a, b)),
        reduced(extension::times(a, b)),
        extension::plus(a, b).len() == a.len(),
        extension::times(a, b).len() == a.len(),
{
    let p = goldilocks::modulus();
    assert forall|k: int| 0 <= k < a.len() implies #[trigger] extension::plus(a, b)[k] < p by {
        lemma_mod_bound(a[k] + b[k], p);
    }
    assert forall|k: int| 0 <= k < a.len() implies #[trigger] extension::times(a, b)[k] < p by {
        lemma_mod_bound(extension::contributions(a, b, k, a.len()), p);
    }
}

/// Multiplication is commutative.
pub proof fn theorem_times_commutes(a: Seq<u64>, b: Seq<u64>)
    requires
        a.len() == b.len(),
    ensures
        extension::times(a, b) == extension::times(b, a),
{
    let d = a.len();
    assert forall|k: int| 0 <= k < d implies #[trigger] extension::times(a, b)[k]
        == extension::times(b, a)[k] by {
        lemma_coefficient(a, b, k);
        lemma_coefficient(b, a, k);
        let f = row(a, b, k);
        let g = row(b, a, k);
        let low = (k + 1) as nat;
        let high = (d - low) as nat;
        transform::lemma_sum_split(low, high, f);
        transform::lemma_sum_split(low, high, g);
        transform::lemma_sum_reverse(low, f);
        let f_high = |i: int| f(low + i);
        let g_high = |i: int| g(low + i);
        transform::lemma_sum_reverse(high, f_high);
        let f_low_back = |i: int| f(low - 1 - i);
        assert forall|i: int| 0 <= i < low implies #[trigger] f_low_back(i) == g(i) by {
            let u = a[k - i] as int;
            let v = b[i] as int;
            assert(u * v == v * u) by (nonlinear_arith);
        }
        transform::lemma_sum_equal(low, f_low_back, g);
        let f_high_back = |i: int| f_high(high - 1 - i);
        assert forall|i: int| 0 <= i < high implies #[trigger] f_high_back(i) == g_high(i) by {
            let w = extension::spec_extension_w(d) as int;
            let u = a[d - 1 - i] as int;
            let v = b[low + i] as int;
            assert(u * (w * v) == v * (w * u)) by (nonlinear_arith);
        }
        transform::lemma_sum_equal(high, f_high_back, g_high);
    }
    assert(extension::times(a, b) =~= extension::times(b, a));
}

/// A row of `b` shifted by `i`, summed with `c`, is what `b * c` reaches.
proof fn lemma_shifted(b: Seq<u64>, c: Seq<u64>, k: int, i: nat)
    requires
        b.len() == c.len(),
        0 <= k < b.len(),
        i < b.len(),
    ensures
        primes::congruent(
            transform::sum(b.len(), |l: int| reach(b, l - i) * reach(c, k - l)),
            reach(extension::times(b, c), k - i),
            goldilocks::modulus(),
        ),
{
    let p = goldilocks::modulus();
    let d = b.len();
    let w = extension::spec_extension_w(d) as int;
    let m = k - i;
    let f = |l: int| reach(b, l - i) * reach(c, k - l);
    let g = |j: int|
        if j < d - i {
            f(i + j)
        } else {
            f(i + j - d)
        };
    transform::lemma_sum_rotate(d, i, f, g);
    if m >= 0 {
        assert forall|j: int| 0 <= j < d implies #[trigger] g(j) == row(b, c, m)(j) by {
            if j >= d - i {
                let u = b[j] as int;
                let v = c[m - j + d] as int;
                assert((w * u) * v == u * (w * v)) by (nonlinear_arith);
            }
        }
        transform::lemma_sum_equal(d, g, row(b, c, m));
        lemma_coefficient(b, c, m);
    } else {
        let h = row(b, c, m + d);
        let scaled = |j: int| w * h(j);
        assert forall|j: int| 0 <= j < d implies #[trigger] g(j) == scaled(j) by {
            let u = b[j] as int;
            let v = reach(c, m + d - j);
            if j < d - i {
                assert(u * (w * v) == w * (u * v)) by (nonlinear_arith);
            } else {
                assert((w * u) * v == w * (u * v)) by (nonlinear_arith);
            }
        }
        transform::lemma_sum_equal(d, g, scaled);
        transform::lemma_sum_scale(d, w, h);
        lemma_coefficient(b, c, m + d);
        primes::lemma_congruent_mul(
            w,
            w,
            transform::sum(d, h),
            extension::times(b, c)[m + d] as int,
            p,
        );
    }
}

/// Multiplication is associative.
#[verifier::rlimit(40)]
pub proof fn theorem_times_associates(a: Seq<u64>, b: Seq<u64>, c: Seq<u64>)
    requires
        a.len() == b.len(),
        b.len() == c.len(),
    ensures
        extension::times(extension::times(a, b), c) == extension::times(a, extension::times(b, c)),
{
    let p = goldilocks::modulus();
    let d = a.len();
    let ab = extension::times(a, b);
    let bc = extension::times(b, c);
    assert forall|k: int| 0 <= k < d implies #[trigger] extension::times(ab, c)[k]
        == extension::times(a, bc)[k] by {
        lemma_coefficient(ab, c, k);
        lemma_coefficient(a, bc, k);
        let t = |l: int, i: int| (a[i] * reach(b, l - i)) * reach(c, k - l);
        let by_l = |l: int| transform::sum(d, |i: int| t(l, i));
        let by_i = |i: int| transform::sum(d, |l: int| t(l, i));
        assert forall|l: int| 0 <= l < d implies primes::congruent(
            #[trigger] row(ab, c, k)(l),
            by_l(l),
            p,
        ) by {
            let v = reach(c, k - l);
            let f = row(a, b, l);
            lemma_coefficient(a, b, l);
            primes::lemma_congruent_mul(ab[l] as int, transform::sum(d, f), v, v, p);
            transform::lemma_sum_scale(d, v, f);
            let scaled = |i: int| v * f(i);
            let terms = |i: int| t(l, i);
            assert forall|i: int| 0 <= i < d implies #[trigger] scaled(i) == terms(i) by {
                let u = f(i);
                assert(v * u == u * v) by (nonlinear_arith);
            }
            transform::lemma_sum_equal(d, scaled, terms);
            let s = transform::sum(d, f);
            assert(v * s == s * v) by (nonlinear_arith);
        }
        transform::lemma_sum_congruent(d, row(ab, c, k), by_l, p);
        transform::lemma_sum_exchange(d, d, t);
        assert forall|i: int| 0 <= i < d implies primes::congruent(
            #[trigger] by_i(i),
            row(a, bc, k)(i),
            p,
        ) by {
            let u = a[i] as int;
            let f = |l: int| reach(b, l - i) * reach(c, k - l);
            lemma_shifted(b, c, k, i as nat);
            let scaled = |l: int| u * f(l);
            let terms = |l: int| t(l, i);
            assert forall|l: int| 0 <= l < d implies #[trigger] scaled(l) == terms(l) by {
                let v = reach(b, l - i);
                let w = reach(c, k - l);
                assert(u * (v * w) == (u * v) * w) by (nonlinear_arith);
            }
            transform::lemma_sum_equal(d, scaled, terms);
            transform::lemma_sum_scale(d, u, f);
            primes::lemma_congruent_mul(u, u, transform::sum(d, f), reach(bc, k - i), p);
        }
        transform::lemma_sum_congruent(d, by_i, row(a, bc, k), p);
    }
    assert(extension::times(ab, c) =~= extension::times(a, bc));
}

/// Addition is commutative.
pub proof fn theorem_plus_commutes(a: Seq<u64>, b: Seq<u64>)
    requires
        a.len() == b.len(),
    ensures
        extension::plus(a, b) == extension::plus(b, a),
{
    assert(extension::plus(a, b) =~= extension::plus(b, a));
}

/// A coefficient of a sum.
proof fn lemma_plus_coefficient(a: Seq<u64>, b: Seq<u64>, k: int)
    requires
        0 <= k < a.len(),
    ensures
        extension::plus(a, b)[k] as int == (a[k] + b[k]) % goldilocks::modulus(),
        primes::congruent(
            extension::plus(a, b)[k] as int,
            a[k] + b[k],
            goldilocks::modulus(),
        ),
{
    let p = goldilocks::modulus();
    lemma_mod_bound(a[k] + b[k], p);
    lemma_mod_twice(a[k] + b[k], p);
}

/// Addition is associative.
pub proof fn theorem_plus_associates(a: Seq<u64>, b: Seq<u64>, c: Seq<u64>)
    requires
        a.len() == b.len(),
        b.len() == c.len(),
    ensures
        extension::plus(extension::plus(a, b), c) == extension::plus(a, extension::plus(b, c)),
{
    let p = goldilocks::modulus();
    let ab = extension::plus(a, b);
    let bc = extension::plus(b, c);
    assert forall|k: int| 0 <= k < a.len() implies #[trigger] extension::plus(ab, c)[k]
        == extension::plus(a, bc)[k] by {
        lemma_plus_coefficient(a, b, k);
        lemma_plus_coefficient(b, c, k);
        lemma_plus_coefficient(ab, c, k);
        lemma_plus_coefficient(a, bc, k);
        primes::lemma_congruent_add(ab[k] as int, a[k] + b[k], c[k] as int, c[k] as int, p);
        primes::lemma_congruent_add(a[k] as int, a[k] as int, bc[k] as int, b[k] + c[k], p);
    }
    assert(extension::plus(ab, c) =~= extension::plus(a, bc));
}

/// Zero is neutral.
pub proof fn theorem_plus_zero(a: Seq<u64>)
    requires
        reduced(a),
    ensures
        extension::plus(a, extension::zero(a.len())) == a,
        extension::plus(extension::zero(a.len()), a) == a,
{
    let p = goldilocks::modulus();
    assert forall|k: int| 0 <= k < a.len() implies (a[k] + 0) % p == a[k] by {
        lemma_small_mod(a[k] as nat, p as nat);
    }
    assert(extension::plus(a, extension::zero(a.len())) =~= a);
    assert(extension::plus(extension::zero(a.len()), a) =~= a);
}

/// Sums may be regrouped.
pub proof fn lemma_plus_interchange(a: Seq<u64>, b: Seq<u64>, c: Seq<u64>, e: Seq<u64>)
    requires
        a.len() == b.len(),
        b.len() == c.len(),
        c.len() == e.len(),
    ensures
        extension::plus(extension::plus(a, b), extension::plus(c, e)) == extension::plus(
            extension::plus(a, c),
            extension::plus(b, e),
        ),
{
    lemma_reduced(b, extension::plus(c, e));
    lemma_reduced(c, e);
    lemma_reduced(b, e);
    theorem_plus_associates(a, b, extension::plus(c, e));
    theorem_plus_associates(b, c, e);
    theorem_plus_commutes(b, c);
    theorem_plus_associates(c, b, e);
    theorem_plus_associates(a, c, extension::plus(b, e));
}

/// Equal sums with one summand in common have the other in common.
pub proof fn lemma_plus_cancels(a: Seq<u64>, b: Seq<u64>, c: Seq<u64>)
    requires
        a.len() == b.len(),
        b.len() == c.len(),
        reduced(a),
        reduced(b),
        extension::plus(a, c) == extension::plus(b, c),
    ensures
        a == b,
{
    let p = goldilocks::modulus();
    assert forall|k: int| 0 <= k < a.len() implies a[k] == b[k] by {
        lemma_plus_coefficient(a, c, k);
        lemma_plus_coefficient(b, c, k);
        primes::lemma_congruent_add(
            a[k] + c[k],
            b[k] + c[k],
            -(c[k] as int),
            -(c[k] as int),
            p,
        );
        lemma_small_mod(a[k] as nat, p as nat);
        lemma_small_mod(b[k] as nat, p as nat);
    }
    assert(a =~= b);
}

/// What a sum reaches.
proof fn lemma_reach_plus(b: Seq<u64>, c: Seq<u64>, m: int)
    requires
        b.len() == c.len(),
        -b.len() <= m < b.len(),
    ensures
        primes::congruent(
            reach(extension::plus(b, c), m),
            reach(b, m) + reach(c, m),
            goldilocks::modulus(),
        ),
{
    let p = goldilocks::modulus();
    if m >= 0 {
        lemma_plus_coefficient(b, c, m);
    } else {
        let w = extension::spec_extension_w(b.len()) as int;
        let n = m + b.len();
        lemma_plus_coefficient(b, c, n);
        let u = b[n] as int;
        let v = c[n] as int;
        primes::lemma_congruent_mul(w, w, extension::plus(b, c)[n] as int, u + v, p);
        assert(w * (u + v) == w * u + w * v) by (nonlinear_arith);
    }
}

/// Multiplication distributes over addition.
#[verifier::rlimit(40)]
pub proof fn theorem_times_distributes(a: Seq<u64>, b: Seq<u64>, c: Seq<u64>)
    requires
        a.len() == b.len(),
        b.len() == c.len(),
    ensures
        extension::times(a, extension::plus(b, c)) == extension::plus(
            extension::times(a, b),
            extension::times(a, c),
        ),
        extension::times(extension::plus(b, c), a) == extension::plus(
            extension::times(b, a),
            extension::times(c, a),
        ),
{
    let p = goldilocks::modulus();
    let d = a.len();
    let s = extension::plus(b, c);
    let ab = extension::times(a, b);
    let ac = extension::times(a, c);
    assert forall|k: int| 0 <= k < d implies #[trigger] extension::times(a, s)[k]
        == extension::plus(ab, ac)[k] by {
        lemma_coefficient(a, s, k);
        lemma_coefficient(a, b, k);
        lemma_coefficient(a, c, k);
        lemma_plus_coefficient(ab, ac, k);
        let f = row(a, b, k);
        let g = row(a, c, k);
        let both = |i: int| f(i) + g(i);
        assert forall|i: int| 0 <= i < d implies primes::congruent(
            #[trigger] row(a, s, k)(i),
            both(i),
            p,
        ) by {
            let u = a[i] as int;
            let v = reach(b, k - i);
            let w = reach(c, k - i);
            lemma_reach_plus(b, c, k - i);
            primes::lemma_congruent_mul(u, u, reach(s, k - i), v + w, p);
            assert(u * (v + w) == u * v + u * w) by (nonlinear_arith);
        }
        transform::lemma_sum_congruent(d, row(a, s, k), both, p);
        transform::lemma_sum_add(d, f, g);
        primes::lemma_congruent_add(
            ab[k] as int,
            transform::sum(d, f),
            ac[k] as int,
            transform::sum(d, g),
            p,
        );
    }
    assert(extension::times(a, s) =~= extension::plus(ab, ac));
    theorem_times_commutes(a, s);
    theorem_times_commutes(a, b);
    theorem_times_commutes(a, c);
}

/// Zero times anything is zero.
pub proof fn theorem_times_zero(a: Seq<u64>)
    ensures
        extension::times(a, extension::zero(a.len())) == extension::zero(a.len()),
        extension::times(extension::zero(a.len()), a) == extension::zero(a.len()),
{
    let d = a.len();
    let z = extension::zero(d);
    assert forall|k: int| 0 <= k < d implies #[trigger] extension::times(z, a)[k] == 0 by {
        lemma_coefficient(z, a, k);
        assert forall|i: int| 0 <= i < d implies #[trigger] row(z, a, k)(i) == 0 by {
            let v = reach(a, k - i);
            assert(0 * v == 0) by (nonlinear_arith);
        }
        transform::lemma_sum_zero(d, row(z, a, k));
    }
    assert(extension::times(z, a) =~= z);
    theorem_times_commutes(a, z);
}

/// A constant times an element: every coefficient is multiplied.
pub proof fn theorem_times_constant(c: u64, a: Seq<u64>)
    ensures
        extension::times(extension::constant(c, a.len()), a) == Seq::new(
            a.len(),
            |k: int| ((c * a[k]) % goldilocks::modulus()) as u64,
        ),
{
    let p = goldilocks::modulus();
    let d = a.len();
    let e = extension::constant(c, d);
    assert forall|k: int| 0 <= k < d implies #[trigger] extension::times(e, a)[k] as int == (c
        * a[k]) % p by {
        lemma_coefficient(e, a, k);
        let f = row(e, a, k);
        let rest = |i: int| f(1 + i);
        transform::lemma_sum_split(1, (d - 1) as nat, f);
        assert forall|i: int| 0 <= i < d - 1 implies #[trigger] rest(i) == 0 by {
            let v = reach(a, k - (1 + i));
            assert(0 * v == 0) by (nonlinear_arith);
        }
        transform::lemma_sum_zero((d - 1) as nat, rest);
        reveal_with_fuel(transform::sum, 2);
        assert(f(0) == c * a[k]);
    }
    assert(extension::times(e, a) =~= Seq::new(a.len(), |k: int| ((c * a[k]) % p) as u64));
}

/// One is neutral.
pub proof fn theorem_times_one(a: Seq<u64>)
    requires
        reduced(a),
    ensures
        extension::times(a, extension::one(a.len())) == a,
        extension::times(extension::one(a.len()), a) == a,
{
    let p = goldilocks::modulus();
    theorem_times_constant(1, a);
    assert forall|k: int| 0 <= k < a.len() implies ((1 * a[k]) % p) as u64 == #[trigger] a[k] by {
        lemma_small_mod(a[k] as nat, p as nat);
    }
    assert(extension::times(extension::one(a.len()), a) =~= a);
    theorem_times_commutes(a, extension::one(a.len()));
}

/// The adjoined element.
pub open spec fn adjoined(d: nat) -> Seq<u64> {
    Seq::new(
        d,
        |k: int|
            if k == 1 {
                1
            } else {
                0
            },
    )
}

/// The adjoined element times another one: every coefficient moves up by one place, and the last one
/// comes round to the constant term, times 7, or times 3 in the extension of degree 5.
pub proof fn theorem_times_adjoined(a: Seq<u64>)
    requires
        extension::is_degree(a.len()),
    ensures
        extension::times(adjoined(a.len()), a) == Seq::new(
            a.len(),
            |k: int|
                if k > 0 {
                    (a[k - 1] as int % goldilocks::modulus()) as u64
                } else if a.len() == 5 {
                    ((3 * a.last()) % goldilocks::modulus()) as u64
                } else {
                    ((7 * a.last()) % goldilocks::modulus()) as u64
                },
        ),
{
    let p = goldilocks::modulus();
    let d = a.len();
    let e = adjoined(d);
    let product = extension::times(e, a);
    assert forall|k: int| 0 <= k < d implies #[trigger] product[k] as int == reach(a, k - 1)
        % p by {
        lemma_coefficient(e, a, k);
        let f = row(e, a, k);
        let rest = |i: int| f(2 + i);
        transform::lemma_sum_split(2, (d - 2) as nat, f);
        assert forall|i: int| 0 <= i < d - 2 implies #[trigger] rest(i) == 0 by {
            let v = reach(a, k - (2 + i));
            assert(0 * v == 0) by (nonlinear_arith);
        }
        transform::lemma_sum_zero((d - 2) as nat, rest);
        reveal_with_fuel(transform::sum, 3);
        let u = reach(a, k);
        let v = reach(a, k - 1);
        assert(0 * u == 0) by (nonlinear_arith);
        assert(1 * v == v) by (nonlinear_arith);
        assert(f(0) == 0 && f(1) == v);
    }
    assert(product =~= Seq::new(
        a.len(),
        |k: int|
            if k > 0 {
                (a[k - 1] as int % p) as u64
            } else if a.len() == 5 {
                ((3 * a.last()) % p) as u64
            } else {
                ((7 * a.last()) % p) as u64
            },
    ));
}

/// The factors of a product may change places.
pub proof fn lemma_times_swap(a: Seq<u64>, b: Seq<u64>, c: Seq<u64>)
    requires
        a.len() == b.len(),
        b.len() == c.len(),
    ensures
        extension::times(extension::times(a, b), c) == extension::times(extension::times(a, c), b),
{
    theorem_times_associates(a, b, c);
    theorem_times_commutes(b, c);
    theorem_times_associates(a, c, b);
}

/// Products may be regrouped.
pub proof fn lemma_times_interchange(a: Seq<u64>, b: Seq<u64>, c: Seq<u64>, e: Seq<u64>)
    requires
        a.len() == b.len(),
        b.len() == c.len(),
        c.len() == e.len(),
    ensures
        extension::times(extension::times(a, b), extension::times(c, e)) == extension::times(
            extension::times(a, c),
            extension::times(b, e),
        ),
{
    lemma_reduced(a, b);
    lemma_reduced(a, c);
    theorem_times_associates(extension::times(a, b), c, e);
    lemma_times_swap(a, b, c);
    theorem_times_associates(extension::times(a, c), b, e);
}

/// Powers are elements of the same extension, with reduced coefficients.
pub proof fn lemma_power_reduced(a: Seq<u64>, n: nat)
    ensures
        extension::power(a, n).len() == a.len(),
        reduced(extension::power(a, n)),
    decreases n,
{
    if n > 0 {
        lemma_power_reduced(a, (n - 1) as nat);
        lemma_reduced(extension::power(a, (n - 1) as nat), a);
    }
}

/// Exponents add up.
pub proof fn theorem_power_adds(a: Seq<u64>, m: nat, n: nat)
    ensures
        extension::times(extension::power(a, m), extension::power(a, n)) == extension::power(
            a,
            m + n,
        ),
    decreases n,
{
    lemma_power_reduced(a, m);
    if n == 0 {
        theorem_times_one(extension::power(a, m));
    } else {
        let k = (n - 1) as nat;
        lemma_power_reduced(a, k);
        theorem_power_adds(a, m, k);
        theorem_times_associates(extension::power(a, m), extension::power(a, k), a);
        assert((m + n - 1) as nat == m + k);
    }
}

/// The first power of an element is the element.
pub proof fn theorem_power_one(a: Seq<u64>)
    requires
        reduced(a),
    ensures
        extension::power(a, 1) == a,
{
    reveal_with_fuel(extension::power, 2);
    theorem_times_one(a);
}

/// The difference.
pub open spec fn minus(a: Seq<u64>, b: Seq<u64>) -> Seq<u64> {
    Seq::new(a.len(), |k: int| ((a[k] - b[k]) % goldilocks::modulus()) as u64)
}

/// A difference plus what was subtracted.
pub proof fn lemma_minus(a: Seq<u64>, b: Seq<u64>, c: Seq<u64>)
    requires
        a.len() == b.len(),
        b.len() == c.len(),
    ensures
        reduced(minus(a, b)),
        minus(a, b).len() == a.len(),
        extension::plus(minus(a, b), extension::plus(b, c)) == extension::plus(a, c),
{
    let p = goldilocks::modulus();
    let m = minus(a, b);
    let bc = extension::plus(b, c);
    assert forall|k: int| 0 <= k < a.len() implies #[trigger] m[k] < p by {
        lemma_mod_bound(a[k] - b[k], p);
    }
    assert forall|k: int| 0 <= k < a.len() implies #[trigger] extension::plus(m, bc)[k]
        == extension::plus(a, c)[k] by {
        lemma_mod_bound(a[k] - b[k], p);
        lemma_mod_twice(a[k] - b[k], p);
        lemma_plus_coefficient(b, c, k);
        lemma_plus_coefficient(m, bc, k);
        lemma_plus_coefficient(a, c, k);
        primes::lemma_congruent_add(m[k] as int, a[k] - b[k], bc[k] as int, b[k] + c[k], p);
    }
    assert(extension::plus(m, bc) =~= extension::plus(a, c));
}

/// A product with a difference, where the difference of the products is known.
pub proof fn lemma_times_minus(q: Seq<u64>, x: Seq<u64>, z: Seq<u64>, u: Seq<u64>, v: Seq<u64>)
    requires
        q.len() == x.len(),
        x.len() == z.len(),
        z.len() == u.len(),
        u.len() == v.len(),
        extension::plus(extension::times(q, x), v) == extension::plus(extension::times(q, z), u),
    ensures
        extension::times(q, minus(x, z)) == minus(u, v),
{
    let d = q.len();
    let o = extension::zero(d);
    let qx = extension::times(q, x);
    let qz = extension::times(q, z);
    let qm = extension::times(q, minus(x, z));
    lemma_reduced(q, x);
    lemma_reduced(q, z);
    lemma_minus(x, z, o);
    lemma_reduced(q, minus(x, z));
    // q * (x - z) + q * z == q * x
    assert(extension::plus(qm, qz) == qx) by {
        theorem_times_distributes(q, minus(x, z), extension::plus(z, o));
        theorem_times_distributes(q, z, o);
        theorem_times_distributes(q, x, o);
        theorem_times_zero(q);
        theorem_plus_zero(qz);
        theorem_plus_zero(qx);
    }
    let both = extension::plus(qz, v);
    lemma_reduced(qz, v);
    assert(extension::plus(qm, both) == extension::plus(qx, v)) by {
        theorem_plus_associates(qm, qz, v);
    }
    theorem_plus_commutes(qz, v);
    lemma_minus(u, v, qz);
    theorem_plus_commutes(u, qz);
    assert(extension::plus(minus(u, v), both) == extension::plus(qz, u));
    lemma_plus_cancels(qm, minus(u, v), both);
}

/// The base field is part of the extension: its sums and products are those of the extension.
pub proof fn theorem_base_field(a: u64, b: u64, d: nat)
    requires
        d > 0,
    ensures
        reduced(extension::from_base(a, d)),
        extension::from_base(0, d) == extension::zero(d),
        extension::from_base(1, d) == extension::one(d),
        extension::from_base(((a + b) % goldilocks::modulus()) as u64, d) == extension::plus(
            extension::from_base(a, d),
            extension::from_base(b, d),
        ),
        extension::from_base(((a * b) % goldilocks::modulus()) as u64, d) == extension::times(
            extension::from_base(a, d),
            extension::from_base(b, d),
        ),
        a < goldilocks::modulus() ==> extension::from_base(a, d)[0] == a,
        b < goldilocks::modulus() && extension::from_base(a, d) == extension::from_base(b, d)
            ==> a as int % goldilocks::modulus() == b,
{
    let p = goldilocks::modulus();
    let x = extension::from_base(a, d);
    let y = extension::from_base(b, d);
    lemma_small_mod(0, p as nat);
    lemma_small_mod(1, p as nat);
    lemma_mod_bound(a as int, p);
    lemma_mod_bound(b as int, p);
    lemma_mod_bound(a + b, p);
    lemma_mod_bound(a * b, p);
    lemma_mod_twice(a + b, p);
    lemma_mod_twice(a * b, p);
    lemma_add_mod_noop(a as int, b as int, p);
    assert(x[0] as int == a as int % p && y[0] as int == b as int % p);
    assert(extension::from_base(0, d) =~= extension::zero(d));
    assert(extension::from_base(1, d) =~= extension::one(d));
    assert(extension::from_base(((a + b) % p) as u64, d) =~= extension::plus(x, y));
    theorem_times_constant((a as int % p) as u64, y);
    vstd::arithmetic::div_mod::lemma_mul_mod_noop(a as int, b as int, p);
    let product = extension::times(x, y);
    assert forall|k: int| 0 <= k < d implies #[trigger] product[k] == extension::from_base(
        ((a * b) % p) as u64,
        d,
    )[k] by {
        if k > 0 {
            let u = a as int % p;
            assert(u * 0 == 0) by (nonlinear_arith);
        }
    }
    assert(product =~= extension::from_base(((a * b) % p) as u64, d));
    if a < p {
        lemma_small_mod(a as nat, p as nat);
    }
    if b < p {
        lemma_small_mod(b as nat, p as nat);
    }
}

} // verus!
