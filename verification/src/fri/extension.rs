//! Extensions of the Goldilocks field, and polynomials over them.
//!
//! An element of the extension of degree `d` is the sequence of its `d` coefficients: `a` stands for
//! `a[0] + a[1] * x + ... + a[d-1] * x^(d-1)`, where `x^d` is an element of the base field.

use crate::fri::ring;
use crate::fri::values;
use crate::hash::metal::ntt::mul_mod;
use crate::math::goldilocks;
use vstd::arithmetic::div_mod::*;
use vstd::arithmetic::mul::*;
use vstd::prelude::*;

verus! {

broadcast use vstd::array::group_array_axioms;

/// Whether there is an extension of degree `d`.
pub open spec fn is_degree(d: nat) -> bool {
    d == 2 || d == 4 || d == 5
}

/// The power `x^d` of the adjoined element `x` in the extension of degree `d`.
pub open spec fn spec_extension_w(d: nat) -> u64 {
    if d == 5 {
        3
    } else {
        7
    }
}

/// The power `x^d` of the adjoined element `x` in the extension of degree `d`.
pub fn extension_w(d: usize) -> (r: u64)
    requires
        is_degree(d as nat),
    ensures
        r == spec_extension_w(d as nat),
{
    if d == 5 {
        3
    } else {
        7
    }
}

/// The element of degree `d` with `c` as its constant coefficient and no other.
pub open spec fn constant(c: u64, d: nat) -> Seq<u64> {
    Seq::new(
        d,
        |k: int|
            if k == 0 {
                c
            } else {
                0
            },
    )
}

/// Zero.
pub open spec fn zero(d: nat) -> Seq<u64> {
    constant(0, d)
}

/// One.
pub open spec fn one(d: nat) -> Seq<u64> {
    constant(1, d)
}

/// An element of the base field.
pub open spec fn from_base(c: u64, d: nat) -> Seq<u64> {
    constant((c as int % goldilocks::modulus()) as u64, d)
}

/// The sum.
pub open spec fn plus(a: Seq<u64>, b: Seq<u64>) -> Seq<u64> {
    Seq::new(a.len(), |k: int| ((a[k] + b[k]) % goldilocks::modulus()) as u64)
}

/// What coefficient `i` of `a` contributes to coefficient `k` of the product with `b`: its product with
/// the coefficient of `b` that goes with it, times `x^d` where the exponents add up to `k + d`.
pub open spec fn contribution(a: Seq<u64>, b: Seq<u64>, k: int, i: int) -> int {
    if i <= k {
        a[i] * b[k - i]
    } else {
        spec_extension_w(a.len()) * (a[i] * b[k + a.len() - i])
    }
}

/// The contributions of the first `m` coefficients of `a`.
pub open spec fn contributions(a: Seq<u64>, b: Seq<u64>, k: int, m: nat) -> int
    decreases m,
{
    if m == 0 {
        0
    } else {
        contributions(a, b, k, (m - 1) as nat) + contribution(a, b, k, m - 1)
    }
}

/// The product.
pub open spec fn times(a: Seq<u64>, b: Seq<u64>) -> Seq<u64> {
    Seq::new(
        a.len(),
        |k: int| (contributions(a, b, k, a.len()) % goldilocks::modulus()) as u64,
    )
}

/// The product of `n` factors `a`.
pub open spec fn power(a: Seq<u64>, n: nat) -> Seq<u64>
    decreases n,
{
    if n == 0 {
        one(a.len())
    } else {
        times(power(a, (n - 1) as nat), a)
    }
}

/// An element of the extension of degree `D`, for `D` one of 2, 4 and 5.
#[derive(Clone, Copy, Debug, PartialEq, Eq)]
pub struct Extension<const D: usize> {
    pub coefficients: [u64; D],
}

/// `c0 + c1 * x` with `x^2 = 7`.
pub type QuadraticExtension = Extension<2>;

impl<const D: usize> View for Extension<D> {
    type V = Seq<u64>;

    open spec fn view(&self) -> Seq<u64> {
        self.coefficients@
    }
}

impl<const D: usize> Extension<D> {
    /// The element with `c` as its constant coefficient and no other.
    fn new_constant(c: u64) -> (r: Self)
        ensures
            r@ == constant(c, D as nat),
    {
        let mut coefficients: [u64; D] = [0u64; D];
        if D > 0 {
            coefficients[0] = c;
        }
        proof {
            assert(coefficients@ =~= constant(c, D as nat));
        }
        Extension { coefficients }
    }

    /// Zero.
    pub fn zero() -> (r: Self)
        ensures
            r@ == zero(D as nat),
    {
        Self::new_constant(0)
    }

    /// One.
    pub fn one() -> (r: Self)
        ensures
            r@ == one(D as nat),
    {
        Self::new_constant(1)
    }

    /// An element of the base field.
    pub fn from_base(c: u64) -> (r: Self)
        ensures
            r@ == from_base(c, D as nat),
    {
        Self::new_constant(c % goldilocks::GOLDILOCKS_PRIME)
    }

    /// The sum.
    pub fn plus(self, other: Self) -> (r: Self)
        ensures
            r@ == plus(self@, other@),
    {
        let mut coefficients: [u64; D] = self.coefficients;
        let mut k: usize = 0;
        while k < D
            invariant
                k <= D,
                forall|j: int|
                    0 <= j < k ==> #[trigger] coefficients@[j] == plus(self@, other@)[j],
            decreases D - k,
        {
            coefficients[k] = add_mod(self.coefficients[k], other.coefficients[k]);
            k = k + 1;
        }
        proof {
            assert(coefficients@ =~= plus(self@, other@));
        }
        Extension { coefficients }
    }

    /// Coefficient `k` of the product.
    fn product_coefficient(&self, other: &Self, k: usize) -> (r: u64)
        requires
            is_degree(D as nat),
            k < D,
        ensures
            r == times(self@, other@)[k as int],
    {
        let p: u64 = goldilocks::GOLDILOCKS_PRIME;
        let w: u64 = extension_w(D);
        let ghost m = goldilocks::modulus();
        let mut sum: u64 = 0;
        let mut i: usize = 0;
        while i < D
            invariant
                i <= D,
                k < D,
                p as int == m,
                m == goldilocks::modulus(),
                w == spec_extension_w(D as nat),
                sum as int == contributions(self@, other@, k as int, i as nat) % m,
            decreases D - i,
        {
            let term: u64 = if i <= k {
                mul_mod(self.coefficients[i], other.coefficients[k - i], p)
            } else {
                let inner: u64 = mul_mod(self.coefficients[i], other.coefficients[D - i + k], p);
                proof {
                    lemma_mul_mod_noop_right(
                        w as int,
                        self@[i as int] * other@[D - i + k],
                        m,
                    );
                }
                mul_mod(w, inner, p)
            };
            proof {
                lemma_add_mod_noop(
                    contributions(self@, other@, k as int, i as nat),
                    contribution(self@, other@, k as int, i as int),
                    m,
                );
            }
            sum = add_mod(sum, term);
            i = i + 1;
        }
        sum
    }

    /// The product.
    pub fn times(self, other: Self) -> (r: Self)
        requires
            is_degree(D as nat),
        ensures
            r@ == times(self@, other@),
    {
        let mut coefficients: [u64; D] = self.coefficients;
        let mut k: usize = 0;
        while k < D
            invariant
                is_degree(D as nat),
                k <= D,
                forall|j: int|
                    0 <= j < k ==> #[trigger] coefficients@[j] == times(self@, other@)[j],
            decreases D - k,
        {
            coefficients[k] = self.product_coefficient(&other, k);
            k = k + 1;
        }
        proof {
            assert(coefficients@ =~= times(self@, other@));
        }
        Extension { coefficients }
    }

    /// The product of `n` factors `self`.
    pub fn exp(self, n: usize) -> (r: Self)
        requires
            is_degree(D as nat),
        ensures
            r@ == power(self@, n as nat),
    {
        let mut r: Self = Self::one();
        let mut i: usize = 0;
        while i < n
            invariant
                is_degree(D as nat),
                i <= n,
                r@ == power(self@, i as nat),
            decreases n - i,
        {
            r = r.times(self);
            i = i + 1;
        }
        r
    }
}

/// The sum in the base field.
pub fn add_mod(a: u64, b: u64) -> (r: u64)
    ensures
        r as int == (a + b) % goldilocks::modulus(),
{
    let sum: u128 = (a as u128) + (b as u128);
    (sum % (goldilocks::GOLDILOCKS_PRIME as u128)) as u64
}

/// The coefficients of a polynomial over an extension.
pub open spec fn elements<const D: usize>(f: Seq<Extension<D>>) -> Seq<Seq<u64>> {
    Seq::new(f.len(), |k: int| f[k]@)
}

/// The coefficients of a polynomial are those that it consists of, in their order.
pub proof fn theorem_elements<const D: usize>(f: Seq<Extension<D>>, k: int)
    requires
        0 <= k < f.len(),
    ensures
        elements(f).len() == f.len(),
        elements(f)[k].len() == D,
        forall|i: int| 0 <= i < D ==> #[trigger] elements(f)[k][i] == f[k].coefficients[i],
{
}

/// The sum of two polynomials over the extension of degree `d`.
pub open spec fn poly_sum(a: Seq<Seq<u64>>, b: Seq<Seq<u64>>, d: nat) -> Seq<Seq<u64>> {
    Seq::new(
        if a.len() >= b.len() {
            a.len()
        } else {
            b.len()
        },
        |k: int|
            if k >= b.len() {
                a[k]
            } else if k >= a.len() {
                plus(zero(d), b[k])
            } else {
                plus(a[k], b[k])
            },
    )
}

/// The sum of two polynomials.
pub fn add_polys<const D: usize>(a: &Vec<Extension<D>>, b: &Vec<Extension<D>>) -> (r: Vec<
    Extension<D>,
>)
    ensures
        elements(r@) == poly_sum(elements(a@), elements(b@), D as nat),
        forall|x: Seq<u64>|
            x.len() == D ==> #[trigger] values::value(elements(r@), x) == plus(
                values::value(elements(a@), x),
                values::value(elements(b@), x),
            ),
{
    let len: usize = if a.len() >= b.len() {
        a.len()
    } else {
        b.len()
    };
    let ghost wanted = poly_sum(elements(a@), elements(b@), D as nat);
    let mut r: Vec<Extension<D>> = Vec::with_capacity(len);
    let mut k: usize = 0;
    while k < len
        invariant
            k <= len == wanted.len(),
            wanted == poly_sum(elements(a@), elements(b@), D as nat),
            r@.len() == k,
            forall|j: int| 0 <= j < k ==> (#[trigger] r@[j])@ == wanted[j],
        decreases len - k,
    {
        let c: Extension<D> = if k >= b.len() {
            a[k]
        } else if k >= a.len() {
            Extension::zero().plus(b[k])
        } else {
            a[k].plus(b[k])
        };
        r.push(c);
        k = k + 1;
    }
    proof {
        assert(elements(r@) =~= wanted);
        assert forall|x: Seq<u64>| x.len() == D implies #[trigger] values::value(elements(r@), x)
            == plus(values::value(elements(a@), x), values::value(elements(b@), x)) by {
            values::theorem_value_of_sum(elements(a@), elements(b@), x);
        }
    }
    r
}

/// A polynomial over the base field, times an element of the extension.
pub open spec fn base_poly_times(f: Seq<u64>, x: Seq<u64>) -> Seq<Seq<u64>> {
    Seq::new(f.len(), |k: int| times(x, from_base(f[k], x.len())))
}

/// A polynomial over the base field, times an element of the extension.
pub fn mul_extension<const D: usize>(f: &Vec<u64>, x: Extension<D>) -> (r: Vec<Extension<D>>)
    requires
        is_degree(D as nat),
    ensures
        elements(r@) == base_poly_times(f@, x@),
        forall|y: Seq<u64>|
            y.len() == D ==> #[trigger] values::value(elements(r@), y) == times(
                values::value(values::lifted(f@, D as nat), y),
                x@,
            ),
{
    let mut r: Vec<Extension<D>> = Vec::with_capacity(f.len());
    let mut k: usize = 0;
    while k < f.len()
        invariant
            is_degree(D as nat),
            k <= f.len(),
            r@.len() == k,
            forall|j: int| 0 <= j < k ==> (#[trigger] r@[j])@ == base_poly_times(f@, x@)[j],
        decreases f.len() - k,
    {
        r.push(x.times(Extension::from_base(f[k])));
        k = k + 1;
    }
    proof {
        assert(elements(r@) =~= base_poly_times(f@, x@));
        assert forall|y: Seq<u64>| y.len() == D implies #[trigger] values::value(elements(r@), y)
            == times(values::value(values::lifted(f@, D as nat), y), x@) by {
            values::theorem_value_of_base_multiple(f@, x@, y);
        }
    }
    r
}

/// A polynomial, times an element of the extension.
pub open spec fn poly_times(f: Seq<Seq<u64>>, x: Seq<u64>) -> Seq<Seq<u64>> {
    Seq::new(f.len(), |k: int| times(f[k], x))
}

/// A polynomial, times an element of the extension.
pub fn scale_poly<const D: usize>(f: &Vec<Extension<D>>, x: Extension<D>) -> (r: Vec<Extension<D>>)
    requires
        is_degree(D as nat),
    ensures
        elements(r@) == poly_times(elements(f@), x@),
        forall|y: Seq<u64>|
            y.len() == D ==> #[trigger] values::value(elements(r@), y) == times(
                values::value(elements(f@), y),
                x@,
            ),
{
    let mut r: Vec<Extension<D>> = Vec::with_capacity(f.len());
    let mut k: usize = 0;
    while k < f.len()
        invariant
            is_degree(D as nat),
            k <= f.len(),
            r@.len() == k,
            forall|j: int|
                0 <= j < k ==> (#[trigger] r@[j])@ == poly_times(elements(f@), x@)[j],
        decreases f.len() - k,
    {
        r.push(f[k].times(x));
        k = k + 1;
    }
    proof {
        assert(elements(r@) =~= poly_times(elements(f@), x@));
        assert forall|y: Seq<u64>| y.len() == D implies #[trigger] values::value(elements(r@), y)
            == times(values::value(elements(f@), y), x@) by {
            values::theorem_value_of_multiple(elements(f@), x@, y);
        }
    }
    r
}

/// The value at `z` of the polynomial whose coefficients are those of `f` from index `k` on.
pub open spec fn tail_value(f: Seq<Seq<u64>>, z: Seq<u64>, k: int) -> Seq<u64>
    decreases f.len() - k,
{
    if k >= f.len() {
        zero(z.len())
    } else {
        plus(times(tail_value(f, z, k + 1), z), f[k])
    }
}

/// The quotient of `f` by `X - z`, without remainder.
pub open spec fn linear_quotient(f: Seq<Seq<u64>>, z: Seq<u64>) -> Seq<Seq<u64>> {
    Seq::new(
        if f.len() > 0 {
            (f.len() - 1) as nat
        } else {
            0
        },
        |k: int| tail_value(f, z, k + 1),
    )
}

/// The quotient of `f` by `X - z`, without remainder.
pub fn divide_by_linear<const D: usize>(f: &Vec<Extension<D>>, z: Extension<D>) -> (r: Vec<
    Extension<D>,
>)
    requires
        is_degree(D as nat),
    ensures
        elements(r@) == linear_quotient(elements(f@), z@),
        forall|x: Seq<u64>|
            x.len() == D ==> times(
                #[trigger] values::value(elements(r@), x),
                ring::minus(x, z@),
            ) == ring::minus(values::value(elements(f@), x), values::value(elements(f@), z@)),
{
    let n: usize = f.len();
    let ghost g = elements(f@);
    let ghost wanted = linear_quotient(g, z@);
    let mut values: Vec<Extension<D>> = Vec::with_capacity(n);
    let mut acc: Extension<D> = Extension::zero();
    let mut i: usize = n;
    // Highest degree first.
    while i > 1
        invariant
            is_degree(D as nat),
            i <= n == f@.len(),
            n > 0 ==> i >= 1,
            g == elements(f@),
            acc@ == tail_value(g, z@, i as int),
            values@.len() == n - i,
            forall|j: int|
                0 <= j < values@.len() ==> (#[trigger] values@[j])@ == tail_value(
                    g,
                    z@,
                    n - 1 - j,
                ),
        decreases i,
    {
        i = i - 1;
        acc = acc.times(z).plus(f[i]);
        values.push(acc);
    }
    let mut r: Vec<Extension<D>> = Vec::with_capacity(n);
    let mut k: usize = values.len();
    while k > 0
        invariant
            k <= values@.len(),
            n == f@.len(),
            g == elements(f@),
            wanted == linear_quotient(g, z@),
            values@.len() == wanted.len(),
            n > 0 ==> values@.len() == n - 1,
            forall|j: int|
                0 <= j < values@.len() ==> (#[trigger] values@[j])@ == tail_value(
                    g,
                    z@,
                    n - 1 - j,
                ),
            r@.len() == values@.len() - k,
            forall|j: int| 0 <= j < r@.len() ==> (#[trigger] r@[j])@ == wanted[j],
        decreases k,
    {
        k = k - 1;
        r.push(values[k]);
    }
    proof {
        assert(elements(r@) =~= wanted);
        assert forall|x: Seq<u64>| x.len() == D implies times(
            #[trigger] values::value(elements(r@), x),
            ring::minus(x, z@),
        ) == ring::minus(values::value(elements(f@), x), values::value(elements(f@), z@)) by {
            values::theorem_value_of_quotient(elements(f@), z@, x);
        }
    }
    r
}

/// Division with remainder: `f = (X - z) * q + f(z)`, coefficient by coefficient. Coefficient `k` of
/// `X * q` is that of `f` plus `z` times that of `q`, and `f(z)` is the constant term of `f` plus `z`
/// times that of `q`.
pub proof fn theorem_linear_division(f: Seq<Seq<u64>>, z: Seq<u64>, k: int)
    requires
        0 <= k < f.len(),
    ensures
        ({
            let q = linear_quotient(f, z);
            let below = if k == 0 {
                tail_value(f, z, 0)
            } else {
                q[k - 1]
            };
            let same = if k < q.len() {
                q[k]
            } else {
                zero(z.len())
            };
            below == plus(times(same, z), f[k])
        }),
{
    let q = linear_quotient(f, z);
    assert(tail_value(f, z, k) == plus(times(tail_value(f, z, k + 1), z), f[k]));
    if k < q.len() {
        assert(q[k] == tail_value(f, z, k + 1));
    } else {
        assert(tail_value(f, z, k + 1) == zero(z.len()));
    }
}

} // verus!
