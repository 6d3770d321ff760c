//! Values of polynomials over an extension of the Goldilocks field.

use crate::fri::extension;
use crate::fri::ring;
use vstd::prelude::*;

verus! {

/// Whether all coefficients are elements of the extension of degree `d`.
pub open spec fn over(f: Seq<Seq<u64>>, d: nat) -> bool {
    forall|k: int| 0 <= k < f.len() ==> (#[trigger] f[k]).len() == d
}

/// The sum of `f[k] * x^k` over the first `m` coefficients.
pub open spec fn partial_value(f: Seq<Seq<u64>>, x: Seq<u64>, m: nat) -> Seq<u64>
    decreases m,
{
    if m == 0 {
        extension::zero(x.len())
    } else {
        let k = (m - 1) as nat;
        extension::plus(
            partial_value(f, x, k),
            extension::times(f[k as int], extension::power(x, k)),
        )
    }
}

/// The value of `f` at `x`: the sum of `f[k] * x^k` over all coefficients.
pub open spec fn value(f: Seq<Seq<u64>>, x: Seq<u64>) -> Seq<u64> {
    partial_value(f, x, f.len())
}

/// A polynomial over the base field, as one over the extension of degree `d`.
pub open spec fn lifted(f: Seq<u64>, d: nat) -> Seq<Seq<u64>> {
    Seq::new(f.len(), |k: int| extension::from_base(f[k], d))
}

/// A partial value is an element with reduced coefficients.
proof fn lemma_partial_reduced(f: Seq<Seq<u64>>, x: Seq<u64>, m: nat)
    ensures
        partial_value(f, x, m).len() == x.len(),
        ring::reduced(partial_value(f, x, m)),
    decreases m,
{
    if m > 0 {
        let k = (m - 1) as nat;
        lemma_partial_reduced(f, x, k);
        ring::lemma_reduced(
            partial_value(f, x, k),
            extension::times(f[k as int], extension::power(x, k)),
        );
    }
}

/// A value is an element with reduced coefficients.
pub proof fn lemma_value_reduced(f: Seq<Seq<u64>>, x: Seq<u64>)
    ensures
        value(f, x).len() == x.len(),
        ring::reduced(value(f, x)),
{
    lemma_partial_reduced(f, x, f.len());
}

/// The value of a tail is an element with reduced coefficients.
proof fn lemma_tail_reduced(f: Seq<Seq<u64>>, x: Seq<u64>, k: int)
    ensures
        extension::tail_value(f, x, k).len() == x.len(),
        ring::reduced(extension::tail_value(f, x, k)),
    decreases f.len() - k,
{
    if k < f.len() {
        lemma_tail_reduced(f, x, k + 1);
        let t = extension::tail_value(f, x, k + 1);
        ring::lemma_reduced(t, x);
        ring::lemma_reduced(extension::times(t, x), f[k]);
    }
}

/// The first `k` terms and `x^k` times the value of the tail from `k` on make up the value.
proof fn lemma_value_splits(f: Seq<Seq<u64>>, x: Seq<u64>, k: nat)
    requires
        over(f, x.len()),
        k <= f.len(),
    ensures
        extension::plus(
            partial_value(f, x, k),
            extension::times(extension::tail_value(f, x, k as int), extension::power(x, k)),
        ) == value(f, x),
    decreases f.len() - k,
{
    let v = partial_value(f, x, k);
    let s = extension::power(x, k);
    lemma_partial_reduced(f, x, k);
    ring::lemma_power_reduced(x, k);
    if k == f.len() {
        ring::theorem_times_zero(s);
        ring::theorem_plus_zero(v);
    } else {
        let t = extension::tail_value(f, x, k as int + 1);
        let tx = extension::times(t, x);
        lemma_value_splits(f, x, k + 1);
        lemma_tail_reduced(f, x, k as int + 1);
        ring::lemma_reduced(t, x);
        assert(f[k as int].len() == x.len());
        ring::theorem_times_distributes(s, tx, f[k as int]);
        ring::lemma_times_swap(t, x, s);
        ring::theorem_times_associates(t, s, x);
        assert(extension::power(x, k + 1) == extension::times(s, x));
        let low = extension::times(f[k as int], s);
        let high = extension::times(t, extension::power(x, k + 1));
        ring::lemma_reduced(f[k as int], s);
        ring::lemma_reduced(t, extension::power(x, k + 1));
        ring::theorem_plus_commutes(high, low);
        ring::theorem_plus_associates(v, low, high);
    }
}

/// The value, from the highest coefficient down.
pub proof fn lemma_value_tail(f: Seq<Seq<u64>>, x: Seq<u64>)
    requires
        over(f, x.len()),
    ensures
        value(f, x) == extension::tail_value(f, x, 0),
{
    let t = extension::tail_value(f, x, 0);
    lemma_value_splits(f, x, 0);
    lemma_tail_reduced(f, x, 0);
    ring::theorem_times_one(t);
    ring::theorem_plus_zero(t);
}

/// The tail of a sum.
#[verifier::rlimit(40)]
proof fn lemma_tail_sum(a: Seq<Seq<u64>>, b: Seq<Seq<u64>>, x: Seq<u64>, k: int)
    requires
        over(a, x.len()),
        over(b, x.len()),
        0 <= k,
    ensures
        extension::tail_value(extension::poly_sum(a, b, x.len()), x, k) == extension::plus(
            extension::tail_value(a, x, k),
            extension::tail_value(b, x, k),
        ),
    decreases a.len() + b.len() - k,
{
    let d = x.len();
    let s = extension::poly_sum(a, b, d);
    let o = extension::zero(d);
    if k >= s.len() {
        ring::theorem_plus_zero(o);
    } else {
        lemma_tail_sum(a, b, x, k + 1);
        let ta = extension::tail_value(a, x, k + 1);
        let tb = extension::tail_value(b, x, k + 1);
        lemma_tail_reduced(a, x, k + 1);
        lemma_tail_reduced(b, x, k + 1);
        lemma_tail_reduced(a, x, k);
        lemma_tail_reduced(b, x, k);
        let tax = extension::times(ta, x);
        let tbx = extension::times(tb, x);
        ring::lemma_reduced(ta, x);
        ring::lemma_reduced(tb, x);
        if k >= b.len() {
            assert(a[k].len() == d);
            ring::theorem_plus_zero(ta);
            ring::theorem_plus_zero(extension::tail_value(a, x, k));
        } else if k >= a.len() {
            assert(b[k].len() == d);
            ring::theorem_plus_zero(tb);
            ring::theorem_plus_associates(tbx, o, b[k]);
            ring::theorem_plus_zero(tbx);
            ring::theorem_plus_zero(extension::tail_value(b, x, k));
        } else {
            assert(a[k].len() == d);
            assert(b[k].len() == d);
            ring::theorem_times_distributes(x, ta, tb);
            ring::lemma_plus_interchange(tax, tbx, a[k], b[k]);
        }
    }
}

/// A sum of polynomials is a polynomial.
pub proof fn lemma_over_sum(a: Seq<Seq<u64>>, b: Seq<Seq<u64>>, d: nat)
    requires
        over(a, d),
        over(b, d),
    ensures
        over(extension::poly_sum(a, b, d), d),
{
    let s = extension::poly_sum(a, b, d);
    assert forall|k: int| 0 <= k < s.len() implies (#[trigger] s[k]).len() == d by {
        if k < a.len() {
            assert(a[k].len() == d);
        }
        if k < b.len() {
            assert(b[k].len() == d);
        }
    }
}

/// The value of a sum is the sum of the values.
pub proof fn theorem_value_of_sum(a: Seq<Seq<u64>>, b: Seq<Seq<u64>>, x: Seq<u64>)
    requires
        over(a, x.len()),
        over(b, x.len()),
    ensures
        value(extension::poly_sum(a, b, x.len()), x) == extension::plus(value(a, x), value(b, x)),
{
    lemma_over_sum(a, b, x.len());
    lemma_value_tail(extension::poly_sum(a, b, x.len()), x);
    lemma_value_tail(a, x);
    lemma_value_tail(b, x);
    lemma_tail_sum(a, b, x, 0);
}

/// The tail of a multiple.
proof fn lemma_tail_multiple(f: Seq<Seq<u64>>, y: Seq<u64>, x: Seq<u64>, k: int)
    requires
        over(f, x.len()),
        y.len() == x.len(),
        0 <= k,
    ensures
        extension::tail_value(extension::poly_times(f, y), x, k) == extension::times(
            extension::tail_value(f, x, k),
            y,
        ),
    decreases f.len() - k,
{
    if k >= f.len() {
        ring::theorem_times_zero(y);
    } else {
        lemma_tail_multiple(f, y, x, k + 1);
        let t = extension::tail_value(f, x, k + 1);
        lemma_tail_reduced(f, x, k + 1);
        ring::lemma_reduced(t, x);
        assert(f[k].len() == x.len());
        ring::theorem_times_distributes(y, extension::times(t, x), f[k]);
        ring::lemma_times_swap(t, x, y);
    }
}

/// The value of a multiple is the multiple of the value.
pub proof fn theorem_value_of_multiple(f: Seq<Seq<u64>>, y: Seq<u64>, x: Seq<u64>)
    requires
        over(f, x.len()),
        y.len() == x.len(),
    ensures
        value(extension::poly_times(f, y), x) == extension::times(value(f, x), y),
{
    let g = extension::poly_times(f, y);
    assert forall|k: int| 0 <= k < g.len() implies (#[trigger] g[k]).len() == x.len() by {
        assert(f[k].len() == x.len());
    }
    lemma_value_tail(g, x);
    lemma_value_tail(f, x);
    lemma_tail_multiple(f, y, x, 0);
}

/// The value of a multiple of a polynomial over the base field.
pub proof fn theorem_value_of_base_multiple(f: Seq<u64>, y: Seq<u64>, x: Seq<u64>)
    requires
        y.len() == x.len(),
    ensures
        value(extension::base_poly_times(f, y), x) == extension::times(
            value(lifted(f, x.len()), x),
            y,
        ),
{
    let g = lifted(f, x.len());
    assert(extension::base_poly_times(f, y) =~= extension::poly_times(g, y)) by {
        assert forall|k: int| 0 <= k < f.len() implies #[trigger] extension::base_poly_times(
            f,
            y,
        )[k] == extension::poly_times(g, y)[k] by {
            ring::theorem_times_commutes(y, extension::from_base(f[k], x.len()));
        }
    }
    theorem_value_of_multiple(g, y, x);
}

/// The tail of a quotient by `X - z`.
#[verifier::rlimit(40)]
proof fn lemma_tail_quotient(f: Seq<Seq<u64>>, z: Seq<u64>, x: Seq<u64>, k: int)
    requires
        over(f, x.len()),
        z.len() == x.len(),
        0 <= k,
    ensures
        ({
            let t = extension::tail_value(extension::linear_quotient(f, z), x, k);
            extension::plus(extension::times(t, x), extension::tail_value(f, z, k))
                == extension::plus(extension::times(t, z), extension::tail_value(f, x, k))
        }),
    decreases f.len() - k,
{
    let d = x.len();
    let o = extension::zero(d);
    let q = extension::linear_quotient(f, z);
    if k >= f.len() {
        ring::theorem_times_zero(x);
        ring::theorem_times_zero(z);
    } else if k >= q.len() {
        // The last coefficient alone is left.
        ring::theorem_times_zero(x);
        ring::theorem_times_zero(z);
        assert(extension::tail_value(f, z, k + 1) == o);
        assert(extension::tail_value(f, x, k + 1) == o);
    } else {
        lemma_tail_quotient(f, z, x, k + 1);
        let t1 = extension::tail_value(q, x, k + 1);
        let t = extension::tail_value(q, x, k);
        let fz1 = extension::tail_value(f, z, k + 1);
        let fx1 = extension::tail_value(f, x, k + 1);
        let c = f[k];
        assert(c.len() == d);
        lemma_tail_reduced(q, x, k + 1);
        lemma_tail_reduced(q, x, k);
        lemma_tail_reduced(f, z, k + 1);
        lemma_tail_reduced(f, x, k + 1);
        let t1x = extension::times(t1, x);
        let t1z = extension::times(t1, z);
        let fz1z = extension::times(fz1, z);
        let fx1x = extension::times(fx1, x);
        let fz1x = extension::times(fz1, x);
        ring::lemma_reduced(t1, x);
        ring::lemma_reduced(t1, z);
        ring::lemma_reduced(fz1, z);
        ring::lemma_reduced(fx1, x);
        ring::lemma_reduced(fz1, x);
        assert(q[k] == fz1);
        assert(t == extension::plus(t1x, fz1));
        // t1 * x + f(z) == t1 * z + f(x) one place further, times x
        let t1xx = extension::times(t1x, x);
        let t1zx = extension::times(t1z, x);
        let t1xz = extension::times(t1x, z);
        ring::lemma_reduced(t1x, x);
        ring::lemma_reduced(t1z, x);
        ring::lemma_reduced(t1x, z);
        ring::theorem_times_distributes(x, t1x, fz1);
        ring::theorem_times_distributes(x, t1z, fx1);
        assert(extension::times(t, x) == extension::plus(t1zx, fx1x));
        ring::lemma_times_swap(t1, x, z);
        ring::theorem_times_distributes(z, t1x, fz1);
        assert(extension::times(t, z) == extension::plus(t1zx, fz1z));
        // (t1zx + fx1x) + (fz1z + c) == (t1zx + fz1z) + (fx1x + c)
        ring::lemma_plus_interchange(t1zx, fx1x, fz1z, c);
    }
}

/// A quotient is a polynomial.
pub proof fn lemma_over_quotient(f: Seq<Seq<u64>>, z: Seq<u64>)
    ensures
        over(extension::linear_quotient(f, z), z.len()),
{
    let q = extension::linear_quotient(f, z);
    assert forall|k: int| 0 <= k < q.len() implies (#[trigger] q[k]).len() == z.len() by {
        lemma_tail_reduced(f, z, k + 1);
    }
}

/// The quotient of `f` by `X - z`: its value at `x`, times `x - z`, is `f(x) - f(z)`.
pub proof fn theorem_value_of_quotient(f: Seq<Seq<u64>>, z: Seq<u64>, x: Seq<u64>)
    requires
        over(f, x.len()),
        z.len() == x.len(),
    ensures
        extension::times(value(extension::linear_quotient(f, z), x), ring::minus(x, z))
            == ring::minus(value(f, x), value(f, z)),
{
    let q = extension::linear_quotient(f, z);
    lemma_over_quotient(f, z);
    lemma_value_tail(q, x);
    lemma_value_tail(f, x);
    lemma_value_tail(f, z);
    lemma_value_reduced(q, x);
    lemma_value_reduced(f, x);
    lemma_value_reduced(f, z);
    lemma_tail_quotient(f, z, x, 0);
    ring::lemma_times_minus(value(q, x), x, z, value(f, x), value(f, z));
}

/// The tails of `X * f`.
proof fn lemma_tail_raised(f: Seq<Seq<u64>>, x: Seq<u64>, k: int)
    requires
        0 <= k,
    ensures
        extension::tail_value(seq![extension::zero(x.len())] + f, x, k + 1)
            == extension::tail_value(f, x, k),
    decreases f.len() - k,
{
    if k < f.len() {
        lemma_tail_raised(f, x, k + 1);
    }
}

/// A zero coefficient in front multiplies the value by `x`.
pub proof fn theorem_value_of_raised(f: Seq<Seq<u64>>, x: Seq<u64>)
    requires
        over(f, x.len()),
    ensures
        value(seq![extension::zero(x.len())] + f, x) == extension::times(x, value(f, x)),
{
    let o = extension::zero(x.len());
    let g = seq![o] + f;
    assert forall|k: int| 0 <= k < g.len() implies (#[trigger] g[k]).len() == x.len() by {
        if k > 0 {
            assert(f[k - 1].len() == x.len());
        }
    }
    lemma_value_tail(g, x);
    lemma_value_tail(f, x);
    lemma_value_reduced(f, x);
    lemma_tail_raised(f, x, 0);
    ring::lemma_reduced(value(f, x), x);
    ring::theorem_plus_zero(extension::times(value(f, x), x));
    ring::theorem_times_commutes(x, value(f, x));
}

/// Zero coefficients at the end change no partial value.
proof fn lemma_partial_padded(f: Seq<Seq<u64>>, g: Seq<Seq<u64>>, x: Seq<u64>, m: nat)
    requires
        f.len() <= g.len(),
        m <= g.len(),
        forall|k: int| 0 <= k < f.len() ==> #[trigger] g[k] == f[k],
        forall|k: int| f.len() <= k < g.len() ==> #[trigger] g[k] == extension::zero(x.len()),
    ensures
        m <= f.len() ==> partial_value(g, x, m) == partial_value(f, x, m),
        m >= f.len() ==> partial_value(g, x, m) == value(f, x),
    decreases m,
{
    if m > 0 {
        let k = (m - 1) as nat;
        lemma_partial_padded(f, g, x, k);
        if m <= f.len() {
            assert(g[k as int] == f[k as int]);
        } else {
            assert(g[k as int] == extension::zero(x.len()));
            lemma_value_reduced(f, x);
            ring::lemma_power_reduced(x, k);
            ring::theorem_times_zero(extension::power(x, k));
            ring::theorem_plus_zero(value(f, x));
        }
    }
}

/// Zero coefficients at the end do not change the value.
pub proof fn theorem_value_of_padded(f: Seq<Seq<u64>>, g: Seq<Seq<u64>>, x: Seq<u64>)
    requires
        f.len() <= g.len(),
        forall|k: int| 0 <= k < f.len() ==> #[trigger] g[k] == f[k],
        forall|k: int| f.len() <= k < g.len() ==> #[trigger] g[k] == extension::zero(x.len()),
    ensures
        value(g, x) == value(f, x),
{
    lemma_partial_padded(f, g, x, g.len());
}

} // verus!
