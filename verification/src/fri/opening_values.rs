//! What the polynomials that open others are, coefficient by coefficient and by their values.

use crate::fri::extension;
use crate::fri::openings::{self, FriBatchInfo, FriPolynomialInfo};
use crate::fri::oracle::PolynomialBatch;
use crate::fri::ring;
use crate::fri::values;
use crate::math::goldilocks;
use vstd::arithmetic::div_mod::*;
use vstd::prelude::*;

verus! {

broadcast use vstd::array::group_array_axioms;

/// Coefficient `k` of a polynomial over the extension of degree `d`, zero beyond its last one.
pub open spec fn coefficient(f: Seq<Seq<u64>>, k: int, d: nat) -> Seq<u64> {
    if 0 <= k < f.len() {
        f[k]
    } else {
        extension::zero(d)
    }
}

/// Coefficient `k` of a polynomial over the base field, zero beyond its last one.
pub open spec fn base_coefficient(f: Seq<u64>, k: int) -> u64 {
    if 0 <= k < f.len() {
        f[k]
    } else {
        0
    }
}

/// The polynomial that `info` names: number `polynomial_index` of oracle `oracle_index`.
pub open spec fn named(oracles: Seq<PolynomialBatch>, info: FriPolynomialInfo) -> Seq<u64> {
    oracles[info.oracle_index as int].polynomials@[info.polynomial_index as int]@
}

/// `c_j + alpha * (c_(j+1) + alpha * (c_(j+2) + ...))`, where `c_i` is coefficient `k` of polynomial
/// `i` of a batch.
pub open spec fn folded_coefficient(
    oracles: Seq<PolynomialBatch>,
    infos: Seq<FriPolynomialInfo>,
    alpha: Seq<u64>,
    k: int,
    j: int,
) -> Seq<u64>
    decreases infos.len() - j,
{
    if j >= infos.len() {
        extension::zero(alpha.len())
    } else {
        extension::plus(
            extension::from_base(
                base_coefficient(named(oracles, infos[j]), k),
                alpha.len(),
            ),
            extension::times(alpha, folded_coefficient(oracles, infos, alpha, k, j + 1)),
        )
    }
}

/// `f_j(x) + alpha * (f_(j+1)(x) + alpha * (f_(j+2)(x) + ...))` for the polynomials `f_i` of a batch.
pub open spec fn folded_value(
    oracles: Seq<PolynomialBatch>,
    infos: Seq<FriPolynomialInfo>,
    alpha: Seq<u64>,
    x: Seq<u64>,
    j: int,
) -> Seq<u64>
    decreases infos.len() - j,
{
    if j >= infos.len() {
        extension::zero(alpha.len())
    } else {
        extension::plus(
            values::value(
                values::lifted(named(oracles, infos[j]), alpha.len()),
                x,
            ),
            extension::times(alpha, folded_value(oracles, infos, alpha, x, j + 1)),
        )
    }
}

/// A folded coefficient is an element with reduced coefficients.
proof fn lemma_folded_reduced(
    oracles: Seq<PolynomialBatch>,
    infos: Seq<FriPolynomialInfo>,
    alpha: Seq<u64>,
    k: int,
    j: int,
)
    ensures
        folded_coefficient(oracles, infos, alpha, k, j).len() == alpha.len(),
        ring::reduced(folded_coefficient(oracles, infos, alpha, k, j)),
{
    if j < infos.len() {
        ring::lemma_reduced(
            extension::from_base(
                base_coefficient(openings::coefficients(oracles, infos[j]), k),
                alpha.len(),
            ),
            extension::times(alpha, folded_coefficient(oracles, infos, alpha, k, j + 1)),
        );
    }
}

/// A folded value is an element with reduced coefficients.
proof fn lemma_folded_value_reduced(
    oracles: Seq<PolynomialBatch>,
    infos: Seq<FriPolynomialInfo>,
    alpha: Seq<u64>,
    x: Seq<u64>,
    j: int,
)
    requires
        x.len() == alpha.len(),
    ensures
        folded_value(oracles, infos, alpha, x, j).len() == alpha.len(),
        ring::reduced(folded_value(oracles, infos, alpha, x, j)),
{
    if j < infos.len() {
        let f = values::lifted(openings::coefficients(oracles, infos[j]), alpha.len());
        values::lemma_value_reduced(f, x);
        ring::lemma_reduced(
            values::value(f, x),
            extension::times(alpha, folded_value(oracles, infos, alpha, x, j + 1)),
        );
    }
}

/// The coefficients of a composition are elements with reduced coefficients.
proof fn lemma_composition_reduced(
    oracles: Seq<PolynomialBatch>,
    infos: Seq<FriPolynomialInfo>,
    alpha: Seq<u64>,
    m: nat,
)
    ensures
        values::over(openings::composition(oracles, infos, alpha, m), alpha.len()),
        forall|k: int|
            ring::reduced(
                #[trigger] coefficient(
                    openings::composition(oracles, infos, alpha, m),
                    k,
                    alpha.len(),
                ),
            ),
    decreases m,
{
    let d = alpha.len();
    let f = openings::composition(oracles, infos, alpha, m);
    if m > 0 {
        let j = (m - 1) as nat;
        let before = openings::composition(oracles, infos, alpha, j);
        let s = extension::power(alpha, j);
        let c = openings::coefficients(oracles, infos[j as int]);
        let term = extension::base_poly_times(c, s);
        lemma_composition_reduced(oracles, infos, alpha, j);
        ring::lemma_power_reduced(alpha, j);
        assert forall|k: int| 0 <= k < term.len() implies (#[trigger] term[k]).len() == d by {}
        values::lemma_over_sum(before, term, d);
        assert forall|k: int| ring::reduced(#[trigger] coefficient(f, k, d)) by {
            assert(ring::reduced(coefficient(before, k, d)));
            if 0 <= k < f.len() {
                if k < term.len() {
                    if k >= before.len() {
                        ring::lemma_reduced(extension::zero(d), term[k]);
                    } else {
                        ring::lemma_reduced(before[k], term[k]);
                    }
                }
            }
        }
    }
}

/// The part of the coefficient that the first `m` polynomials make up, and `alpha^m` times the fold of
/// the others.
#[verifier::rlimit(40)]
proof fn lemma_composition_splits(
    oracles: Seq<PolynomialBatch>,
    infos: Seq<FriPolynomialInfo>,
    alpha: Seq<u64>,
    k: int,
    m: nat,
)
    requires
        0 <= k,
        m <= infos.len(),
    ensures
        extension::plus(
            coefficient(openings::composition(oracles, infos, alpha, m), k, alpha.len()),
            extension::times(
                extension::power(alpha, m),
                folded_coefficient(oracles, infos, alpha, k, m as int),
            ),
        ) == coefficient(
            openings::composition(oracles, infos, alpha, infos.len()),
            k,
            alpha.len(),
        ),
    decreases infos.len() - m,
{
    let d = alpha.len();
    let f = openings::composition(oracles, infos, alpha, m);
    let v = coefficient(f, k, d);
    let s = extension::power(alpha, m);
    lemma_composition_reduced(oracles, infos, alpha, m);
    ring::lemma_power_reduced(alpha, m);
    assert(ring::reduced(v));
    assert(v.len() == d);
    if m == infos.len() {
        ring::theorem_times_zero(s);
        ring::theorem_plus_zero(v);
    } else {
        lemma_composition_splits(oracles, infos, alpha, k, m + 1);
        let rest = folded_coefficient(oracles, infos, alpha, k, m as int + 1);
        lemma_folded_reduced(oracles, infos, alpha, k, m as int + 1);
        let c = openings::coefficients(oracles, infos[m as int]);
        let b = extension::from_base(base_coefficient(c, k), d);
        let term = extension::times(s, b);
        ring::lemma_reduced(s, b);
        // One more polynomial.
        let g = openings::composition(oracles, infos, alpha, m + 1);
        assert(coefficient(g, k, d) == extension::plus(v, term)) by {
            let h = extension::base_poly_times(c, s);
            assert(g == extension::poly_sum(f, h, d));
            if k >= c.len() {
                lemma_small_mod(0, goldilocks::modulus() as nat);
                assert(b =~= extension::zero(d));
                ring::theorem_times_zero(s);
                ring::theorem_plus_zero(v);
            } else {
                assert(h[k] == term);
            }
        }
        let ar = extension::times(alpha, rest);
        ring::lemma_reduced(alpha, rest);
        ring::theorem_times_distributes(s, b, ar);
        ring::theorem_times_associates(s, alpha, rest);
        assert(extension::power(alpha, m + 1) == extension::times(s, alpha));
        let high = extension::times(extension::power(alpha, m + 1), rest);
        ring::lemma_power_reduced(alpha, m + 1);
        ring::lemma_reduced(extension::power(alpha, m + 1), rest);
        ring::theorem_plus_associates(v, term, high);
    }
}

/// Coefficient `k` of a composition is `c_0 + alpha * (c_1 + alpha * (c_2 + ...))`, where `c_j` is
/// coefficient `k` of polynomial `j`.
pub proof fn theorem_composition_folds(
    oracles: Seq<PolynomialBatch>,
    infos: Seq<FriPolynomialInfo>,
    alpha: Seq<u64>,
    k: int,
)
    requires
        0 <= k,
    ensures
        coefficient(
            openings::composition(oracles, infos, alpha, infos.len()),
            k,
            alpha.len(),
        ) == folded_coefficient(oracles, infos, alpha, k, 0),
{
    let t = folded_coefficient(oracles, infos, alpha, k, 0);
    lemma_composition_splits(oracles, infos, alpha, k, 0);
    lemma_folded_reduced(oracles, infos, alpha, k, 0);
    ring::theorem_times_one(t);
    ring::theorem_plus_zero(t);
}

/// The fold of all polynomials but the first.
proof fn lemma_folded_rest(
    oracles: Seq<PolynomialBatch>,
    infos: Seq<FriPolynomialInfo>,
    alpha: Seq<u64>,
    k: int,
    j: int,
)
    requires
        0 <= j,
        infos.len() > 0,
    ensures
        folded_coefficient(oracles, infos, alpha, k, j + 1) == folded_coefficient(
            oracles,
            infos.drop_first(),
            alpha,
            k,
            j,
        ),
    decreases infos.len() - j,
{
    if j + 1 < infos.len() {
        lemma_folded_rest(oracles, infos, alpha, k, j + 1);
        assert(infos.drop_first()[j] == infos[j + 1]);
    }
}

/// The composition of a batch is its first polynomial plus `alpha` times the composition of the
/// others.
pub proof fn theorem_composition_recurs(
    oracles: Seq<PolynomialBatch>,
    infos: Seq<FriPolynomialInfo>,
    alpha: Seq<u64>,
    k: int,
)
    requires
        0 <= k,
        infos.len() > 0,
    ensures
        coefficient(
            openings::composition(oracles, infos, alpha, infos.len()),
            k,
            alpha.len(),
        ) == extension::plus(
            extension::from_base(
                base_coefficient(named(oracles, infos[0]), k),
                alpha.len(),
            ),
            extension::times(
                alpha,
                coefficient(
                    openings::composition(
                        oracles,
                        infos.drop_first(),
                        alpha,
                        (infos.len() - 1) as nat,
                    ),
                    k,
                    alpha.len(),
                ),
            ),
        ),
{
    theorem_composition_folds(oracles, infos, alpha, k);
    theorem_composition_folds(oracles, infos.drop_first(), alpha, k);
    lemma_folded_rest(oracles, infos, alpha, k, 0);
}

/// A composition has as many coefficients as the longest of its polynomials.
pub proof fn theorem_composition_length(
    oracles: Seq<PolynomialBatch>,
    infos: Seq<FriPolynomialInfo>,
    alpha: Seq<u64>,
    m: nat,
)
    requires
        m <= infos.len(),
    ensures
        forall|j: int|
            0 <= j < m ==> named(oracles, #[trigger] infos[j]).len()
                <= openings::composition(oracles, infos, alpha, m).len(),
        m == 0 ==> openings::composition(oracles, infos, alpha, m).len() == 0,
        m > 0 ==> exists|j: int|
            0 <= j < m && named(oracles, #[trigger] infos[j]).len()
                == openings::composition(oracles, infos, alpha, m).len(),
    decreases m,
{
    if m > 0 {
        let j = (m - 1) as nat;
        theorem_composition_length(oracles, infos, alpha, j);
        let f = openings::composition(oracles, infos, alpha, m);
        let c = named(oracles, infos[j as int]);
        if j > 0 && c.len() < f.len() {
            let i = choose|i: int|
                0 <= i < j && named(oracles, #[trigger] infos[i]).len()
                    == openings::composition(oracles, infos, alpha, j).len();
            assert(named(oracles, infos[i]).len() == f.len());
        } else {
            assert(named(oracles, infos[j as int]).len() == f.len());
        }
    }
}

/// The value that the first `m` polynomials make up, and `alpha^m` times the fold of the others.
#[verifier::rlimit(40)]
proof fn lemma_value_splits(
    oracles: Seq<PolynomialBatch>,
    infos: Seq<FriPolynomialInfo>,
    alpha: Seq<u64>,
    x: Seq<u64>,
    m: nat,
)
    requires
        m <= infos.len(),
        x.len() == alpha.len(),
    ensures
        extension::plus(
            values::value(openings::composition(oracles, infos, alpha, m), x),
            extension::times(
                extension::power(alpha, m),
                folded_value(oracles, infos, alpha, x, m as int),
            ),
        ) == values::value(openings::composition(oracles, infos, alpha, infos.len()), x),
    decreases infos.len() - m,
{
    let d = alpha.len();
    let f = openings::composition(oracles, infos, alpha, m);
    let v = values::value(f, x);
    let s = extension::power(alpha, m);
    lemma_composition_reduced(oracles, infos, alpha, m);
    ring::lemma_power_reduced(alpha, m);
    values::lemma_value_reduced(f, x);
    if m == infos.len() {
        ring::theorem_times_zero(s);
        ring::theorem_plus_zero(v);
    } else {
        lemma_value_splits(oracles, infos, alpha, x, m + 1);
        let rest = folded_value(oracles, infos, alpha, x, m as int + 1);
        lemma_folded_value_reduced(oracles, infos, alpha, x, m as int + 1);
        let c = openings::coefficients(oracles, infos[m as int]);
        let b = values::value(values::lifted(c, d), x);
        values::lemma_value_reduced(values::lifted(c, d), x);
        let term = extension::times(s, b);
        ring::lemma_reduced(s, b);
        // One more polynomial.
        let h = extension::base_poly_times(c, s);
        assert forall|k: int| 0 <= k < h.len() implies (#[trigger] h[k]).len() == d by {}
        values::theorem_value_of_sum(f, h, x);
        values::theorem_value_of_base_multiple(c, s, x);
        ring::theorem_times_commutes(s, b);
        let ar = extension::times(alpha, rest);
        ring::lemma_reduced(alpha, rest);
        ring::theorem_times_distributes(s, b, ar);
        ring::theorem_times_associates(s, alpha, rest);
        assert(extension::power(alpha, m + 1) == extension::times(s, alpha));
        let high = extension::times(extension::power(alpha, m + 1), rest);
        ring::lemma_power_reduced(alpha, m + 1);
        ring::lemma_reduced(extension::power(alpha, m + 1), rest);
        ring::theorem_plus_associates(v, term, high);
    }
}

/// The value of a composition at `x` is `f_0(x) + alpha * (f_1(x) + alpha * (f_2(x) + ...))`.
pub proof fn theorem_composition_value(
    oracles: Seq<PolynomialBatch>,
    infos: Seq<FriPolynomialInfo>,
    alpha: Seq<u64>,
    x: Seq<u64>,
)
    requires
        x.len() == alpha.len(),
    ensures
        values::value(openings::composition(oracles, infos, alpha, infos.len()), x)
            == folded_value(oracles, infos, alpha, x, 0),
{
    let t = folded_value(oracles, infos, alpha, x, 0);
    lemma_value_splits(oracles, infos, alpha, x, 0);
    lemma_folded_value_reduced(oracles, infos, alpha, x, 0);
    ring::theorem_times_one(t);
    ring::theorem_plus_zero(t);
}

/// The number of polynomials in the batches after batch `i` and before batch `m`.
pub open spec fn opened_between<const D: usize>(
    batches: Seq<FriBatchInfo<D>>,
    i: int,
    m: int,
) -> nat
    decreases m,
{
    if m <= i + 1 || m <= 0 {
        0
    } else {
        opened_between(batches, i, m - 1) + batches[m - 1].polynomials@.len()
    }
}

/// The product of `x - z` over the points `z` of the first `m` batches, without that of batch `skip`.
pub open spec fn differences<const D: usize>(
    batches: Seq<FriBatchInfo<D>>,
    x: Seq<u64>,
    skip: int,
    m: nat,
) -> Seq<u64>
    decreases m,
{
    if m == 0 {
        extension::one(x.len())
    } else {
        let before = differences(batches, x, skip, (m - 1) as nat);
        if m - 1 == skip {
            before
        } else {
            extension::times(before, ring::minus(x, batches[m - 1].point@))
        }
    }
}

/// `F(x) - F(z)` for the polynomials of a batch, folded by `alpha`, and the batch's point `z`.
pub open spec fn batch_difference<const D: usize>(
    oracles: Seq<PolynomialBatch>,
    batch: FriBatchInfo<D>,
    alpha: Seq<u64>,
    x: Seq<u64>,
) -> Seq<u64> {
    ring::minus(
        folded_value(oracles, batch.polynomials@, alpha, x, 0),
        folded_value(oracles, batch.polynomials@, alpha, batch.point@, 0),
    )
}

/// What batch `i` adds to the openings of the first `m` batches, multiplied by all `x - z`: its
/// difference, times `alpha` once for each polynomial of a later batch, times the other `x - z`.
pub open spec fn batch_term<const D: usize>(
    oracles: Seq<PolynomialBatch>,
    batches: Seq<FriBatchInfo<D>>,
    alpha: Seq<u64>,
    x: Seq<u64>,
    i: int,
    m: nat,
) -> Seq<u64> {
    extension::times(
        extension::times(
            extension::power(alpha, opened_between(batches, i, m as int)),
            batch_difference(oracles, batches[i], alpha, x),
        ),
        differences(batches, x, i, m),
    )
}

/// The sum of what the first `n` batches add.
pub open spec fn batch_terms<const D: usize>(
    oracles: Seq<PolynomialBatch>,
    batches: Seq<FriBatchInfo<D>>,
    alpha: Seq<u64>,
    x: Seq<u64>,
    n: nat,
    m: nat,
) -> Seq<u64>
    decreases n,
{
    if n == 0 {
        extension::zero(x.len())
    } else {
        extension::plus(
            batch_terms(oracles, batches, alpha, x, (n - 1) as nat, m),
            batch_term(oracles, batches, alpha, x, n - 1, m),
        )
    }
}

/// Whether `f`, at `x`, is the polynomial that opens the batches: `f(x)` times the product of all
/// `x - z` is `x` times the sum over the batches of `alpha^n * (F(x) - F(z))` times the product of the
/// other `x - z`, where `n` polynomials are opened in later batches.
pub open spec fn opens_at<const D: usize>(
    oracles: Seq<PolynomialBatch>,
    batches: Seq<FriBatchInfo<D>>,
    alpha: Seq<u64>,
    f: Seq<Seq<u64>>,
    x: Seq<u64>,
) -> bool {
    extension::times(values::value(f, x), differences(batches, x, -1, batches.len()))
        == extension::times(
        x,
        batch_terms(oracles, batches, alpha, x, batches.len(), batches.len()),
    )
}

/// A product of differences is an element with reduced coefficients.
proof fn lemma_differences_reduced<const D: usize>(
    batches: Seq<FriBatchInfo<D>>,
    x: Seq<u64>,
    skip: int,
    m: nat,
)
    ensures
        differences(batches, x, skip, m).len() == x.len(),
        ring::reduced(differences(batches, x, skip, m)),
    decreases m,
{
    if m > 0 {
        lemma_differences_reduced(batches, x, skip, (m - 1) as nat);
        ring::lemma_reduced(
            differences(batches, x, skip, (m - 1) as nat),
            ring::minus(x, batches[m - 1].point@),
        );
    }
}

/// A batch that is not among the first `m` leaves nothing out.
proof fn lemma_nothing_skipped<const D: usize>(
    batches: Seq<FriBatchInfo<D>>,
    x: Seq<u64>,
    skip: int,
    m: nat,
)
    requires
        m <= skip,
    ensures
        differences(batches, x, skip, m) == differences(batches, x, -1, m),
    decreases m,
{
    if m > 0 {
        lemma_nothing_skipped(batches, x, skip, (m - 1) as nat);
    }
}

/// A batch's difference is an element with reduced coefficients.
proof fn lemma_batch_difference_reduced<const D: usize>(
    oracles: Seq<PolynomialBatch>,
    batch: FriBatchInfo<D>,
    alpha: Seq<u64>,
    x: Seq<u64>,
)
    requires
        alpha.len() == D,
        x.len() == D,
    ensures
        batch_difference(oracles, batch, alpha, x).len() == D,
        ring::reduced(batch_difference(oracles, batch, alpha, x)),
{
    lemma_folded_value_reduced(oracles, batch.polynomials@, alpha, x, 0);
    lemma_folded_value_reduced(oracles, batch.polynomials@, alpha, batch.point@, 0);
    let u = folded_value(oracles, batch.polynomials@, alpha, x, 0);
    let v = folded_value(oracles, batch.polynomials@, alpha, batch.point@, 0);
    ring::lemma_minus(u, v, v);
}

/// One more batch multiplies what an earlier one adds by `alpha`, once for each polynomial, and by
/// `x - z`.
proof fn lemma_batch_term_next<const D: usize>(
    oracles: Seq<PolynomialBatch>,
    batches: Seq<FriBatchInfo<D>>,
    alpha: Seq<u64>,
    x: Seq<u64>,
    i: int,
    m: nat,
)
    requires
        0 <= i < m < batches.len(),
        alpha.len() == D,
        x.len() == D,
    ensures
        extension::times(
            batch_term(oracles, batches, alpha, x, i, m),
            extension::times(
                extension::power(alpha, batches[m as int].polynomials@.len()),
                ring::minus(x, batches[m as int].point@),
            ),
        ) == batch_term(oracles, batches, alpha, x, i, m + 1),
{
    let n = batches[m as int].polynomials@.len();
    let c = opened_between(batches, i, m as int);
    let a = extension::power(alpha, c);
    let y = extension::power(alpha, n);
    let u = batch_difference(oracles, batches[i], alpha, x);
    let r = differences(batches, x, i, m);
    let e = ring::minus(x, batches[m as int].point@);
    ring::lemma_power_reduced(alpha, c);
    ring::lemma_power_reduced(alpha, n);
    lemma_batch_difference_reduced(oracles, batches[i], alpha, x);
    lemma_differences_reduced(batches, x, i, m);
    ring::lemma_reduced(a, u);
    ring::lemma_times_interchange(extension::times(a, u), r, y, e);
    ring::lemma_times_swap(a, u, y);
    ring::theorem_power_adds(alpha, c, n);
    assert(opened_between(batches, i, m as int + 1) == c + n);
    assert(differences(batches, x, i, m + 1) == extension::times(r, e));
}

/// What the first `n` batches add, after one more batch.
#[verifier::rlimit(40)]
proof fn lemma_batch_terms_next<const D: usize>(
    oracles: Seq<PolynomialBatch>,
    batches: Seq<FriBatchInfo<D>>,
    alpha: Seq<u64>,
    x: Seq<u64>,
    n: nat,
    m: nat,
)
    requires
        n <= m < batches.len(),
        alpha.len() == D,
        x.len() == D,
    ensures
        batch_terms(oracles, batches, alpha, x, n, m).len() == D,
        ring::reduced(batch_terms(oracles, batches, alpha, x, n, m)),
        extension::times(
            batch_terms(oracles, batches, alpha, x, n, m),
            extension::times(
                extension::power(alpha, batches[m as int].polynomials@.len()),
                ring::minus(x, batches[m as int].point@),
            ),
        ) == batch_terms(oracles, batches, alpha, x, n, m + 1),
    decreases n,
{
    let y = extension::power(alpha, batches[m as int].polynomials@.len());
    let e = ring::minus(x, batches[m as int].point@);
    ring::lemma_power_reduced(alpha, batches[m as int].polynomials@.len());
    let g = extension::times(y, e);
    ring::lemma_reduced(y, e);
    if n == 0 {
        ring::theorem_times_zero(g);
    } else {
        let i = n - 1;
        lemma_batch_terms_next(oracles, batches, alpha, x, (n - 1) as nat, m);
        lemma_batch_term_next(oracles, batches, alpha, x, i, m);
        let before = batch_terms(oracles, batches, alpha, x, (n - 1) as nat, m);
        let term = batch_term(oracles, batches, alpha, x, i, m);
        let a = extension::power(alpha, opened_between(batches, i, m as int));
        ring::lemma_power_reduced(alpha, opened_between(batches, i, m as int));
        lemma_batch_difference_reduced(oracles, batches[i], alpha, x);
        ring::lemma_reduced(a, batch_difference(oracles, batches[i], alpha, x));
        ring::lemma_reduced(
            extension::times(a, batch_difference(oracles, batches[i], alpha, x)),
            differences(batches, x, i, m),
        );
        ring::lemma_reduced(before, term);
        ring::theorem_times_distributes(g, before, term);
    }
}

/// The coefficients of the sum over some batches are elements.
pub proof fn lemma_over_opening<const D: usize>(
    oracles: Seq<PolynomialBatch>,
    batches: Seq<FriBatchInfo<D>>,
    alpha: Seq<u64>,
    m: nat,
)
    requires
        m <= batches.len(),
        alpha.len() == D,
    ensures
        values::over(openings::opening_sum(oracles, batches, alpha, m), D as nat),
    decreases m,
{
    if m > 0 {
        let i = (m - 1) as nat;
        let infos = batches[i as int].polynomials@;
        let before = openings::opening_sum(oracles, batches, alpha, i);
        let y = extension::power(alpha, infos.len());
        lemma_over_opening(oracles, batches, alpha, i);
        let shifted = extension::poly_times(before, y);
        assert forall|k: int| 0 <= k < shifted.len() implies (#[trigger] shifted[k]).len() == D by {
            assert(before[k].len() == D);
        }
        let f = openings::composition(oracles, infos, alpha, infos.len());
        values::lemma_over_quotient(f, batches[i as int].point@);
        values::lemma_over_sum(
            shifted,
            extension::linear_quotient(f, batches[i as int].point@),
            D as nat,
        );
    }
}

/// The value of the sum over the first `m` batches, times the product of their `x - z`.
#[verifier::rlimit(40)]
proof fn lemma_opening_value<const D: usize>(
    oracles: Seq<PolynomialBatch>,
    batches: Seq<FriBatchInfo<D>>,
    alpha: Seq<u64>,
    x: Seq<u64>,
    m: nat,
)
    requires
        m <= batches.len(),
        alpha.len() == D,
        x.len() == D,
    ensures
        extension::times(
            values::value(openings::opening_sum(oracles, batches, alpha, m), x),
            differences(batches, x, -1, m),
        ) == batch_terms(oracles, batches, alpha, x, m, m),
    decreases m,
{
    if m == 0 {
        ring::theorem_times_zero(differences(batches, x, -1, m));
        assert(differences(batches, x, -1, m).len() == x.len());
    } else {
        let i = (m - 1) as nat;
        let batch = batches[i as int];
        let infos = batch.polynomials@;
        let z = batch.point@;
        let before = openings::opening_sum(oracles, batches, alpha, i);
        let f = openings::composition(oracles, infos, alpha, infos.len());
        let quotient = extension::linear_quotient(f, z);
        let y = extension::power(alpha, infos.len());
        let e = ring::minus(x, z);
        let p = differences(batches, x, -1, i);
        let s = values::value(before, x);
        let q = values::value(quotient, x);
        let u = batch_difference(oracles, batch, alpha, x);
        lemma_opening_value(oracles, batches, alpha, x, i);
        lemma_over_opening(oracles, batches, alpha, i);
        lemma_composition_reduced(oracles, infos, alpha, infos.len());
        values::lemma_over_quotient(f, z);
        ring::lemma_power_reduced(alpha, infos.len());
        lemma_differences_reduced(batches, x, -1, i);
        values::lemma_value_reduced(before, x);
        values::lemma_value_reduced(quotient, x);
        lemma_batch_difference_reduced(oracles, batch, alpha, x);
        // The value of the new sum.
        let shifted = extension::poly_times(before, y);
        assert forall|k: int| 0 <= k < shifted.len() implies (#[trigger] shifted[k]).len() == D by {
            assert(before[k].len() == D);
        }
        values::theorem_value_of_multiple(before, y, x);
        values::theorem_value_of_sum(shifted, quotient, x);
        let sy = extension::times(s, y);
        let pe = extension::times(p, e);
        ring::lemma_reduced(s, y);
        ring::lemma_reduced(p, e);
        assert(differences(batches, x, -1, m) == pe);
        assert(values::value(openings::opening_sum(oracles, batches, alpha, m), x)
            == extension::plus(sy, q));
        ring::theorem_times_distributes(pe, sy, q);
        // The earlier batches.
        ring::lemma_times_interchange(s, y, p, e);
        lemma_batch_terms_next(oracles, batches, alpha, x, i, i);
        assert(extension::times(sy, pe) == batch_terms(oracles, batches, alpha, x, i, m));
        // The new batch.
        values::theorem_value_of_quotient(f, z, x);
        theorem_composition_value(oracles, infos, alpha, x);
        theorem_composition_value(oracles, infos, alpha, z);
        assert(extension::times(q, e) == u);
        ring::theorem_times_commutes(p, e);
        ring::theorem_times_associates(q, e, p);
        assert(extension::times(q, pe) == extension::times(u, p));
        lemma_nothing_skipped(batches, x, i as int, i);
        assert(differences(batches, x, i as int, m) == p);
        assert(opened_between(batches, i as int, m as int) == 0);
        ring::theorem_times_one(u);
        assert(batch_term(oracles, batches, alpha, x, i as int, m) == extension::times(u, p));
    }
}

/// The polynomial that opens the batches does so at every point: each opened polynomial, counted from
/// the last batch backwards, is there with a power of `alpha` of its own.
pub proof fn theorem_opens<const D: usize>(
    oracles: Seq<PolynomialBatch>,
    batches: Seq<FriBatchInfo<D>>,
    alpha: Seq<u64>,
    x: Seq<u64>,
)
    requires
        alpha.len() == D,
        x.len() == D,
    ensures
        opens_at(
            oracles,
            batches,
            alpha,
            seq![extension::zero(D as nat)] + openings::opening_sum(
                oracles,
                batches,
                alpha,
                batches.len(),
            ),
            x,
        ),
{
    let m = batches.len();
    let sum = openings::opening_sum(oracles, batches, alpha, m);
    let p = differences(batches, x, -1, m);
    lemma_over_opening(oracles, batches, alpha, m);
    lemma_opening_value(oracles, batches, alpha, x, m);
    values::theorem_value_of_raised(sum, x);
    values::lemma_value_reduced(sum, x);
    lemma_differences_reduced(batches, x, -1, m);
    ring::theorem_times_associates(x, values::value(sum, x), p);
}

} // verus!
