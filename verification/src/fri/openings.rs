//! The polynomial that opens many polynomials at a few points.

use crate::bits;
use crate::fri::extension::{
    self, add_polys, divide_by_linear, mul_extension, scale_poly, Extension,
};
use crate::fri::opening_values;
use crate::fri::oracle::PolynomialBatch;
use crate::fri::values;
use vstd::arithmetic::power2::*;
use vstd::prelude::*;

verus! {

broadcast use vstd::array::group_array_axioms;

/// A polynomial of an oracle.
#[derive(Clone, Copy, Debug, PartialEq, Eq, Structural)]
pub struct FriPolynomialInfo {
    pub oracle_index: usize,
    pub polynomial_index: usize,
}

/// Polynomials that are opened at one point.
#[derive(Debug)]
pub struct FriBatchInfo<const D: usize> {
    pub point: Extension<D>,
    pub polynomials: Vec<FriPolynomialInfo>,
}

/// Whether a polynomial is there.
pub open spec fn present(oracles: Seq<PolynomialBatch>, info: FriPolynomialInfo) -> bool {
    &&& info.oracle_index < oracles.len()
    &&& info.polynomial_index < oracles[info.oracle_index as int].polynomials@.len()
}

/// The coefficients of a polynomial of an oracle.
pub open spec fn coefficients(oracles: Seq<PolynomialBatch>, info: FriPolynomialInfo) -> Seq<u64> {
    oracles[info.oracle_index as int].polynomials@[info.polynomial_index as int]@
}

/// The sum of the first `m` polynomials of a batch, polynomial `j` times `alpha^j`.
pub open spec fn composition(
    oracles: Seq<PolynomialBatch>,
    infos: Seq<FriPolynomialInfo>,
    alpha: Seq<u64>,
    m: nat,
) -> Seq<Seq<u64>>
    decreases m,
{
    if m == 0 {
        Seq::empty()
    } else {
        let j = (m - 1) as nat;
        extension::poly_sum(
            composition(oracles, infos, alpha, j),
            extension::base_poly_times(
                coefficients(oracles, infos[j as int]),
                extension::power(alpha, j),
            ),
            alpha.len(),
        )
    }
}

/// The sum of all polynomials of a batch, polynomial `j` times `alpha^j`.
pub fn reduce_polys_base<const D: usize>(
    oracles: &Vec<PolynomialBatch>,
    infos: &Vec<FriPolynomialInfo>,
    alpha: Extension<D>,
) -> (r: Vec<Extension<D>>)
    requires
        extension::is_degree(D as nat),
        forall|j: int| 0 <= j < infos@.len() ==> present(oracles@, #[trigger] infos@[j]),
    ensures
        extension::elements(r@) == composition(oracles@, infos@, alpha@, infos@.len()),
        forall|k: int|
            0 <= k ==> #[trigger] opening_values::coefficient(
                extension::elements(r@),
                k,
                D as nat,
            ) == opening_values::folded_coefficient(oracles@, infos@, alpha@, k, 0),
{
    let mut r: Vec<Extension<D>> = Vec::new();
    let mut power: Extension<D> = Extension::one();
    let mut j: usize = 0;
    proof {
        assert(extension::elements(r@) =~= Seq::empty());
    }
    while j < infos.len()
        invariant
            extension::is_degree(D as nat),
            j <= infos@.len(),
            forall|i: int| 0 <= i < infos@.len() ==> present(oracles@, #[trigger] infos@[i]),
            power@ == extension::power(alpha@, j as nat),
            extension::elements(r@) == composition(oracles@, infos@, alpha@, j as nat),
        decreases infos.len() - j,
    {
        let info: FriPolynomialInfo = infos[j];
        proof {
            assert(present(oracles@, infos@[j as int]));
        }
        let term: Vec<Extension<D>> = mul_extension(
            &oracles[info.oracle_index].polynomials[info.polynomial_index],
            power,
        );
        r = add_polys(&r, &term);
        power = power.times(alpha);
        j = j + 1;
    }
    proof {
        assert forall|k: int| 0 <= k implies #[trigger] opening_values::coefficient(
            extension::elements(r@),
            k,
            D as nat,
        ) == opening_values::folded_coefficient(oracles@, infos@, alpha@, k, 0) by {
            opening_values::theorem_composition_folds(oracles@, infos@, alpha@, k);
        }
    }
    r
}

/// The sum over the first `m` batches of `(F(X) - F(z)) / (X - z)`, for the batch's composition `F`
/// and point `z`. Before a batch is added, the sum so far is multiplied by `alpha` once for each
/// polynomial of the batch, so that every power of `alpha` occurs once.
pub open spec fn opening_sum<const D: usize>(
    oracles: Seq<PolynomialBatch>,
    batches: Seq<FriBatchInfo<D>>,
    alpha: Seq<u64>,
    m: nat,
) -> Seq<Seq<u64>>
    decreases m,
{
    if m == 0 {
        Seq::empty()
    } else {
        let i = (m - 1) as nat;
        let infos = batches[i as int].polynomials@;
        extension::poly_sum(
            extension::poly_times(
                opening_sum(oracles, batches, alpha, i),
                extension::power(alpha, infos.len()),
            ),
            extension::linear_quotient(
                composition(oracles, infos, alpha, infos.len()),
                batches[i as int].point@,
            ),
            alpha.len(),
        )
    }
}

/// The polynomial that is proved to be of low degree: `X` times the sum over all batches.
pub fn final_polynomial<const D: usize>(
    oracles: &Vec<PolynomialBatch>,
    batches: &Vec<FriBatchInfo<D>>,
    alpha: Extension<D>,
) -> (r: Vec<Extension<D>>)
    requires
        extension::is_degree(D as nat),
        forall|i: int, j: int|
            0 <= i < batches@.len() && 0 <= j < batches@[i].polynomials@.len() ==> present(
                oracles@,
                #[trigger] batches@[i].polynomials@[j],
            ),
    ensures
        extension::elements(r@) == seq![extension::zero(D as nat)] + opening_sum(
            oracles@,
            batches@,
            alpha@,
            batches@.len(),
        ),
        forall|x: Seq<u64>|
            x.len() == D ==> #[trigger] opening_values::opens_at(
                oracles@,
                batches@,
                alpha@,
                extension::elements(r@),
                x,
            ),
{
    let mut sum: Vec<Extension<D>> = Vec::new();
    let mut i: usize = 0;
    proof {
        assert(extension::elements(sum@) =~= Seq::empty());
    }
    while i < batches.len()
        invariant
            extension::is_degree(D as nat),
            i <= batches@.len(),
            forall|a: int, j: int|
                0 <= a < batches@.len() && 0 <= j < batches@[a].polynomials@.len() ==> present(
                    oracles@,
                    #[trigger] batches@[a].polynomials@[j],
                ),
            extension::elements(sum@) == opening_sum(oracles@, batches@, alpha@, i as nat),
        decreases batches.len() - i,
    {
        let batch: &FriBatchInfo<D> = &batches[i];
        let composed: Vec<Extension<D>> = reduce_polys_base(
            oracles,
            &batch.polynomials,
            alpha,
        );
        let quotient: Vec<Extension<D>> = divide_by_linear(&composed, batch.point);
        let shifted: Vec<Extension<D>> = scale_poly(
            &sum,
            alpha.exp(batch.polynomials.len()),
        );
        sum = add_polys(&shifted, &quotient);
        i = i + 1;
    }
    let mut r: Vec<Extension<D>> = Vec::with_capacity(1);
    r.push(Extension::zero());
    let ghost wanted = seq![extension::zero(D as nat)] + extension::elements(sum@);
    let mut k: usize = 0;
    while k < sum.len()
        invariant
            k <= sum@.len(),
            wanted == seq![extension::zero(D as nat)] + extension::elements(sum@),
            r@.len() == k + 1,
            forall|j: int| 0 <= j < r@.len() ==> (#[trigger] r@[j])@ == wanted[j],
        decreases sum.len() - k,
    {
        r.push(sum[k]);
        k = k + 1;
    }
    proof {
        assert(extension::elements(r@) =~= wanted);
        assert forall|x: Seq<u64>| x.len() == D implies #[trigger] opening_values::opens_at(
            oracles@,
            batches@,
            alpha@,
            extension::elements(r@),
            x,
        ) by {
            opening_values::theorem_opens(oracles@, batches@, alpha@, x);
        }
    }
    r
}

/// A polynomial, zero-padded to `n` coefficients.
pub open spec fn padded(f: Seq<Seq<u64>>, n: nat, d: nat) -> Seq<Seq<u64>> {
    Seq::new(
        n,
        |i: int|
            if i < f.len() {
                f[i]
            } else {
                extension::zero(d)
            },
    )
}

impl PolynomialBatch {
    /// The polynomial that opens the batches' polynomials, zero-padded to `2^rate_bits` times its
    /// length.
    pub fn prove_openings<const D: usize>(
        oracles: &Vec<PolynomialBatch>,
        batches: &Vec<FriBatchInfo<D>>,
        alpha: Extension<D>,
        rate_bits: usize,
    ) -> (r: Vec<Extension<D>>)
        requires
            extension::is_degree(D as nat),
            rate_bits < usize::BITS,
            forall|i: int, j: int|
                0 <= i < batches@.len() && 0 <= j < batches@[i].polynomials@.len() ==> present(
                    oracles@,
                    #[trigger] batches@[i].polynomials@[j],
                ),
            (1 + opening_sum(oracles@, batches@, alpha@, batches@.len()).len()) * pow2(
                rate_bits as nat,
            ) <= usize::MAX,
        ensures
            ({
                let f = seq![extension::zero(D as nat)] + opening_sum(
                    oracles@,
                    batches@,
                    alpha@,
                    batches@.len(),
                );
                extension::elements(r@) == padded(f, f.len() * pow2(rate_bits as nat), D as nat)
            }),
            forall|x: Seq<u64>|
                x.len() == D ==> #[trigger] opening_values::opens_at(
                    oracles@,
                    batches@,
                    alpha@,
                    extension::elements(r@),
                    x,
                ),
    {
        let mut r: Vec<Extension<D>> = final_polynomial(oracles, batches, alpha);
        let ghost f = extension::elements(r@);
        let len: usize = r.len();
        proof {
            assert(f.len() == len);
        }
        let extended: usize = bits::shl(len, rate_bits);
        let ghost wanted = padded(f, extended as nat, D as nat);
        proof {
            lemma_pow2_pos(rate_bits as nat);
            assert(extended >= len) by (nonlinear_arith)
                requires
                    extended == len * pow2(rate_bits as nat),
                    pow2(rate_bits as nat) >= 1,
                    len >= 0,
            ;
            assert forall|j: int| 0 <= j < len implies (#[trigger] r@[j])@ == wanted[j] by {
                assert(f[j] == r@[j]@);
            }
        }
        while r.len() < extended
            invariant
                f.len() <= r@.len() <= extended,
                wanted == padded(f, extended as nat, D as nat),
                forall|j: int| 0 <= j < r@.len() ==> (#[trigger] r@[j])@ == wanted[j],
            decreases extended - r.len(),
        {
            r.push(Extension::zero());
        }
        proof {
            assert(extension::elements(r@) =~= wanted);
            assert forall|x: Seq<u64>| x.len() == D implies #[trigger] opening_values::opens_at(
                oracles@,
                batches@,
                alpha@,
                extension::elements(r@),
                x,
            ) by {
                opening_values::theorem_opens(oracles@, batches@, alpha@, x);
                values::theorem_value_of_padded(f, wanted, x);
            }
        }
        r
    }
}

/// Zero-padding a polynomial does not change its values.
pub proof fn theorem_padded_value(f: Seq<Seq<u64>>, n: nat, x: Seq<u64>)
    requires
        f.len() <= n,
    ensures
        padded(f, n, x.len()).len() == n,
        values::value(padded(f, n, x.len()), x) == values::value(f, x),
{
    values::theorem_value_of_padded(f, padded(f, n, x.len()), x);
}

/// Where every opened polynomial has `n` coefficients, the final polynomial has `n` too.
pub proof fn theorem_final_length<const D: usize>(
    oracles: Seq<PolynomialBatch>,
    batches: Seq<FriBatchInfo<D>>,
    alpha: Seq<u64>,
    n: nat,
)
    requires
        n > 0,
        batches.len() > 0,
        forall|i: int| 0 <= i < batches.len() ==> (#[trigger] batches[i]).polynomials@.len() > 0,
        forall|i: int, j: int|
            0 <= i < batches.len() && 0 <= j < batches[i].polynomials@.len() ==> coefficients(
                oracles,
                #[trigger] batches[i].polynomials@[j],
            ).len() == n,
    ensures
        (seq![extension::zero(D as nat)] + opening_sum(
            oracles,
            batches,
            alpha,
            batches.len(),
        )).len() == n,
{
    lemma_opening_length(oracles, batches, alpha, n, batches.len());
}

/// The length of a composition of polynomials of one length.
proof fn lemma_composition_length(
    oracles: Seq<PolynomialBatch>,
    infos: Seq<FriPolynomialInfo>,
    alpha: Seq<u64>,
    n: nat,
    m: nat,
)
    requires
        m <= infos.len(),
        forall|j: int| 0 <= j < infos.len() ==> coefficients(oracles, #[trigger] infos[j]).len() == n,
    ensures
        composition(oracles, infos, alpha, m).len() == if m == 0 {
            0
        } else {
            n
        },
    decreases m,
{
    if m > 0 {
        lemma_composition_length(oracles, infos, alpha, n, (m - 1) as nat);
        assert(coefficients(oracles, infos[m - 1]).len() == n);
    }
}

/// The length of the sum over some batches.
proof fn lemma_opening_length<const D: usize>(
    oracles: Seq<PolynomialBatch>,
    batches: Seq<FriBatchInfo<D>>,
    alpha: Seq<u64>,
    n: nat,
    m: nat,
)
    requires
        n > 0,
        m <= batches.len(),
        forall|i: int| 0 <= i < batches.len() ==> (#[trigger] batches[i]).polynomials@.len() > 0,
        forall|i: int, j: int|
            0 <= i < batches.len() && 0 <= j < batches[i].polynomials@.len() ==> coefficients(
                oracles,
                #[trigger] batches[i].polynomials@[j],
            ).len() == n,
    ensures
        opening_sum(oracles, batches, alpha, m).len() == if m == 0 {
            0
        } else {
            n - 1
        },
    decreases m,
{
    if m > 0 {
        lemma_opening_length(oracles, batches, alpha, n, (m - 1) as nat);
        let infos = batches[m - 1].polynomials@;
        assert(infos.len() > 0);
        lemma_composition_length(oracles, infos, alpha, n, infos.len());
    }
}

} // verus!
