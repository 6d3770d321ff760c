//! Decimation in time: how butterfly stages build a transform of `2^k` points out of transforms of
//! fewer points.

use crate::bits;
use crate::flat;
use crate::math::goldilocks;
use crate::math::primes;
use crate::math::transform;
use vstd::arithmetic::div_mod::*;
use vstd::arithmetic::mul::*;
use vstd::arithmetic::power::*;
use vstd::arithmetic::power2::*;
use vstd::prelude::*;

verus! {

/// The transform of the `2^s` elements of `c` that lie `2^(k-s)` apart from `start` on, at index `j`,
/// for a root `w` of order `2^k`.
pub open spec fn part(c: Seq<u64>, w: int, k: nat, s: nat, start: int, j: nat) -> int {
    let step = pow2((k - s) as nat);
    transform::sum(pow2(s), |i: int| c[start + i * step] as int * pow(w, (step * j * i) as nat))
}

/// A sum is that of its terms at even and at odd places.
proof fn lemma_sum_halves(n: nat, f: spec_fn(int) -> int)
    ensures
        transform::sum(2 * n, f) == transform::sum(n, |i: int| f(2 * i)) + transform::sum(
            n,
            |i: int| f(2 * i + 1),
        ),
    decreases n,
{
    if n > 0 {
        let m = (n - 1) as nat;
        lemma_sum_halves(m, f);
        assert(transform::sum(2 * n, f) == transform::sum((2 * n - 1) as nat, f) + f(2 * n - 1));
        assert(transform::sum((2 * n - 1) as nat, f) == transform::sum(2 * m, f) + f(2 * m as int));
    }
}

/// A transform is the sum of those of the elements at even and at odd places, the latter turned.
proof fn lemma_part_step(c: Seq<u64>, w: int, k: nat, s: nat, start: int, j: nat)
    requires
        s < k,
    ensures
        part(c, w, k, s + 1, start, j) == part(c, w, k, s, start, j) + pow(
            w,
            pow2((k - s - 1) as nat) * j,
        ) * part(c, w, k, s, start + pow2((k - s - 1) as nat), j),
{
    let h = pow2((k - s - 1) as nat);
    let n = pow2(s);
    let turn = pow(w, h * j);
    lemma_pow2_unfold((k - s) as nat);
    lemma_pow2_unfold(s + 1);
    let f = |i: int| c[start + i * h] as int * pow(w, (h * j * i) as nat);
    let even = |i: int| c[start + i * (2 * h)] as int * pow(w, (2 * h * j * i) as nat);
    let odd = |i: int| c[start + h + i * (2 * h)] as int * pow(w, (2 * h * j * i) as nat);
    lemma_sum_halves(n, f);
    assert forall|i: int| 0 <= i < n implies #[trigger] f(2 * i) == even(i) by {
        assert((2 * i) * h == i * (2 * h)) by (nonlinear_arith);
        assert(h * j * (2 * i) == 2 * h * j * i) by (nonlinear_arith);
    }
    assert forall|i: int| 0 <= i < n implies #[trigger] f(2 * i + 1) == turn * odd(i) by {
        assert((2 * i + 1) * h == h + i * (2 * h)) by (nonlinear_arith);
        assert(h * j * (2 * i + 1) == h * j + 2 * h * j * i) by (nonlinear_arith);
        assert(0 <= 2 * h * j * i) by (nonlinear_arith)
            requires
                0 <= i,
        ;
        lemma_pow_adds(w, h * j, (2 * h * j * i) as nat);
        let a = c[start + h + i * (2 * h)] as int;
        let b = pow(w, (2 * h * j * i) as nat);
        assert(a * (turn * b) == turn * (a * b)) by (nonlinear_arith);
    }
    transform::lemma_sum_equal(n, |i: int| f(2 * i), even);
    transform::lemma_sum_equal(n, |i: int| f(2 * i + 1), |i: int| turn * odd(i));
    transform::lemma_sum_scale(n, turn, odd);
    transform::lemma_sum_equal(
        n,
        even,
        |i: int| c[start + i * pow2((k - s) as nat)] as int * pow(
            w,
            (pow2((k - s) as nat) * j * i) as nat,
        ),
    );
    transform::lemma_sum_equal(
        n,
        odd,
        |i: int| c[start + h + i * pow2((k - s) as nat)] as int * pow(
            w,
            (pow2((k - s) as nat) * j * i) as nat,
        ),
    );
}

/// A transform of `2^s` elements repeats itself after `2^s` indices.
proof fn lemma_part_period(c: Seq<u64>, w: int, k: nat, s: nat, start: int, j: nat)
    requires
        s <= k,
        pow(w, pow2(k)) % goldilocks::modulus() == 1,
    ensures
        primes::congruent(
            part(c, w, k, s, start, j + pow2(s)),
            part(c, w, k, s, start, j),
            goldilocks::modulus(),
        ),
{
    let p = goldilocks::modulus();
    let step = pow2((k - s) as nat);
    let n = pow2(s);
    lemma_pow2_adds(s, (k - s) as nat);
    lemma_mul_is_commutative(n as int, step as int);
    lemma_small_mod(1, p as nat);
    let f = |i: int| c[start + i * step] as int * pow(w, (step * (j + n) * i) as nat);
    let g = |i: int| c[start + i * step] as int * pow(w, (step * j * i) as nat);
    assert forall|i: int| 0 <= i < n implies primes::congruent(#[trigger] f(i), g(i), p) by {
        let a = (step * j * i) as nat;
        assert(step * (j + n) * i == step * j * i + (step * n) * i && 0 <= step * j * i) by (
        nonlinear_arith)
            requires
                0 <= i,
        ;
        let b = (pow2(k) * i) as nat;
        assert(0 <= pow2(k) * i) by (nonlinear_arith)
            requires
                0 <= i,
        ;
        lemma_pow_adds(w, a, b);
        lemma_pow_multiplies(w, pow2(k), i as nat);
        primes::lemma_congruent_pow(pow(w, pow2(k)), 1, i as nat, p);
        lemma1_pow(i as nat);
        primes::lemma_congruent_mul(pow(w, a), pow(w, a), pow(w, b), 1, p);
        let e = c[start + i * step] as int;
        primes::lemma_congruent_mul(e, e, pow(w, a + b), pow(w, a), p);
    }
    transform::lemma_sum_congruent(n, f, g, p);
}

/// Whether `data` holds, for each row of `2^k` elements of `c`, what `s` butterfly stages make of its
/// bit-reversed elements: transforms of `2^s` elements each.
pub open spec fn is_stage(c: Seq<u64>, w: int, k: nat, s: nat, data: Seq<u64>) -> bool {
    &&& data.len() == c.len()
    &&& forall|i: int|
        0 <= i < c.len() ==> primes::congruent(
            #[trigger] data[i] as int,
            stage_value(c, w, k, s, i),
            goldilocks::modulus(),
        )
}

/// What element `i` stands for after `s` butterfly stages.
pub open spec fn stage_value(c: Seq<u64>, w: int, k: nat, s: nat, i: int) -> int {
    let n = pow2(k) as int;
    let m = pow2(s) as int;
    part(
        c,
        w,
        k,
        s,
        (i / n) * n + bits::reversed(((i % n) / m) as nat, (k - s) as nat),
        (i % m) as nat,
    )
}

/// The place of the lower element of the butterfly of stage `s` that element `i` takes part in.
pub open spec fn lower(s: nat, i: int) -> int {
    let m = pow2(s) as int;
    (i / (2 * m)) * (2 * m) + i % m
}

/// Where an element and the two elements of its butterfly stand.
proof fn lemma_butterfly_places(k: nat, s: nat, i: int)
    requires
        s < k,
        i >= 0,
    ensures
        ({
            let n = pow2(k) as int;
            let m = pow2(s) as int;
            let b = (i % n) / (2 * m);
            let l = lower(s, i);
            &&& 0 <= b < pow2((k - s - 1) as nat)
            &&& 0 <= i % m < m
            &&& i % (2 * m) == i % m || i % (2 * m) == i % m + m
            &&& i == l || i == l + m
            &&& i == l <==> i % (2 * m) < m
            &&& l / n == i / n
            &&& (l % n) / m == 2 * b
            &&& l % m == i % m
            &&& (l + m) / n == i / n
            &&& ((l + m) % n) / m == 2 * b + 1
            &&& (l + m) % m == i % m
            &&& l >= 0
            &&& l + m < (i / n + 1) * n
        }),
{
    let n = pow2(k) as int;
    let m = pow2(s) as int;
    let h = pow2((k - s - 1) as nat) as int;
    let row = i / n;
    let x = i % n;
    let b = x / (2 * m);
    let j = x % (2 * m);
    let l = lower(s, i);
    lemma_pow2_pos(s);
    lemma_pow2_pos(k);
    lemma_pow2_unfold(s + 1);
    lemma_pow2_adds(s + 1, (k - s - 1) as nat);
    lemma_mul_is_commutative(2 * m, h);
    lemma_fundamental_div_mod(i, n);
    lemma_mul_is_commutative(n, row);
    lemma_mod_division_less_than_divisor(i, n);
    flat::lemma_flat_position(x, h, 2 * m);
    // The element is number `j` of block `row * h + b`.
    let block = row * h + b;
    assert(i == block * (2 * m) + j) by (nonlinear_arith)
        requires
            i == row * n + x,
            n == h * (2 * m),
            x == b * (2 * m) + j,
            block == row * h + b,
    ;
    flat::lemma_flat_index(block, j, 2 * m);
    let half = if j < m { 0int } else { 1int };
    let j0 = j - half * m;
    assert(i == (2 * block + half) * m + j0) by (nonlinear_arith)
        requires
            i == block * (2 * m) + j,
            j0 == j - half * m,
    ;
    flat::lemma_flat_index(2 * block + half, j0, m);
    assert(l == block * (2 * m) + j0);
    assert(l == (2 * block) * m + j0) by (nonlinear_arith)
        requires
            l == block * (2 * m) + j0,
    ;
    flat::lemma_flat_index(2 * block, j0, m);
    assert(l + m == (2 * block + 1) * m + j0) by (nonlinear_arith)
        requires
            l == (2 * block) * m + j0,
    ;
    flat::lemma_flat_index(2 * block + 1, j0, m);
    // Within the row.
    let xl = (2 * b) * m + j0;
    let xu = (2 * b + 1) * m + j0;
    assert(l == row * n + xl && l + m == row * n + xu && 0 <= xl && xu < n) by (nonlinear_arith)
        requires
            l == block * (2 * m) + j0,
            block == row * h + b,
            n == h * (2 * m),
            xl == (2 * b) * m + j0,
            xu == (2 * b + 1) * m + j0,
            0 <= b,
            b + 1 <= h,
            0 <= j0 < m,
    ;
    flat::lemma_flat_index(row, xl, n);
    flat::lemma_flat_index(row, xu, n);
    flat::lemma_flat_index(2 * b, j0, m);
    flat::lemma_flat_index(2 * b + 1, j0, m);
    lemma_div_pos_is_pos(i, n);
    assert(row * n >= 0) by (nonlinear_arith)
        requires
            row >= 0,
            n > 0,
    ;
    assert((row + 1) * n == row * n + n) by (nonlinear_arith);
}

/// Bit reversal alone: every element stands for a transform of one element.
pub proof fn lemma_first_stage(c: Seq<u64>, w: int, k: nat, data: Seq<u64>)
    requires
        data.len() == c.len(),
        forall|i: int|
            0 <= i < c.len() ==> #[trigger] data[i] == c[(i / pow2(k) as int) * pow2(k)
                + bits::reversed((i % pow2(k) as int) as nat, k)],
    ensures
        is_stage(c, w, k, 0, data),
{
    lemma2_to64();
    lemma_pow2_pos(k);
    let n = pow2(k) as int;
    assert forall|i: int| 0 <= i < c.len() implies primes::congruent(
        #[trigger] data[i] as int,
        stage_value(c, w, k, 0, i),
        goldilocks::modulus(),
    ) by {
        lemma_mod_division_less_than_divisor(i, n);
        let start = (i / n) * n + bits::reversed((i % n) as nat, k);
        let f = |l: int| c[start + l * pow2(k)] as int * pow(w, (pow2(k) * 0 * l) as nat);
        assert(pow2(k) * 0 * 0 == 0) by (nonlinear_arith);
        assert(0 * pow2(k) == 0) by (nonlinear_arith);
        lemma_pow0(w);
        assert(f(0) == c[start] as int);
        assert(transform::sum(0, f) == 0);
        assert(transform::sum(1, f) == transform::sum(0, f) + f(0));
        assert((i % n) / 1 == i % n);
        assert(i % 1 == 0);
        assert(stage_value(c, w, k, 0, i) == transform::sum(1, f));
    }
}

/// One butterfly stage: from transforms of `2^s` elements to transforms of `2^(s+1)`.
pub proof fn lemma_next_stage(
    c: Seq<u64>,
    w: int,
    k: nat,
    s: nat,
    data: Seq<u64>,
    next: Seq<u64>,
)
    requires
        s < k,
        c.len() % pow2(k) == 0,
        is_stage(c, w, k, s, data),
        pow(w, pow2((k - 1) as nat)) % goldilocks::modulus() == goldilocks::modulus() - 1,
        next.len() == c.len(),
        forall|i: int|
            0 <= i < c.len() ==> {
                let m = pow2(s) as int;
                let turn = pow(w, (pow2((k - s - 1) as nat) * (i % m)) as nat);
                let l = lower(s, i);
                primes::congruent(
                    #[trigger] next[i] as int,
                    if i % (2 * m) < m {
                        data[l] + turn * data[l + m]
                    } else {
                        data[l] - turn * data[l + m]
                    },
                    goldilocks::modulus(),
                )
            },
    ensures
        is_stage(c, w, k, s + 1, next),
{
    let p = goldilocks::modulus();
    let n = pow2(k) as int;
    let m = pow2(s) as int;
    let h = pow2((k - s - 1) as nat) as int;
    lemma_pow2_unfold(s + 1);
    lemma_pow2_pos(k);
    lemma_pow2_pos(s);
    goldilocks::lemma_full_order(w, k, p);
    assert forall|i: int| 0 <= i < c.len() implies primes::congruent(
        #[trigger] next[i] as int,
        stage_value(c, w, k, s + 1, i),
        p,
    ) by {
        lemma_butterfly_places(k, s, i);
        let l = lower(s, i);
        let b = (i % n) / (2 * m);
        let j0 = (i % m) as nat;
        let j = (i % (2 * m)) as nat;
        let base = (i / n) * n;
        let start = base + bits::reversed(b as nat, (k - s - 1) as nat);
        let turn0 = pow(w, (h * j0) as nat);
        // Both elements of the butterfly lie in the row.
        lemma_fundamental_div_mod(c.len() as int, n);
        let rows = c.len() as int / n;
        lemma_mul_is_commutative(n, rows);
        flat::lemma_flat_position(i, rows, n);
        assert((i / n + 1) * n <= rows * n) by (nonlinear_arith)
            requires
                i / n + 1 <= rows,
                n > 0,
        ;
        assert(primes::congruent(data[l] as int, stage_value(c, w, k, s, l), p));
        assert(primes::congruent(data[l + m] as int, stage_value(c, w, k, s, l + m), p));
        // Reversal of the block numbers.
        assert((2 * b) as nat % 2 == 0 && (2 * b) as nat / 2 == b as nat);
        assert((2 * b + 1) as nat % 2 == 1 && (2 * b + 1) as nat / 2 == b as nat);
        assert(0 * pow2((k - s - 1) as nat) == 0) by (nonlinear_arith);
        assert(1 * pow2((k - s - 1) as nat) == h) by (nonlinear_arith)
            requires
                h == pow2((k - s - 1) as nat),
        ;
        assert(bits::reversed((2 * b) as nat, (k - s) as nat) == bits::reversed(
            b as nat,
            (k - s - 1) as nat,
        ));
        assert(bits::reversed((2 * b + 1) as nat, (k - s) as nat) == h + bits::reversed(
            b as nat,
            (k - s - 1) as nat,
        ));
        let even = part(c, w, k, s, start, j0);
        let odd = part(c, w, k, s, start + h, j0);
        assert(stage_value(c, w, k, s, l) == even);
        assert(stage_value(c, w, k, s, l + m) == odd);
        lemma_part_step(c, w, k, s, start, j);
        assert(stage_value(c, w, k, s + 1, i) == part(c, w, k, s + 1, start, j));
        assert(h * j0 >= 0) by (nonlinear_arith)
            requires
                h >= 0,
        ;
        primes::lemma_congruent_mul(turn0, turn0, data[l + m] as int, odd, p);
        if j < m {
            primes::lemma_congruent_add(
                data[l] as int,
                even,
                turn0 * data[l + m],
                turn0 * odd,
                p,
            );
        } else {
            lemma_part_period(c, w, k, s, start, j0);
            lemma_part_period(c, w, k, s, start + h, j0);
            let e1 = part(c, w, k, s, start, j);
            let o1 = part(c, w, k, s, start + h, j);
            let turn = pow(w, (h * j) as nat);
            // The turn of the upper half is that of the lower half, negated.
            lemma_pow2_adds((k - s - 1) as nat, s);
            assert(h * j == h * j0 + h * m) by (nonlinear_arith)
                requires
                    j == j0 + m,
            ;
            assert(h * m == pow2((k - 1) as nat));
            lemma_pow_adds(w, (h * j0) as nat, pow2((k - 1) as nat));
            let minus = pow(w, pow2((k - 1) as nat));
            lemma_small_mod((p - 1) as nat, p as nat);
            lemma_mod_multiples_vanish(1, -1, p);
            assert(primes::congruent(minus, -1, p));
            primes::lemma_congruent_mul(turn0, turn0, minus, -1, p);
            primes::lemma_congruent_mul(turn, turn0 * -1, o1, odd, p);
            primes::lemma_congruent_add(e1, even, turn * o1, (turn0 * -1) * odd, p);
            primes::lemma_congruent_mul(-1, -1, turn0 * data[l + m], turn0 * odd, p);
            primes::lemma_congruent_add(
                data[l] as int,
                even,
                -1 * (turn0 * data[l + m]),
                -1 * (turn0 * odd),
                p,
            );
            assert((turn0 * -1) * odd == -1 * (turn0 * odd)) by (nonlinear_arith);
        }
    }
}

/// After all stages every row is transformed.
pub proof fn lemma_last_stage(c: Seq<u64>, w: int, k: nat, data: Seq<u64>, row: int, j: int)
    requires
        is_stage(c, w, k, k, data),
        0 <= row,
        (row + 1) * pow2(k) <= c.len(),
        0 <= j < pow2(k),
    ensures
        0 <= row * pow2(k),
        row * pow2(k) + j < c.len(),
        primes::congruent(
            data[row * pow2(k) + j] as int,
            transform::evaluate(
                c.subrange(row * pow2(k), (row + 1) * pow2(k)),
                pow(w, j as nat),
            ),
            goldilocks::modulus(),
        ),
{
    let n = pow2(k) as int;
    let i = row * n + j;
    lemma2_to64();
    assert(0 <= row * n && (row + 1) * n == row * n + n) by (nonlinear_arith)
        requires
            0 <= row,
            0 < n,
    ;
    flat::lemma_flat_index(row, j, n);
    assert(primes::congruent(
        data[i] as int,
        stage_value(c, w, k, k, i),
        goldilocks::modulus(),
    ));
    assert(j / n == 0) by {
        lemma_basic_div(j, n);
    }
    let r = c.subrange(row * n, (row + 1) * n);
    let x = pow(w, j as nat);
    let f = |l: int| c[row * n + l * 1] as int * pow(w, (1 * (j as nat) * l) as nat);
    let g = |l: int| r[l] as int * pow(x, l as nat);
    assert forall|l: int| 0 <= l < n implies #[trigger] f(l) == g(l) by {
        lemma_pow_multiplies(w, j as nat, l as nat);
        assert(1 * (j as nat) * l == (j as nat) * (l as nat)) by (nonlinear_arith)
            requires
                0 <= j,
                0 <= l,
        ;
    }
    transform::lemma_sum_equal(n as nat, f, g);
    assert(bits::reversed(0, 0) == 0);
    assert(stage_value(c, w, k, k, i) == transform::sum(n as nat, f));
}

} // verus!
