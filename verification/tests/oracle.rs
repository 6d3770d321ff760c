use metal_merkle::fri::extension::{divide_by_linear, extension_w, Extension, QuadraticExtension};
use metal_merkle::fri::openings::{
    final_polynomial, reduce_polys_base, FriBatchInfo, FriPolynomialInfo,
};
use metal_merkle::fri::oracle::{CoeffsRoute, PolynomialBatch, SALT_SIZE};
use metal_merkle::gpu::metal::merkle_tree::{self, MerkleTree};
use metal_merkle::hash::metal::gpu_thread::{route_merkle_tree, MerkleRoute};
use metal_merkle::hash::metal::ntt::{
    compute_primitive_root, mul_mod, pow_mod, MetalNTT, NttKernel, NttWidths, GOLDILOCKS_PRIME,
};

const P: u64 = GOLDILOCKS_PRIME;

fn add(a: u64, b: u64) -> u64 {
    ((a as u128 + b as u128) % P as u128) as u64
}

fn evaluate(coeffs: &[u64], x: u64) -> u64 {
    coeffs.iter().rev().fold(0, |acc, &c| add(mul_mod(acc, x, P), c))
}

fn fft(coeffs: &[u64], w: u64) -> Vec<u64> {
    let n = coeffs.len();
    if n == 1 {
        return vec![coeffs[0] % P];
    }
    let even: Vec<u64> = coeffs.iter().step_by(2).copied().collect();
    let odd: Vec<u64> = coeffs.iter().skip(1).step_by(2).copied().collect();
    let w2 = mul_mod(w, w, P);
    let e = fft(&even, w2);
    let o = fft(&odd, w2);
    let mut out = vec![0; n];
    let mut x = 1;
    for i in 0..n / 2 {
        let t = mul_mod(x, o[i], P);
        out[i] = add(e[i], t);
        out[i + n / 2] = add(e[i], P - t);
        x = mul_mod(x, w, P);
    }
    out
}

fn coset_fft(coeffs: &[u64], shift: u64) -> Vec<u64> {
    let mut s = 1;
    let shifted: Vec<u64> = coeffs
        .iter()
        .map(|&c| {
            let r = mul_mod(c, s, P);
            s = mul_mod(s, shift, P);
            r
        })
        .collect();
    fft(&shifted, compute_primitive_root(coeffs.len()))
}

/// Commits to polynomials, with a tree that has its leaves only.
fn commit(polynomials: Vec<Vec<u64>>, rate_bits: usize, blinding: bool) -> PolynomialBatch {
    let plan = PolynomialBatch::lde_values(&polynomials, rate_bits, blinding);
    let values: Vec<Vec<u64>> =
        plan.padded.iter().map(|p| coset_fft(p, plan.shift)).collect();
    let salt: Vec<Vec<u64>> =
        (0..plan.salt_columns).map(|k| vec![1000 + k as u64; plan.column_len]).collect();
    let columns = PolynomialBatch::lde_columns(values, salt);
    let leaves = PolynomialBatch::from_coeffs_cpu_leaves(&columns);
    let tree = MerkleTree::new_from_fields(merkle_tree::concat(&leaves), columns.len(), vec![], vec![]);
    PolynomialBatch::from_coeffs_cpu(polynomials, tree, rate_bits, blinding)
}

fn ext(c0: u64, c1: u64) -> QuadraticExtension {
    QuadraticExtension { coefficients: [c0, c1] }
}

fn ext_eval(f: &[QuadraticExtension], z: QuadraticExtension) -> QuadraticExtension {
    f.iter().rev().fold(QuadraticExtension::zero(), |acc, &c| acc.times(z).plus(c))
}

fn base_eval(f: &[u64], z: QuadraticExtension) -> QuadraticExtension {
    f.iter()
        .rev()
        .fold(QuadraticExtension::zero(), |acc, &c| acc.times(z).plus(QuadraticExtension::from_base(c)))
}

fn negated(a: QuadraticExtension) -> QuadraticExtension {
    a.times(ext(P - 1, 0))
}

#[test]
fn committed_values_are_evaluations_on_the_coset() {
    for blinding in [false, true] {
        let polynomials: Vec<Vec<u64>> =
            (0..3).map(|b| (0..8).map(|i| 10 * b + i + 1).collect()).collect();
        let batch = commit(polynomials.clone(), 2, blinding);
        assert_eq!(batch.degree_log, 3);
        let w = compute_primitive_root(32);
        for step in [1usize, 4] {
            for index in 0..32 / step {
                let x = mul_mod(7, pow_mod(w, (index * step) as u64, P), P);
                let values = batch.get_lde_values(index, step);
                assert_eq!(values.len(), 3);
                for (p, &v) in polynomials.iter().zip(values) {
                    assert_eq!(v, evaluate(p, x));
                }
            }
        }
        // The largest point that can be named.
        let last = batch.get_lde_values_packed(usize::MAX, 1, 1);
        assert_eq!(last[0][0], batch.get_lde_values(usize::MAX, 1)[0]);
        let packed = batch.get_lde_values_packed(5, 2, 4);
        assert_eq!(packed.len(), 3);
        for j in 0..3 {
            for i in 0..4 {
                assert_eq!(packed[j][i], batch.get_lde_values(5 + i, 2)[j]);
            }
        }
    }
}

#[test]
fn blinded_leaves_carry_salt() {
    let batch = commit(vec![vec![1, 2]], 1, true);
    assert_eq!(batch.merkle_tree.leaf_length, 1 + SALT_SIZE);
    assert_eq!(batch.merkle_tree.get(0)[1..], [1000, 1001, 1002, 1003]);
    assert_eq!(batch.get_lde_values(0, 1).len(), 1);
}

#[test]
fn default_batch_is_empty() {
    let batch = PolynomialBatch::default();
    assert!(batch.polynomials.is_empty());
    assert_eq!((batch.degree_log, batch.rate_bits, batch.blinding), (0, 0, false));
}

#[test]
fn leaves_are_in_bit_reversed_order() {
    let columns = vec![vec![0, 1, 2, 3], vec![10, 11, 12, 13]];
    let leaves = PolynomialBatch::from_coeffs_cpu_leaves(&columns);
    assert_eq!(leaves, vec![vec![0, 10], vec![2, 12], vec![1, 11], vec![3, 13]]);
}

#[test]
fn padded_polynomials_of_a_plan() {
    let plan = PolynomialBatch::lde_values(&vec![vec![1, 2], vec![3, 4]], 1, true);
    assert_eq!(plan.padded, vec![vec![1, 2, 0, 0], vec![3, 4, 0, 0]]);
    assert_eq!((plan.shift, plan.salt_columns, plan.column_len), (7, 4, 4));
    assert_eq!(PolynomialBatch::lde_values(&vec![vec![1, 2]], 0, false).salt_columns, 0);
}

#[test]
fn device_commit_packs_all_polynomials() {
    let ntt = MetalNTT::new(6);
    let widths = NttWidths { bit_reverse: 32, butterfly: 32, scale: 32 };
    let polynomials = vec![vec![1, 2], vec![3, 4], vec![5, 6]];
    let plan = PolynomialBatch::from_coeffs_metal(&ntt, &polynomials, 1, false, &widths);
    assert_eq!((plan.salt_columns, plan.column_len), (0, 4));
    let salted = PolynomialBatch::from_coeffs_metal(&ntt, &polynomials, 1, true, &widths);
    assert_eq!((salted.salt_columns, salted.column_len), (SALT_SIZE, 4));
    assert_eq!(salted.dispatch.data, plan.dispatch.data);
    let d = plan.dispatch;
    assert_eq!(d.data, vec![1, 14, 0, 0, 3, 28, 0, 0, 5, 42, 0, 0]);
    assert_eq!(d.buffer_size, 96);
    assert_eq!(d.launches.len(), 3);
    assert_eq!(d.launches[0].kernel, NttKernel::BatchBitReverse);
    assert!(PolynomialBatch::is_goldilocks_layout(8, 8));
    assert!(!PolynomialBatch::is_goldilocks_layout(4, 4));
    assert!(!PolynomialBatch::is_goldilocks_layout(8, 4));
}

#[test]
fn device_values_and_salt_make_up_the_leaves() {
    let results: Vec<u64> = vec![0, 1, 2, 3, 10, 11, 12, 13];
    let salt = vec![vec![20, 21, 22, 23]];
    assert_eq!(
        PolynomialBatch::from_coeffs_metal_leaves(&results, 2, 4, salt),
        vec![vec![0, 10, 20], vec![2, 12, 22], vec![1, 11, 21], vec![3, 13, 23]]
    );
    assert_eq!(
        PolynomialBatch::from_coeffs_metal_leaves(&results, 2, 4, vec![]),
        vec![vec![0, 10], vec![2, 12], vec![1, 11], vec![3, 13]]
    );
}

#[test]
fn graphics_processors_are_used_where_they_pay() {
    let small = vec![vec![1, 2]];
    assert_eq!(PolynomialBatch::from_coeffs(&small, 0, true), CoeffsRoute::Cpu);
    assert_eq!(PolynomialBatch::from_coeffs(&small, 1, true), CoeffsRoute::Gpu);
    assert_eq!(PolynomialBatch::from_coeffs(&small, 1, false), CoeffsRoute::Cpu);
    let plan = PolynomialBatch::from_coeffs_gpu(
        &vec![vec![1, 2], vec![3, 4], vec![5, 6]],
        3,
        false,
        2,
    );
    assert_eq!(plan.input, vec![1, 2, 3, 4, 5, 6]);
    assert_eq!((plan.input_elements, plan.output_elements), (6, 48));
    assert_eq!((plan.lde.batches, plan.lde.extension_rate_bits), (3, 3));
    assert!(!plan.lde.are_inputs_on_device && plan.lde.are_outputs_on_device);
    assert!(plan.lde.with_coset && plan.lde.is_multi_gpu);
    assert!(!plan.single_gpu);
    assert!(plan.transpose.are_inputs_on_device && plan.transpose.are_outputs_on_device);
    assert_eq!((plan.output_domain_size, plan.leaf_count, plan.leaf_length), (4, 16, 3));
    assert_eq!((plan.salt_columns, plan.column_elements, plan.transpose.batches), (0, 48, 3));
    assert!(PolynomialBatch::from_coeffs_gpu(&small, 3, false, 1).single_gpu);
    let blinded = PolynomialBatch::from_coeffs_gpu(&small, 3, true, 1);
    assert_eq!((blinded.leaf_count, blinded.leaf_length), (16, 1 + SALT_SIZE));
    assert_eq!((blinded.output_elements, blinded.salt_columns), (16, SALT_SIZE));
    assert_eq!((blinded.column_elements, blinded.transpose.batches), (16 * 5, 5));
    assert_eq!(blinded.lde.batches, 1);
}

#[test]
fn polynomials_are_spread_over_processors() {
    let polynomials = vec![vec![1u64; 256]; 7];
    assert!(PolynomialBatch::lde_device_batches(&polynomials, 2, 3).is_none());
    let batches = PolynomialBatch::lde_device_batches(&polynomials, 3, 3).unwrap();
    assert_eq!(batches.len(), 3);
    assert_eq!(
        batches.iter().map(|b| (b.device_id, b.first, b.count)).collect::<Vec<_>>(),
        vec![(0, 0, 3), (1, 3, 3), (2, 6, 1)]
    );
    for b in &batches {
        assert_eq!((b.input_elements, b.input_domain_size), (7 * 256, 256));
        assert_eq!((b.output_elements, b.output_domain_size), (3 * 2048, 2048));
        assert_eq!((b.config.batches, b.config.extension_rate_bits), (3, 3));
        assert!(b.config.are_inputs_on_device && b.config.are_outputs_on_device);
    }
    // Four processors get two polynomials each, the last one what is left.
    let batches = PolynomialBatch::lde_device_batches(&polynomials, 3, 4).unwrap();
    assert_eq!(batches.iter().map(|b| b.count).collect::<Vec<_>>(), vec![2, 2, 2, 1]);
}

#[test]
fn extension_arithmetic() {
    assert_eq!(ext(1, 2).plus(ext(P - 1, 3)), ext(0, 5));
    // x * x is seven.
    assert_eq!(ext(0, 1).times(ext(0, 1)), ext(7, 0));
    assert_eq!(ext(2, 3).times(ext(5, 7)), ext(10 + 7 * 21, 14 + 15));
    assert_eq!(ext(2, 3).exp(0), ext(1, 0));
    assert_eq!(ext(2, 3).exp(2), ext(4 + 63, 12));
    assert_eq!(QuadraticExtension::from_base(P + 5), ext(5, 0));
}

#[test]
fn extensions_of_higher_degree() {
    assert_eq!((extension_w(2), extension_w(4), extension_w(5)), (7, 7, 3));
    let x = Extension::<4> { coefficients: [0, 1, 0, 0] };
    assert_eq!(x.exp(3).coefficients, [0, 0, 0, 1]);
    assert_eq!(x.exp(4), Extension::from_base(7));
    let a = Extension::<4> { coefficients: [1, 2, 3, 4] };
    let b = Extension::<4> { coefficients: [5, 6, 7, 8] };
    assert_eq!(
        a.times(b).coefficients,
        [5 + 7 * (16 + 21 + 24), 16 + 7 * (24 + 28), 34 + 7 * 32, 60]
    );
    let y = Extension::<5> { coefficients: [0, 0, 1, 0, 0] };
    assert_eq!(y.exp(5), Extension::from_base(9));
    let f = vec![a, b, x, a.plus(b)];
    let q = divide_by_linear(&f, x);
    let at = |f: &[Extension<4>], z: Extension<4>| {
        f.iter().rev().fold(Extension::zero(), |acc: Extension<4>, &c| acc.times(z).plus(c))
    };
    let minus_one = Extension::<4>::from_base(P - 1);
    let left = at(&f, b).plus(at(&f, x).times(minus_one));
    assert_eq!(left, at(&q, b).times(b.plus(x.times(minus_one))));
}

#[test]
fn division_by_a_linear_polynomial() {
    let f = vec![ext(1, 2), ext(3, 4), ext(5, 6), ext(7, 8)];
    let z = ext(9, 10);
    let q = divide_by_linear(&f, z);
    assert_eq!(q.len(), 3);
    let x = ext(123, 456);
    let left = ext_eval(&f, x).plus(negated(ext_eval(&f, z)));
    let right = ext_eval(&q, x).times(x.plus(negated(z)));
    assert_eq!(left, right);
    assert_eq!(divide_by_linear(&vec![], z), vec![]);
    assert_eq!(divide_by_linear(&vec![ext(1, 1)], z), vec![]);
}

#[test]
fn composition_of_a_batch() {
    let oracles = vec![commit(vec![vec![1, 2], vec![3, 4]], 1, false)];
    let infos = vec![
        FriPolynomialInfo { oracle_index: 0, polynomial_index: 1 },
        FriPolynomialInfo { oracle_index: 0, polynomial_index: 0 },
    ];
    let alpha = ext(10, 1);
    assert_eq!(
        reduce_polys_base(&oracles, &infos, alpha),
        vec![ext(3 + 10, 1), ext(4 + 20, 2)]
    );
    assert_eq!(reduce_polys_base(&oracles, &vec![], alpha), vec![]);
}

/// A batch of degree 2^13 is committed to at rate 1/8, opened at two points, and the opening is
/// checked at another one.
#[test]
fn test_metal_proof_roundtrip() {
    let degree_bits = 13;
    let rate_bits = 3;
    let cap_height = 4;
    assert_eq!(
        route_merkle_tree(true, degree_bits + rate_bits, cap_height),
        MerkleRoute::LinearThreadgroup
    );
    let n = 1usize << degree_bits;
    let mut current = 42u64;
    let mut next = || {
        current = mul_mod(current, 8000, P) ^ 1;
        current % P
    };
    let polynomials: Vec<Vec<u64>> =
        (0..3).map(|_| (0..n).map(|_| next()).collect()).collect();
    let oracle = commit(polynomials.clone(), rate_bits, false);
    let w = compute_primitive_root(n << rate_bits);
    for index in [0usize, 1, 7, n, 8 * n - 1] {
        let x = mul_mod(7, pow_mod(w, index as u64, P), P);
        for (p, &v) in polynomials.iter().zip(oracle.get_lde_values(index, 1)) {
            assert_eq!(v, evaluate(p, x));
        }
    }

    let zeta = ext(11, 13);
    let zeta_next = zeta.times(QuadraticExtension::from_base(compute_primitive_root(n)));
    let info = |polynomial_index| FriPolynomialInfo { oracle_index: 0, polynomial_index };
    let batches = vec![
        FriBatchInfo { point: zeta, polynomials: vec![info(0), info(1), info(2)] },
        FriBatchInfo { point: zeta_next, polynomials: vec![info(2)] },
    ];
    let alpha = ext(17, 19);
    let oracles = vec![oracle];
    let f = final_polynomial(&oracles, &batches, alpha);
    assert_eq!(f.len(), n);
    let padded = PolynomialBatch::prove_openings(&oracles, &batches, alpha, rate_bits);
    assert_eq!(padded.len(), n << rate_bits);
    assert_eq!(padded[..n], f[..]);
    assert!(padded[n..].iter().all(|c| *c == QuadraticExtension::zero()));

    // What a verifier computes from the openings, without divisions.
    let x = ext(23, 29);
    let first = |z| {
        base_eval(&polynomials[0], z)
            .plus(alpha.times(base_eval(&polynomials[1], z)))
            .plus(alpha.times(alpha).times(base_eval(&polynomials[2], z)))
    };
    let second = |z| base_eval(&polynomials[2], z);
    let d1 = x.plus(negated(zeta));
    let d2 = x.plus(negated(zeta_next));
    let n1 = first(x).plus(negated(first(zeta)));
    let n2 = second(x).plus(negated(second(zeta_next)));
    let left = ext_eval(&f, x).times(d1).times(d2);
    let right = x.times(alpha.times(n1).times(d2).plus(n2.times(d1)));
    assert_eq!(left, right);
}
