use metal_merkle::fri::oracle::PolynomialBatch;
use metal_merkle::hash::metal::ntt::{
    compute_primitive_root, mod_inverse, mul_mod, pow_mod, precompute_twiddles,
    shift_coefficients, zero_pad, MetalNTT, NttDispatch, NttKernel, NttLaunch, NttParameters,
    NttTable, NttWidths, GOLDILOCKS_COSET_SHIFT, GOLDILOCKS_PRIME,
};
use metal_merkle::hash::metal_ntt_bench::MetalNttBenchBuffer;
use metal_merkle::math::goldilocks::POWER_OF_TWO_GENERATOR;

const P: u64 = GOLDILOCKS_PRIME;

fn widths() -> NttWidths {
    NttWidths { bit_reverse: 32, butterfly: 32, scale: 32 }
}

fn add(a: u64, b: u64) -> u64 {
    ((a as u128 + b as u128) % P as u128) as u64
}

fn minus(a: u64, b: u64) -> u64 {
    ((a as u128 + P as u128 - (b % P) as u128) % P as u128) as u64
}

fn reverse_bits_usize(x: usize, bits: u32) -> usize {
    let mut result = 0;
    let mut val = x;
    for _ in 0..bits {
        result = (result << 1) | (val & 1);
        val >>= 1;
    }
    result
}

/// What the kernel of a launch does to `batches` polynomials in `data`.
fn run_launch(ntt: &MetalNTT, launch: &NttLaunch, data: &mut [u64], batches: usize) {
    let covered = launch.thread_groups.width * launch.threads_per_group.width;
    assert_eq!(launch.thread_groups.height, 1);
    match (launch.kernel, launch.parameters) {
        (NttKernel::BitReverse, NttParameters::Stage(u))
        | (NttKernel::BatchBitReverse, NttParameters::BatchStage(u, _)) => {
            let n = u.n as usize;
            assert!(covered as usize >= n * batches);
            for b in 0..batches {
                for i in 0..n {
                    let r = reverse_bits_usize(i, u.log_n);
                    if i < r {
                        data.swap(b * n + i, b * n + r);
                    }
                }
            }
        }
        (NttKernel::Butterfly, NttParameters::Stage(u))
        | (NttKernel::InverseButterfly, NttParameters::Stage(u))
        | (NttKernel::BatchButterfly, NttParameters::BatchStage(u, _)) => {
            let n = u.n as usize;
            assert!(covered as usize >= n / 2 * batches);
            let table = match launch.table {
                NttTable::Twiddles => ntt.twiddle_words(),
                NttTable::InverseTwiddles => ntt.inverse_twiddle_words(),
                _ => panic!("a butterfly needs twiddle factors"),
            };
            let half = 1usize << u.stage;
            for b in 0..batches {
                for k in 0..n / 2 {
                    let j = k % half;
                    let low = b * n + (k / half) * 2 * half + j;
                    let high = low + half;
                    let w = table[j * (n / (2 * half)) * u.twiddle_stride as usize];
                    let t = mul_mod(data[high], w, P);
                    let s = data[low];
                    data[low] = add(s, t);
                    data[high] = minus(s, t);
                }
            }
        }
        (NttKernel::Scale, NttParameters::Count(n)) => {
            assert!(covered >= n as u64);
            let inverse = match launch.table {
                NttTable::SizeInverses { offset } => ntt.size_inverse_words()[offset / 8],
                _ => panic!("scaling needs an inverse"),
            };
            for x in data.iter_mut() {
                *x = mul_mod(*x, inverse, P);
            }
        }
        _ => panic!("unexpected launch"),
    }
}

fn run(ntt: &MetalNTT, dispatch: NttDispatch, batches: usize) -> Vec<u64> {
    assert_eq!(dispatch.buffer_size, dispatch.data.len() * 8);
    let mut data = dispatch.data;
    for launch in &dispatch.launches {
        run_launch(ntt, launch, &mut data, batches);
    }
    data
}

/// A recursive transform, for comparison.
fn reference_fft(coeffs: &[u64], w: u64) -> Vec<u64> {
    let n = coeffs.len();
    if n == 1 {
        return vec![coeffs[0] % P];
    }
    let even: Vec<u64> = coeffs.iter().step_by(2).copied().collect();
    let odd: Vec<u64> = coeffs.iter().skip(1).step_by(2).copied().collect();
    let w2 = mul_mod(w, w, P);
    let e = reference_fft(&even, w2);
    let o = reference_fft(&odd, w2);
    let mut out = vec![0; n];
    let mut x = 1;
    for i in 0..n / 2 {
        let t = mul_mod(x, o[i], P);
        out[i] = add(e[i], t);
        out[i + n / 2] = minus(e[i], t);
        x = mul_mod(x, w, P);
    }
    out
}

fn evaluate(coeffs: &[u64], x: u64) -> u64 {
    coeffs.iter().rev().fold(0, |acc, &c| add(mul_mod(acc, x, P), c))
}

#[test]
fn test_pow_mod() {
    assert_eq!(pow_mod(7, 2, 13), 10);
    assert_eq!(pow_mod(5, 0, 7), 1);
    assert_eq!(pow_mod(5, 1, 7), 5);
}

#[test]
fn pow_mod_of_modulus_one() {
    assert_eq!(pow_mod(5, 0, 1), 0);
    assert_eq!(pow_mod(0, 0, 1), 0);
    assert_eq!(pow_mod(0, 0, 2), 1);
    assert_eq!(pow_mod(5, 3, 1), 0);
    assert_eq!(pow_mod(u64::MAX, u64::MAX, u64::MAX), 0);
}

#[test]
fn mul_mod_of_large_factors() {
    assert_eq!(mul_mod(u64::MAX, u64::MAX, P), 18446744056529682436);
    assert_eq!(mul_mod(P - 1, P - 1, P), 1);
}

#[test]
fn test_mod_inverse() {
    let p = GOLDILOCKS_PRIME;
    let a = 12345678901234567u64;
    let a_inv = mod_inverse(a, p);
    assert_eq!(mul_mod(a, a_inv, p), 1);
}

#[test]
fn inverses_modulo_small_primes() {
    for p in [2u64, 3, 5, 7, 11, 13] {
        for a in 1..p {
            assert_eq!(a * mod_inverse(a, p) % p, 1);
        }
    }
}

#[test]
fn test_primitive_root() {
    let n = 256;
    let omega = compute_primitive_root(n);
    assert_eq!(pow_mod(omega, n as u64, GOLDILOCKS_PRIME), 1);
    assert_ne!(pow_mod(omega, (n / 2) as u64, GOLDILOCKS_PRIME), 1);
    let expected = {
        let mut r = POWER_OF_TWO_GENERATOR;
        for _ in 0..24 {
            r = mul_mod(r, r, GOLDILOCKS_PRIME);
        }
        r
    };
    assert_eq!(omega, expected);
}

#[test]
fn roots_of_every_order() {
    assert_eq!(compute_primitive_root(1), 1);
    assert_eq!(compute_primitive_root(2), P - 1);
    for k in 1..=32usize {
        let w = compute_primitive_root(1 << k);
        assert_eq!(pow_mod(w, 1 << (k - 1), P), P - 1);
    }
    // The order is the largest power of two that divides the argument.
    assert_eq!(compute_primitive_root(24), compute_primitive_root(8));
}

#[test]
fn twiddle_tables() {
    let (twiddles, inverse_twiddles, inverses) = precompute_twiddles(4);
    assert_eq!(twiddles.len(), 16);
    assert_eq!(inverse_twiddles.len(), 16);
    assert_eq!(inverses.len(), 5);
    let w = compute_primitive_root(16);
    for i in 0..16 {
        assert_eq!(twiddles[i], pow_mod(w, i as u64, P));
        assert_eq!(mul_mod(twiddles[i], inverse_twiddles[i], P), 1);
    }
    for k in 0..5 {
        assert_eq!(mul_mod(1 << k, inverses[k], P), 1);
    }
    // Every fourth entry belongs to the root of order four.
    let w4 = compute_primitive_root(4);
    for i in 0..4 {
        assert_eq!(twiddles[4 * i], pow_mod(w4, i as u64, P));
    }
}

#[test]
fn launches_of_a_small_transform() {
    let ntt = MetalNTT::new(5);
    let d = ntt.ntt(&vec![1, 2, 3, 4, 5, 6, 7, 8], &widths());
    assert_eq!(d.data, vec![1, 2, 3, 4, 5, 6, 7, 8]);
    assert_eq!(d.buffer_size, 64);
    assert_eq!(d.launches.len(), 4);
    assert_eq!(d.launches[0].kernel, NttKernel::BitReverse);
    assert_eq!(d.launches[0].table, NttTable::Absent);
    for stage in 0..3 {
        let launch = d.launches[1 + stage];
        assert_eq!(launch.kernel, NttKernel::Butterfly);
        assert_eq!(launch.table, NttTable::Twiddles);
        match launch.parameters {
            NttParameters::Stage(u) => {
                assert_eq!(
                    (u.n, u.log_n, u.stage, u.direction, u.twiddle_stride),
                    (8, 3, stage as u32, 0, 4)
                );
            }
            _ => panic!("a stage has stage parameters"),
        }
        assert_eq!(launch.thread_groups.width, 1);
        assert_eq!(launch.threads_per_group.width, 32);
    }
    let i = ntt.intt(&vec![1, 2, 3, 4, 5, 6, 7, 8], &widths());
    assert_eq!(i.launches.len(), 5);
    assert_eq!(i.launches[4].kernel, NttKernel::Scale);
    assert_eq!(i.launches[4].table, NttTable::SizeInverses { offset: 24 });
    assert_eq!(i.launches[4].parameters, NttParameters::Count(8));
    assert_eq!(i.launches[1].kernel, NttKernel::InverseButterfly);
    assert_eq!(i.launches[1].table, NttTable::InverseTwiddles);
}

#[test]
fn kernel_names() {
    assert_eq!(NttKernel::BitReverse.function_name(), "ntt_bit_reverse");
    assert_eq!(NttKernel::Butterfly.function_name(), "ntt_butterfly");
    assert_eq!(NttKernel::InverseButterfly.function_name(), "intt_butterfly");
    assert_eq!(NttKernel::Scale.function_name(), "ntt_scale");
    assert_eq!(NttKernel::BatchBitReverse.function_name(), "ntt_batch_bit_reverse");
    assert_eq!(NttKernel::BatchButterfly.function_name(), "ntt_batch_butterfly");
}

fn test_ntt_at_size(log_n: usize) {
    let n = 1usize << log_n;
    let coeffs: Vec<u64> = (0..n).map(|i| i as u64 % P).collect();
    let ntt = MetalNTT::new(log_n);
    let cpu = reference_fft(&coeffs, compute_primitive_root(n));
    let gpu = run(&ntt, ntt.ntt(&coeffs, &widths()), 1);
    assert!(gpu == cpu);
}

#[test]
fn test_ntt_2_16() {
    test_ntt_at_size(16);
}

#[test]
fn test_ntt_2_20() {
    test_ntt_at_size(20);
}

fn test_intt_roundtrip_at_size(log_n: usize) {
    let n = 1usize << log_n;
    let original: Vec<u64> = (0..n).map(|i| i as u64 % P).collect();
    let ntt = MetalNTT::new(log_n);
    let values = run(&ntt, ntt.ntt(&original, &widths()), 1);
    let recovered = run(&ntt, ntt.intt(&values, &widths()), 1);
    assert!(recovered == original);
}

#[test]
fn test_intt_roundtrip_2_16() {
    test_intt_roundtrip_at_size(16);
}

#[test]
fn test_intt_roundtrip_2_20() {
    test_intt_roundtrip_at_size(20);
}

fn test_lde_onto_coset_at_size(log_n: usize, rate_bits: usize) {
    let n = 1usize << log_n;
    let extended_n = n << rate_bits;
    let values: Vec<u64> = (0..n).map(|i| (i as u64 + 1) % P).collect();
    let ntt = MetalNTT::new(log_n + rate_bits);

    // The same on the processor: interpolate, pad, shift, evaluate.
    let w = compute_primitive_root(n);
    let n_inv = mod_inverse(n as u64, P);
    let coeffs: Vec<u64> = reference_fft(&values, mod_inverse(w, P))
        .iter()
        .map(|&c| mul_mod(c, n_inv, P))
        .collect();
    let mut shifted = vec![0u64; extended_n];
    let mut s = 1;
    for i in 0..n {
        shifted[i] = mul_mod(coeffs[i], s, P);
        s = mul_mod(s, 7, P);
    }
    let cpu = reference_fft(&shifted, compute_primitive_root(extended_n));

    let interpolated = run(&ntt, ntt.lde_onto_coset(&values, rate_bits, &widths()), 1);
    assert!(interpolated == coeffs);
    let gpu = run(&ntt, ntt.lde_onto_coset_finish(interpolated, rate_bits, &widths()), 1);
    assert!(gpu == cpu);
}

#[test]
fn test_lde_onto_coset_2_16_rate_2() {
    test_lde_onto_coset_at_size(16, 2);
}

#[test]
fn test_lde_onto_coset_2_18_rate_3() {
    test_lde_onto_coset_at_size(18, 3);
}

#[test]
fn extension_keeps_the_values() {
    let values: Vec<u64> = vec![5, 1, P - 1, 9, 0, 2, 7, 11];
    let ntt = MetalNTT::new(6);
    let coeffs = run(&ntt, ntt.lde(&values, 3, &widths()), 1);
    let extended = run(&ntt, ntt.lde_finish(coeffs, 3, &widths()), 1);
    assert_eq!(extended.len(), 64);
    for j in 0..8 {
        assert_eq!(extended[8 * j], values[j]);
    }
}

#[test]
fn coset_transform_evaluates_on_the_coset() {
    let coeffs: Vec<u64> = vec![3, 1, 4, 1, 5, 9, 2, 6];
    let ntt = MetalNTT::new(3);
    let values = run(&ntt, ntt.coset_ntt(&coeffs, GOLDILOCKS_COSET_SHIFT, &widths()), 1);
    let w = compute_primitive_root(8);
    for j in 0..8 {
        let x = mul_mod(7, pow_mod(w, j as u64, P), P);
        assert_eq!(values[j], evaluate(&coeffs, x));
    }
    let back = run(&ntt, ntt.coset_intt(&values, &widths()), 1);
    assert_eq!(MetalNTT::coset_intt_finish(&back, GOLDILOCKS_COSET_SHIFT), coeffs);
}

#[test]
fn shifted_and_padded_coefficients() {
    assert_eq!(shift_coefficients(&vec![1, 2, 3], 7), vec![1, 14, 147]);
    assert_eq!(shift_coefficients(&vec![P, P + 1], 1), vec![0, 1]);
    assert_eq!(shift_coefficients(&vec![], 7), Vec::<u64>::new());
    assert_eq!(zero_pad(vec![1, 2], 4), vec![1, 2, 0, 0]);
    assert_eq!(zero_pad(vec![1, 2], 2), vec![1, 2]);
}

#[test]
fn batch_ntt_matches_single_transforms() {
    let log_n = 8;
    let n = 1usize << log_n;
    let batch_count = 8;
    let ntt = MetalNTT::new(10);
    let polys: Vec<Vec<u64>> = (0..batch_count)
        .map(|b| (0..n).map(|i| (b * n + i) as u64 % P).collect())
        .collect();
    let single: Vec<Vec<u64>> = polys
        .iter()
        .map(|p| run(&ntt, ntt.coset_ntt(p, GOLDILOCKS_COSET_SHIFT, &widths()), 1))
        .collect();
    let dispatch = ntt.batch_coset_ntt(&polys, GOLDILOCKS_COSET_SHIFT, &widths()).unwrap();
    assert_eq!(dispatch.launches.len(), 1 + log_n);
    assert_eq!(dispatch.launches[0].thread_groups.width, 64);
    assert_eq!(dispatch.launches[1].thread_groups.width, 32);
    let packed = run(&ntt, dispatch, batch_count);
    assert_eq!(MetalNTT::batch_split(&packed, batch_count, n), single);
    assert!(ntt.batch_coset_ntt(&vec![], GOLDILOCKS_COSET_SHIFT, &widths()).is_none());
}

#[test]
fn committed_batch_is_evaluated_on_the_coset() {
    let ntt = MetalNTT::new(8);
    let polynomials: Vec<Vec<u64>> =
        (0..3u64).map(|b| (0..8u64).map(|i| 100 * b + i * i + 1).collect()).collect();
    let plan = PolynomialBatch::from_coeffs_metal(&ntt, &polynomials, 2, true, &widths());
    let results = run(&ntt, plan.dispatch, 3);
    let w = compute_primitive_root(32);
    let salt: Vec<Vec<u64>> =
        (0..plan.salt_columns as u64).map(|k| vec![1000 + k; plan.column_len]).collect();
    let leaves =
        PolynomialBatch::from_coeffs_metal_leaves(&results, 3, plan.column_len, salt);
    assert_eq!(leaves.len(), 32);
    for point in 0..32usize {
        let x = mul_mod(7, pow_mod(w, point as u64, P), P);
        let leaf = &leaves[reverse_bits_usize(point, 5)];
        for (j, p) in polynomials.iter().enumerate() {
            assert_eq!(leaf[j], evaluate(p, x));
        }
        assert_eq!(leaf[3..], [1000, 1001, 1002, 1003]);
    }
}

#[test]
fn bench_buffer_is_transformed_in_place() {
    let log_n = 6;
    let n = 1usize << log_n;
    let batches = 3;
    let input: Vec<u64> = (0..batches * n)
        .map(|i| (i as u64).wrapping_mul(0x9e37_79b9_7f4a_7c15) % P)
        .collect();
    let ntt = MetalNTT::new(8);
    let mut buffer = MetalNttBenchBuffer::new(log_n, batches, &input);
    let mut data = buffer.read_flat();
    assert_eq!(data, input);
    for launch in &buffer.run_forward_ntt(&ntt, &widths()) {
        run_launch(&ntt, launch, &mut data, batches);
    }
    buffer.complete(data);
    let output = buffer.read_flat();
    for b in 0..batches {
        let expected = reference_fft(&input[b * n..(b + 1) * n], compute_primitive_root(n));
        assert_eq!(&output[b * n..(b + 1) * n], &expected[..]);
    }
}

#[test]
fn runtime_for_the_largest_size() {
    let ntt = MetalNTT::get();
    assert_eq!(ntt.twiddle_words().len(), 1 << 24);
    assert_eq!(ntt.size_inverse_words().len(), 25);
}
