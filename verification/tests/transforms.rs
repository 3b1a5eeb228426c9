use plonky2_gpu::fft::{check_transform_len, fft, ifft, primitive_root_of_unity};
use plonky2_gpu::fft_gpu::{
    fft_batch_gpu, fft_gpu, finish_fft_batch_gpu, finish_fft_gpu, finish_ifft_batch_gpu,
    finish_ifft_gpu, finish_lde_batch_coset_gpu, ifft_batch_gpu, ifft_gpu, lde_batch_coset_gpu,
    prepare_lde, prepare_ntt, should_use_gpu, NTTConfig, NTTInputOutputOrder, NTTType, NttRequest,
};
use plonky2_gpu::goldilocks::{GoldilocksField, RichField, MULTIPLICATIVE_GROUP_GENERATOR, ORDER};
use plonky2_gpu::gpu::{GpuState, InitAction, Step};
use plonky2_gpu::polynomial::{PolynomialCoeffs, PolynomialValues};

fn mul_mod(a: u64, b: u64) -> u64 {
    ((a as u128 * b as u128) % ORDER as u128) as u64
}

fn add_mod(a: u64, b: u64) -> u64 {
    ((a as u128 + b as u128) % ORDER as u128) as u64
}

fn pow_mod(base: u64, exp: u64) -> u64 {
    let mut r = 1u64;
    let mut b = base;
    let mut e = exp;
    while e > 0 {
        if e % 2 == 1 {
            r = mul_mod(r, b);
        }
        b = mul_mod(b, b);
        e /= 2;
    }
    r
}

/// An in-place transform with the given root, standing in for the device.
fn device_ntt(a: &mut [u64], root: u64) {
    let n = a.len();
    let lg = n.trailing_zeros();
    for i in 0..n {
        let j = i.reverse_bits() >> (usize::BITS - lg);
        if i < j {
            a.swap(i, j);
        }
    }
    let mut len = 2;
    while len <= n {
        let w = pow_mod(root, (n / len) as u64);
        for start in (0..n).step_by(len) {
            let mut x = 1u64;
            for k in 0..len / 2 {
                let u = a[start + k];
                let v = mul_mod(a[start + k + len / 2], x);
                a[start + k] = add_mod(u, v);
                a[start + k + len / 2] = add_mod(u, ORDER - v);
                x = mul_mod(x, w);
            }
        }
        len *= 2;
    }
}

fn device_root(lg: usize) -> u64 {
    pow_mod(7277203076849721926, 1u64 << (32 - lg))
}

fn words(v: &[GoldilocksField]) -> Vec<u64> {
    v.iter().map(|x| x.to_canonical_u64()).collect()
}

fn elements(v: &[u64]) -> Vec<GoldilocksField> {
    v.iter().map(|&x| GoldilocksField(x)).collect()
}

fn run_forward(request: &NttRequest) -> Vec<GoldilocksField> {
    let mut w = words(&request.buffer);
    assert_eq!(w.len(), request.n * request.cfg.batches as usize);
    for part in w.chunks_mut(request.n) {
        device_ntt(part, device_root(request.lg_n));
    }
    elements(&w)
}

fn run_inverse(request: &NttRequest) -> Vec<GoldilocksField> {
    let mut w = words(&request.buffer);
    assert_eq!(w.len(), request.n * request.cfg.batches as usize);
    for part in w.chunks_mut(request.n) {
        device_ntt(part, pow_mod(device_root(request.lg_n), ORDER - 2));
    }
    elements(&w)
}

/// The generator that the device is prepared with.
fn device_generator() -> u64 {
    match GpuState::new().ensure_gpu_initialized()[0] {
        InitAction::Coset { coset_gen, .. } => coset_gen,
        InitAction::Twiddle { .. } => panic!("expected the coset powers first"),
    }
}

fn coset_values(coeffs: &[u64], output_size: usize) -> Vec<u64> {
    let generator = device_generator();
    let mut w = vec![0u64; output_size];
    let mut power = 1u64;
    for (i, &c) in coeffs.iter().enumerate() {
        w[i] = mul_mod(c, power);
        power = mul_mod(power, generator);
    }
    device_ntt(&mut w, device_root(output_size.trailing_zeros() as usize));
    w
}

fn rand_vec(seed: u64, n: usize) -> Vec<GoldilocksField> {
    let mut state = seed;
    (0..n)
        .map(|_| {
            state = state.wrapping_add(0x9E3779B97F4A7C15);
            let mut z = state;
            z = (z ^ (z >> 30)).wrapping_mul(0xBF58476D1CE4E5B9);
            z = (z ^ (z >> 27)).wrapping_mul(0x94D049BB133111EB);
            GoldilocksField((z ^ (z >> 31)) % ORDER)
        })
        .collect()
}

fn host<T, R>(step: Step<T, R>) -> T {
    match step {
        Step::Host(t) => t,
        Step::Device(_) => panic!("expected the host"),
    }
}

fn device<T, R>(step: Step<T, R>) -> R {
    match step {
        Step::Host(_) => panic!("expected the device"),
        Step::Device(r) => r,
    }
}

#[test]
fn test_gpu_fft_roundtrip() {
    let n = 1 << 16; // 64K elements
    let coeffs: Vec<GoldilocksField> = (0..n)
        .map(|i| GoldilocksField::from_canonical_u64(i as u64))
        .collect();
    let poly = PolynomialCoeffs::new(coeffs.clone());

    let request = device(fft_gpu(poly));
    let values = finish_fft_gpu(run_forward(&request));
    let request = device(ifft_gpu(values));
    let recovered = finish_ifft_gpu(run_inverse(&request), request.lg_n);

    assert_eq!(coeffs, recovered.coeffs);
}

#[test]
fn test_gpu_coset_ntt_matches_cpu() {
    let n = 1 << 14; // 16K elements
    let coeffs = rand_vec(1, n);

    // Host: apply the coset shift, then transform.
    let mut power = GoldilocksField::one();
    let mut modified = Vec::new();
    for &c in &coeffs {
        modified.push(power * c);
        power = power * GoldilocksField::coset_shift();
    }
    let cpu_result = fft(PolynomialCoeffs::new(modified)).values;

    let gpu_buffer = elements(&coset_values(&words(&coeffs), n));
    assert_eq!(cpu_result, gpu_buffer, "Coset NTT mismatch");
    let direct = PolynomialCoeffs::new(coeffs).coset_fft(GoldilocksField::coset_shift());
    assert_eq!(cpu_result, direct.values);
}

#[test]
fn test_gpu_lde_coset_matches_cpu() {
    let n = 1 << 12; // 4K elements
    let rate_bits = 2;
    let coeffs = rand_vec(2, n);
    let poly = PolynomialCoeffs::new(coeffs.clone());

    // CPU version
    let cpu_result = poly
        .lde(rate_bits)
        .coset_fft(GoldilocksField::coset_shift())
        .values;

    // GPU version
    let gpu_results = host(lde_batch_coset_gpu(&[poly.clone()], rate_bits));

    assert_eq!(cpu_result, gpu_results[0]);
    assert_eq!(words(&cpu_result), coset_values(&words(&coeffs), n << rate_bits));
}

#[test]
fn test_gpu_lde_coset_batch_matches_cpu() {
    // Use larger size and multiple polynomials to actually exercise GPU code path
    let n = 1 << 14; // 16K elements
    let rate_bits = 2;
    let num_polys = 4;

    let polys: Vec<PolynomialCoeffs> = (0..num_polys)
        .map(|i| PolynomialCoeffs::new(rand_vec(10 + i as u64, n)))
        .collect();

    // CPU version
    let cpu_results: Vec<Vec<GoldilocksField>> = polys
        .iter()
        .map(|p| {
            p.lde(rate_bits)
                .coset_fft(GoldilocksField::coset_shift())
                .values
        })
        .collect();

    // GPU version
    let request = device(lde_batch_coset_gpu(&polys, rate_bits));
    assert_eq!(request.input.len(), num_polys * n);
    assert_eq!(request.output_size, n << rate_bits);
    assert_eq!(request.output_len, num_polys * (n << rate_bits));
    assert_eq!(request.lg_input, 14);
    assert_eq!(request.lg_output, 16);
    assert_eq!(request.cfg.batches, 4);
    assert_eq!(request.cfg.extension_rate_bits, 2);
    assert!(request.cfg.with_coset);
    let mut reply = Vec::new();
    for part in request.input.chunks(n) {
        reply.extend(elements(&coset_values(&words(part), request.output_size)));
    }
    assert_eq!(reply.len(), request.output_len);
    let gpu_results = finish_lde_batch_coset_gpu(reply, request.output_size);

    // Compare all results
    assert_eq!(gpu_results.len(), num_polys);
    for i in 0..num_polys {
        assert_eq!(cpu_results[i], gpu_results[i], "Mismatch at polynomial {}", i);
    }
}

#[test]
fn device_from_sixteen_thousand_elements_on() {
    assert!(!should_use_gpu(0));
    assert!(!should_use_gpu((1 << 14) - 1));
    assert!(should_use_gpu(1 << 14));
    assert!(should_use_gpu(1 << 20));
}

#[test]
fn transform_of_four_coefficients() {
    let poly = PolynomialCoeffs::new(elements(&[1, 2, 3, 4]));
    let values = host(fft_gpu(poly.clone()));
    assert_eq!(
        words(&values.values),
        vec![10, 18446181119461163007, 18446744069414584319, 562949953421310]
    );
    let back = host(ifft_gpu(values));
    assert_eq!(back.coeffs, poly.coeffs);
    let on_coset = poly.coset_fft(GoldilocksField::coset_shift());
    assert_eq!(
        words(&on_coset.values),
        vec![
            1512797934444043597,
            1963848596032862951,
            8240754616798874754,
            6729342922138803023
        ]
    );
}

#[test]
fn transform_of_one_coefficient_is_the_coefficient() {
    let values = fft(PolynomialCoeffs::new(elements(&[42])));
    assert_eq!(words(&values.values), vec![42]);
    let coeffs = ifft(PolynomialValues::new(elements(&[42])));
    assert_eq!(words(&coeffs.coeffs), vec![42]);
}

#[test]
fn interpolation_of_two_values() {
    let coeffs = ifft(PolynomialValues::new(elements(&[10, 20])));
    assert_eq!(words(&coeffs.coeffs), vec![15, 18446744069414584316]);
}

#[test]
fn extension_keeps_the_polynomial() {
    let poly = PolynomialCoeffs::new(elements(&[5, 7]));
    assert_eq!(words(&poly.lde(1).coeffs), vec![5, 7, 0, 0]);
    assert_eq!(words(&poly.lde(0).coeffs), vec![5, 7]);
    let values = host(lde_batch_coset_gpu(&[poly], 1));
    assert_eq!(
        words(&values[0]),
        vec![
            7819565078275485440,
            11240215734724153048,
            10627178991139098891,
            7206528334690431283
        ]
    );
}

#[test]
fn transform_lengths() {
    assert!(!check_transform_len(0));
    assert!(check_transform_len(1));
    assert!(!check_transform_len(12));
    assert!(check_transform_len(1 << 32));
    assert!(!check_transform_len(1 << 33));
    assert_eq!(primitive_root_of_unity(0).to_canonical_u64(), 1);
    assert_eq!(primitive_root_of_unity(1).to_canonical_u64(), ORDER - 1);
    assert_eq!(primitive_root_of_unity(2).to_canonical_u64(), 1 << 48);
    assert_eq!(primitive_root_of_unity(3).to_canonical_u64(), 1 << 24);
}

#[test]
fn small_transform_matches_naive_evaluation() {
    let n = 64;
    let coeffs = rand_vec(3, n);
    let values = fft(PolynomialCoeffs::new(coeffs.clone()));
    let w = device_root(6);
    for k in 0..n {
        let x = pow_mod(w, k as u64);
        let mut y = 0u64;
        for c in coeffs.iter().rev() {
            y = add_mod(mul_mod(y, x), c.to_canonical_u64());
        }
        assert_eq!(values.values[k].to_canonical_u64(), y);
    }
}

#[test]
fn empty_batches_stay_on_the_host() {
    assert_eq!(host(fft_batch_gpu(Vec::new())).len(), 0);
    assert_eq!(host(ifft_batch_gpu(Vec::new())).len(), 0);
    assert_eq!(host(lde_batch_coset_gpu(&[], 3)).len(), 0);
}

#[test]
fn few_polynomials_stay_on_the_host() {
    let polys: Vec<PolynomialCoeffs> = (0..3)
        .map(|i| PolynomialCoeffs::new(rand_vec(20 + i, 1 << 14)))
        .collect();
    let values = host(fft_batch_gpu(polys.clone()));
    assert_eq!(values.len(), 3);
    let back = host(ifft_batch_gpu(values));
    for i in 0..3 {
        assert_eq!(back[i].coeffs, polys[i].coeffs);
    }
}

#[test]
fn small_batch_may_mix_lengths() {
    let polys = vec![
        PolynomialCoeffs::new(elements(&[1, 2, 3, 4])),
        PolynomialCoeffs::new(elements(&[9])),
        PolynomialCoeffs::new(elements(&[1, 1])),
        PolynomialCoeffs::new(elements(&[0, 1])),
    ];
    let values = host(fft_batch_gpu(polys));
    assert_eq!(values[0].values.len(), 4);
    assert_eq!(words(&values[1].values), vec![9]);
    assert_eq!(words(&values[2].values), vec![2, 0]);
    assert_eq!(words(&values[3].values), vec![1, ORDER - 1]);
}

#[test]
fn batch_of_four_goes_to_the_device_and_back() {
    let n = 1 << 14;
    let polys: Vec<PolynomialCoeffs> = (0..4)
        .map(|i| PolynomialCoeffs::new(rand_vec(30 + i, n)))
        .collect();
    let request = device(fft_batch_gpu(polys.clone()));
    assert_eq!(request.cfg, NTTConfig::plain(4));
    assert_eq!(request.n, n);
    assert_eq!(request.lg_n, 14);
    assert_eq!(request.buffer[n..2 * n].to_vec(), polys[1].coeffs);
    let values = finish_fft_batch_gpu(run_forward(&request), request.n);
    assert_eq!(values.len(), 4);
    for i in 0..4 {
        assert_eq!(values[i].values, fft(polys[i].clone()).values);
    }
    let request = device(ifft_batch_gpu(values));
    let back = finish_ifft_batch_gpu(run_inverse(&request), request.n, request.lg_n);
    assert_eq!(back.len(), 4);
    for i in 0..4 {
        assert_eq!(back[i].coeffs, polys[i].coeffs);
    }
}

#[test]
fn extension_of_one_polynomial_stays_on_the_host() {
    let polys = vec![PolynomialCoeffs::new(rand_vec(40, 1 << 13))];
    assert_eq!(host(lde_batch_coset_gpu(&polys, 1))[0].len(), 1 << 14);
    let pair = vec![polys[0].clone(), polys[0].clone()];
    // The length of the result decides.
    assert_eq!(device(lde_batch_coset_gpu(&pair, 1)).output_size, 1 << 14);
    assert_eq!(host(lde_batch_coset_gpu(&pair, 0)).len(), 2);
}

#[test]
fn default_configuration() {
    let cfg = NTTConfig::default();
    assert_eq!(
        cfg,
        NTTConfig {
            batches: 1,
            order: NTTInputOutputOrder::NN,
            ntt_type: NTTType::Standard,
            extension_rate_bits: 0,
            are_inputs_on_device: false,
            are_outputs_on_device: false,
            with_coset: false,
            is_multi_gpu: false,
            salt_size: 0,
        }
    );
}

#[test]
fn reply_is_divided_by_the_length() {
    let coeffs = finish_ifft_gpu(elements(&[8, 16, 4, ORDER - 8]), 3);
    assert_eq!(words(&coeffs.coeffs), vec![1, 2, pow_mod(2, ORDER - 2), ORDER - 1]);
    let parts = finish_ifft_batch_gpu(elements(&[4, 8, 12, 16, 20]), 2, 2);
    assert_eq!(parts.len(), 3);
    assert_eq!(words(&parts[0].coeffs), vec![1, 2]);
    assert_eq!(words(&parts[2].coeffs), vec![5]);
}

#[test]
fn transforms_prepare_the_device_once() {
    let mut gpu = GpuState::new();
    let request = device(fft_gpu(PolynomialCoeffs::new(elements(&vec![1; 1 << 14]))));
    let actions = prepare_ntt(&mut gpu, &request);
    assert_eq!(actions.len(), 24);
    assert_eq!(
        actions[0],
        InitAction::Coset { lg_n: 24, coset_gen: MULTIPLICATIVE_GROUP_GENERATOR }
    );
    assert_eq!(prepare_ntt(&mut gpu, &request).len(), 0);
    let polys = vec![
        PolynomialCoeffs::new(elements(&vec![1; 1 << 14])),
        PolynomialCoeffs::new(elements(&vec![2; 1 << 14])),
    ];
    let mut request = device(lde_batch_coset_gpu(&polys, 1));
    assert_eq!(prepare_lde(&mut gpu, &request).len(), 0);
    request.lg_output = 26;
    assert_eq!(
        prepare_lde(&mut gpu, &request),
        vec![
            InitAction::Twiddle { lg_n: 26 },
            InitAction::Coset { lg_n: 26, coset_gen: MULTIPLICATIVE_GROUP_GENERATOR }
        ]
    );
    assert_eq!(prepare_lde(&mut gpu, &request).len(), 0);
}

#[test]
fn batch_gives_each_polynomial_what_it_gets_alone() {
    let n = 1 << 14;
    let polys: Vec<PolynomialCoeffs> = (0..5)
        .map(|i| PolynomialCoeffs::new(rand_vec(50 + i, n)))
        .collect();
    let request = device(fft_batch_gpu(polys.clone()));
    let values = finish_fft_batch_gpu(run_forward(&request), request.n);
    for (poly, batched) in polys.iter().zip(&values) {
        let request = device(fft_gpu(poly.clone()));
        assert_eq!(finish_fft_gpu(run_forward(&request)).values, batched.values);
    }
    let request = device(ifft_batch_gpu(values.clone()));
    let coeffs = finish_ifft_batch_gpu(run_inverse(&request), request.n, request.lg_n);
    for (value, batched) in values.iter().zip(&coeffs) {
        let request = device(ifft_gpu(value.clone()));
        let single = finish_ifft_gpu(run_inverse(&request), request.lg_n);
        assert_eq!(single.coeffs, batched.coeffs);
    }
    // The way back, over the whole batch.
    let request = device(fft_batch_gpu(coeffs));
    let again = finish_fft_batch_gpu(run_forward(&request), request.n);
    for (a, b) in values.iter().zip(&again) {
        assert_eq!(a.values, b.values);
    }
}

#[test]
fn extension_does_not_depend_on_the_batch() {
    let n = 1 << 13;
    let polys: Vec<PolynomialCoeffs> = (0..3)
        .map(|i| PolynomialCoeffs::new(rand_vec(60 + i, n)))
        .collect();
    let request = device(lde_batch_coset_gpu(&polys, 1));
    let mut reply = Vec::new();
    for part in request.input.chunks(n) {
        reply.extend(elements(&coset_values(&words(part), request.output_size)));
    }
    let batched = finish_lde_batch_coset_gpu(reply, request.output_size);
    for k in 0..3 {
        assert_eq!(host(lde_batch_coset_gpu(&polys[k..k + 1], 1))[0], batched[k]);
    }
}
