use plonky2_gpu::goldilocks::{GoldilocksField, RichField, ORDER};
use plonky2_gpu::gpu::Step;
use plonky2_gpu::transpose_gpu::{
    finish_transpose_rev_gpu, should_use_gpu_transpose, transpose_and_reverse,
    transpose_and_reverse_cpu, transpose_rev_gpu, TransposeConfig, TransposeRequest,
};

type F = GoldilocksField;

fn rand_vec(seed: u64, n: usize) -> Vec<F> {
    let mut state = seed;
    (0..n)
        .map(|_| {
            state = state.wrapping_add(0x9E3779B97F4A7C15);
            let mut z = state;
            z = (z ^ (z >> 30)).wrapping_mul(0xBF58476D1CE4E5B9);
            z = (z ^ (z >> 27)).wrapping_mul(0x94D049BB133111EB);
            GoldilocksField((z ^ (z >> 31)) % ORDER)
        })
        .collect()
}

fn rand_matrix(seed: u64, batch_size: usize, n: usize) -> Vec<Vec<F>> {
    (0..batch_size).map(|i| rand_vec(seed + i as u64, n)).collect()
}

fn transpose(matrix: &[Vec<F>]) -> Vec<Vec<F>> {
    (0..matrix[0].len())
        .map(|j| matrix.iter().map(|row| row[j]).collect())
        .collect()
}

fn reverse_index_bits_in_place<T>(v: &mut Vec<T>) {
    let lg = v.len().trailing_zeros();
    for i in 0..v.len() {
        let j = i.reverse_bits() >> (usize::BITS - lg);
        if i < j {
            v.swap(i, j);
        }
    }
}

/// What the device does to the words of a request.
fn run(request: &TransposeRequest) -> Vec<u64> {
    let n = request.n;
    let batch_size = request.cfg.batches as usize;
    let mut output = vec![0u64; request.output_len];
    for i in 0..batch_size {
        for j in 0..n {
            let k = j.reverse_bits() >> (usize::BITS as usize - request.lg_n);
            output[k * batch_size + i] = request.input[i * n + j];
        }
    }
    output
}

fn device<T, R>(step: Step<T, R>) -> R {
    match step {
        Step::Host(_) => panic!("expected the device"),
        Step::Device(r) => r,
    }
}

#[test]
fn test_transpose_and_reverse_cpu() {
    // Test basic functionality with small matrix
    let n = 8;
    let batch_size = 4;

    let matrix = rand_matrix(1, batch_size, n);

    let result = transpose_and_reverse_cpu(&matrix);

    // Check dimensions
    assert_eq!(result.len(), n);
    assert_eq!(result[0].len(), batch_size);
}

#[test]
fn test_transpose_and_reverse_consistency() {
    // Compare our combined function with separate operations
    let n = 16;
    let batch_size = 8;

    let matrix = rand_matrix(2, batch_size, n);

    // Method 1: Combined
    let result1 = transpose_and_reverse_cpu(&matrix);

    // Method 2: Separate operations
    let mut result2 = transpose(&matrix);
    reverse_index_bits_in_place(&mut result2);

    // Should be identical
    assert_eq!(result1.len(), result2.len());
    for i in 0..result1.len() {
        assert_eq!(result1[i], result2[i], "Row {} mismatch", i);
    }
}

#[test]
fn test_transpose_rev_gpu_correctness() {
    // Test GPU vs CPU consistency
    for lg_n in [12, 14, 16] {
        let n = 1 << lg_n;
        let batch_size = 64;

        let matrix = rand_matrix(3, batch_size, n);

        // GPU result
        let request = device(transpose_rev_gpu(&matrix));
        let output = run(&request);
        let result_gpu: Vec<Vec<F>> = finish_transpose_rev_gpu(&output, request.n, batch_size);

        // CPU result (separate operations)
        let mut result_cpu = transpose(&matrix);
        reverse_index_bits_in_place(&mut result_cpu);

        // Compare
        assert_eq!(result_gpu.len(), result_cpu.len(), "Length mismatch for n={}", n);

        for i in 0..result_gpu.len() {
            assert_eq!(result_gpu[i], result_cpu[i], "Row {} mismatch for n={}", i, n);
        }
    }
}

#[test]
fn device_range_of_row_lengths() {
    assert!(!should_use_gpu_transpose(4095, 2));
    assert!(should_use_gpu_transpose(4096, 2));
    assert!(should_use_gpu_transpose(8192, 128));
    assert!(!should_use_gpu_transpose(8193, 2));
    assert!(!should_use_gpu_transpose(4096, 1));
}

#[test]
fn small_matrix_element_by_element() {
    let matrix = vec![vec![0, 1, 2, 3], vec![10, 11, 12, 13]];
    let result = transpose_and_reverse_cpu(&matrix);
    assert_eq!(result, vec![vec![0, 10], vec![2, 12], vec![1, 11], vec![3, 13]]);
    // Columns beyond the first row's length are left out.
    let ragged = vec![vec![5, 6], vec![7, 8, 9]];
    assert_eq!(transpose_and_reverse_cpu(&ragged), vec![vec![5, 7], vec![6, 8]]);
}

#[test]
fn matrix_without_rows() {
    let none: Vec<Vec<F>> = Vec::new();
    assert_eq!(transpose_and_reverse_cpu(&none).len(), 0);
    assert!(matches!(transpose_rev_gpu(&none), Step::Host(r) if r.is_empty()));
    assert!(matches!(transpose_and_reverse(&none, true), Step::Host(r) if r.is_empty()));
}

#[test]
fn request_holds_the_canonical_words() {
    let matrix = vec![vec![F::zero(), GoldilocksField(ORDER + 3)], vec![F::one(), F::one()]];
    let request = device(transpose_rev_gpu(&matrix));
    assert_eq!(request.input, vec![0, 3, 1, 1]);
    assert_eq!(request.output_len, 4);
    assert_eq!(request.lg_n, 1);
    assert_eq!(
        request.cfg,
        TransposeConfig { batches: 2, are_inputs_on_device: false, are_outputs_on_device: false }
    );
}

#[test]
fn only_goldilocks_matrices_in_range_go_to_the_device() {
    let matrix = rand_matrix(4, 2, 4096);
    let cpu = transpose_and_reverse_cpu(&matrix);
    match transpose_and_reverse(&matrix, false) {
        Step::Host(result) => assert_eq!(result, cpu),
        Step::Device(_) => panic!("expected the host"),
    }
    let request = device(transpose_and_reverse(&matrix, true));
    let result: Vec<Vec<F>> =
        finish_transpose_rev_gpu(&run(&request), request.n, request.batch_size);
    assert_eq!(result, cpu);
    let small = rand_matrix(5, 2, 2048);
    assert!(matches!(transpose_and_reverse(&small, true), Step::Host(_)));
    assert_eq!(F::from_canonical_u64(5), GoldilocksField(5));
}

#[test]
fn transposing_twice_and_four_times() {
    let matrix: Vec<Vec<u32>> = (0..4).map(|i| (0..8).map(|j| 10 * i + j).collect()).collect();
    let twice = transpose_and_reverse_cpu(&transpose_and_reverse_cpu(&matrix));
    for i in 0..4usize {
        for j in 0..8usize {
            let x = i.reverse_bits() >> (usize::BITS - 2);
            let y = j.reverse_bits() >> (usize::BITS - 3);
            assert_eq!(twice[x][y], matrix[i][j]);
        }
    }
    let fourth = transpose_and_reverse_cpu(&transpose_and_reverse_cpu(&twice));
    assert_eq!(fourth, matrix);
}
