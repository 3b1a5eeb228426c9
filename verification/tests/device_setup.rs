use plonky2_gpu::bits::{check_power_of_two, log2_strict, pow2_exec, reverse_bits};
use plonky2_gpu::goldilocks::{GoldilocksField, RichField, MULTIPLICATIVE_GROUP_GENERATOR, ORDER};
use plonky2_gpu::gpu::{gpu_id, merkle_gpu_id, GpuState, InitAction};
use plonky2_gpu::rows::{flatten, split_chunks};

#[test]
fn device_number_is_zero_by_default() {
    assert_eq!(gpu_id(None), 0);
    assert_eq!(merkle_gpu_id(None), 0);
    for s in ["", "+", "-", "one", " 1", "1 ", "1x", "--1", "+-1", "0x1", "1.0"] {
        assert_eq!(gpu_id(Some(s.as_bytes())), 0, "{:?}", s);
        assert_eq!(merkle_gpu_id(Some(s.as_bytes())), 0, "{:?}", s);
    }
}

#[test]
fn device_number_is_read_from_the_setting() {
    for s in ["0", "1", "7", "+3", "007", "2147483647", "-1", "-2147483648", "-0", "+0"] {
        assert_eq!(gpu_id(Some(s.as_bytes())), s.parse::<i32>().unwrap(), "{:?}", s);
    }
    for s in ["0", "1", "+3", "007", "4294967296", "18446744073709551615"] {
        assert_eq!(merkle_gpu_id(Some(s.as_bytes())), s.parse::<u64>().unwrap(), "{:?}", s);
    }
}

#[test]
fn device_number_out_of_range_is_zero() {
    for s in ["2147483648", "-2147483649", "99999999999999999999999999"] {
        assert_eq!(gpu_id(Some(s.as_bytes())), 0);
    }
    for s in ["18446744073709551616", "-1", "-0", "99999999999999999999999999"] {
        assert_eq!(merkle_gpu_id(Some(s.as_bytes())), 0);
    }
}

#[test]
fn first_use_prepares_the_common_sizes() {
    let mut gpu = GpuState::new();
    let actions = gpu.ensure_gpu_initialized();
    let mut expected =
        vec![InitAction::Coset { lg_n: 24, coset_gen: MULTIPLICATIVE_GROUP_GENERATOR }];
    for lg_n in 2..=24 {
        expected.push(InitAction::Twiddle { lg_n });
    }
    assert_eq!(actions, expected);
    assert_eq!(gpu.ensure_gpu_initialized().len(), 0);
    for lg_n in 2..=24 {
        assert_eq!(gpu.ensure_twiddle_factors(lg_n).len(), 0);
        assert_eq!(gpu.ensure_coset_factors(lg_n).len(), 0);
    }
}

#[test]
fn larger_sizes_are_prepared_when_asked_for() {
    let mut gpu = GpuState::new();
    let actions = gpu.ensure_twiddle_factors(30);
    assert_eq!(actions.len(), 25);
    assert_eq!(actions[24], InitAction::Twiddle { lg_n: 30 });
    assert_eq!(gpu.ensure_twiddle_factors(30).len(), 0);
    assert_eq!(gpu.ensure_twiddle_factors(29), vec![InitAction::Twiddle { lg_n: 29 }]);
    assert_eq!(gpu.ensure_twiddle_factors(30).len(), 0);
    let coset = InitAction::Coset { lg_n: 26, coset_gen: MULTIPLICATIVE_GROUP_GENERATOR };
    assert_eq!(gpu.ensure_coset_factors(26), vec![coset]);
    // Coset powers cover all smaller sizes.
    assert_eq!(gpu.ensure_coset_factors(25).len(), 0);
    assert_eq!(gpu.ensure_coset_factors(26).len(), 0);
}

#[test]
fn powers_of_two_and_bit_reversal() {
    assert_eq!(pow2_exec(10), 1024);
    assert_eq!(log2_strict(1), 0);
    assert_eq!(log2_strict(4096), 12);
    assert!(!check_power_of_two(0));
    assert!(check_power_of_two(1));
    assert!(!check_power_of_two(6));
    let reversed: Vec<usize> = (0..8).map(|i| reverse_bits(i, 3)).collect();
    assert_eq!(reversed, vec![0, 4, 2, 6, 1, 5, 3, 7]);
    for i in 0..1024 {
        assert_eq!(reverse_bits(reverse_bits(i, 10), 10), i);
    }
}

#[test]
fn joining_and_cutting_rows() {
    let rows = vec![vec![1, 2, 3], vec![4, 5, 6]];
    let flat = flatten(&rows);
    assert_eq!(flat, vec![1, 2, 3, 4, 5, 6]);
    assert_eq!(split_chunks(&flat, 3), rows);
    assert_eq!(split_chunks(&flat, 4), vec![vec![1, 2, 3, 4], vec![5, 6]]);
    assert_eq!(split_chunks(&flat[0..0], 4).len(), 0);
}

#[test]
fn field_arithmetic() {
    let minus_one = GoldilocksField(ORDER - 1);
    assert_eq!((minus_one * minus_one).to_canonical_u64(), 1);
    assert_eq!((minus_one + GoldilocksField::one()).to_canonical_u64(), 0);
    assert_eq!((GoldilocksField(3) - GoldilocksField(5)).to_canonical_u64(), ORDER - 2);
    // The same element in two forms.
    assert_eq!(GoldilocksField(ORDER + 7), GoldilocksField(7));
    assert_eq!(GoldilocksField(u64::MAX).to_canonical_u64(), 0xFFFF_FFFE);
    assert_eq!(
        (GoldilocksField(u64::MAX) * GoldilocksField(u64::MAX)).to_canonical_u64(),
        ((u64::MAX as u128 * u64::MAX as u128) % ORDER as u128) as u64
    );
    assert_eq!(GoldilocksField::zero().to_canonical_u64(), 0);
    assert_eq!(GoldilocksField::coset_shift().0, 14293326489335486720);
}

#[test]
fn inverses_of_powers_of_two() {
    assert_eq!(GoldilocksField::inverse_2exp(0).to_canonical_u64(), 1);
    assert_eq!(GoldilocksField::inverse_2exp(1).to_canonical_u64(), 9223372034707292161);
    assert_eq!(GoldilocksField::inverse_2exp(3).to_canonical_u64(), 16140901060737761281);
    assert_eq!(GoldilocksField::inverse_2exp(32).to_canonical_u64(), 18446744065119617026);
    assert_eq!(GoldilocksField::inverse_2exp(40).to_canonical_u64(), 18374686475376656385);
}
