//! The multiplications, against sums that are formed point by point.

use ff::{Field, PrimeField};
use halo2curves::bn256::{Fr, G1Affine, G1};
use halo2curves::group::{Curve, Group};
use msm::curve::{CurveAffine, FieldScalar, SmallScalar};
use msm::dispatch::{algorithm_for, max_bits, Algorithm};
use msm::gpu::{msm_binary, msm_binary_gpu, MAX_BLOCK_DIM};
use msm::serial::cpu_msm_serial;
use msm::small::{
    msm_10, msm_10_serial, msm_small_rest, msm_small_rest_on, msm_small_rest_serial, shifts_fit_on,
    window_sum,
};
use msm::{msm_gpu, msm_gpu_inner, msm_small, msm_small_with_max_num_bits};
use rand_core::OsRng;

fn generator() -> G1Affine {
    G1Affine::generator()
}

/// The multiples of the generator by 1, 3, 5, ..
fn odd_points(n: usize) -> Vec<G1Affine> {
    let step = G1::generator() + G1::generator();
    let mut point = G1::generator();
    let mut res = Vec::new();
    for _ in 0..n {
        res.push(point.to_affine());
        point += step;
    }
    res
}

fn naive(coeffs: &[u64], bases: &[G1Affine]) -> G1 {
    let mut res = G1::identity();
    for (c, b) in coeffs.iter().zip(bases.iter()) {
        res += *b * Fr::from(*c);
    }
    res
}

/// The sum of the odd points by `coeffs`, as one multiple of the generator.
fn odd_sum(coeffs: &[u64]) -> G1 {
    let mut k = Fr::ZERO;
    for (i, c) in coeffs.iter().enumerate() {
        k += Fr::from(2 * i as u64 + 1) * Fr::from(*c);
    }
    generator() * k
}

/// A fixed row of numbers that looks random.
fn numbers(n: usize, bits: u32) -> Vec<u64> {
    let mut state = 0x9e37_79b9_7f4a_7c15u64;
    let mut res = Vec::new();
    for _ in 0..n {
        state ^= state << 13;
        state ^= state >> 7;
        state ^= state << 17;
        res.push(state >> (64 - bits));
    }
    res
}

fn field(coeffs: &[u64]) -> Vec<Fr> {
    coeffs.iter().map(|c| Fr::from(*c)).collect()
}

fn test_msm_ux_with() {
    let n = 1;
    let bases = (0..n)
        .map(|_| G1Affine::from(G1Affine::generator() * Fr::random(OsRng)))
        .collect::<Vec<_>>();

    for bit_width in [1] {
        let coeffs: Vec<u64> = (0..n).map(|_| 1 % (1 << bit_width)).collect::<Vec<_>>();

        let coeffs_scalar: Vec<Fr> = coeffs.iter().map(|b| Fr::from(*b)).collect::<Vec<_>>();
        let general_cpu = cpu_msm_serial(&coeffs_scalar, &bases);
        let general_gpu = msm_gpu(&coeffs_scalar, &bases);
        let integer = msm_binary(&coeffs, &bases);
        assert_eq!(general_cpu, integer);
        assert_eq!(general_gpu, general_cpu);
        assert_eq!(general_cpu, naive(&coeffs, &bases));
    }
}

#[test]
fn test_gpu_msm_ux() {
    test_msm_ux_with();
}

#[test]
fn random_points_by_random_field_elements() {
    let n = 40;
    let bases: Vec<G1Affine> =
        (0..n).map(|_| G1Affine::from(G1Affine::generator() * Fr::random(OsRng))).collect();
    let coeffs: Vec<Fr> = (0..n).map(|_| Fr::random(OsRng)).collect();
    let mut expected = G1::identity();
    for i in 0..n {
        expected += bases[i] * coeffs[i];
    }
    assert_eq!(cpu_msm_serial(&coeffs, &bases), expected);
    assert_eq!(msm_gpu(&coeffs, &bases), expected);
}

#[test]
fn every_width_of_words() {
    let bases = odd_points(37);
    for bits in 1..=64u32 {
        let coeffs = numbers(37, bits);
        let expected = odd_sum(&coeffs);
        assert_eq!(msm_small(&coeffs, &bases), expected, "{}", bits);
        assert_eq!(msm_small_with_max_num_bits(&coeffs, &bases, bits as usize), expected);
        assert_eq!(msm_gpu(&field(&coeffs), &bases), expected);
        assert_eq!(cpu_msm_serial(&field(&coeffs), &bases), expected);
    }
}

#[test]
fn every_small_number_of_bases() {
    for n in 1..=70usize {
        let bases = odd_points(n);
        let bits = numbers(n, 1);
        assert_eq!(msm_binary(&bits, &bases), odd_sum(&bits), "{}", n);
        let bytes = numbers(n, 8);
        assert_eq!(msm_small(&bytes, &bases), odd_sum(&bytes));
        let words = numbers(n, 40);
        assert_eq!(msm_small(&words, &bases), odd_sum(&words));
    }
    for n in 1..=34usize {
        let bases = odd_points(n);
        let words = numbers(n, 50);
        assert_eq!(msm_gpu(&field(&words), &bases), odd_sum(&words), "{}", n);
        assert_eq!(cpu_msm_serial(&field(&words), &bases), odd_sum(&words), "{}", n);
    }
}

#[test]
fn narrow_coefficient_types() {
    let bases = odd_points(4);
    let expected = generator() * Fr::from(200 + 3 * 17 + 7 * 255);
    assert_eq!(msm_small(&[200u8, 17, 0, 255], &bases), expected);
    assert_eq!(msm_small(&[200u16, 17, 0, 255], &bases), expected);
    assert_eq!(msm_small(&[200u32, 17, 0, 255], &bases), expected);
    assert_eq!(msm_small(&[200u64, 17, 0, 255], &bases), expected);
    assert_eq!(200u8.to_u64(), 200);
    assert_eq!(60000u16.to_u64(), 60000);
    assert_eq!(4_000_000_000u32.to_u64(), 4_000_000_000);
}

#[test]
fn binary_counts_every_coefficient_but_zero_as_one() {
    let bases = odd_points(5);
    let expected = generator() * Fr::from(3 + 5 + 9);
    assert_eq!(msm_binary(&[0i64, -3, 8, 0, 1], &bases), expected);
    assert_eq!(msm_binary(&[0u128, 3, 8, 0, 1], &bases), expected);
    assert_eq!(msm_binary(&[0isize, 3, 8, 0, 1], &bases), expected);
    assert_eq!(msm_small_with_max_num_bits(&[0u64, 3, 8, 0, 1], &bases, 1), expected);
}

#[test]
fn binary_takes_as_many_bases_as_there_are_coefficients() {
    let bases = odd_points(5);
    assert_eq!(msm_binary(&[1u8, 1], &bases), generator() * Fr::from(4));
    assert_eq!(msm_binary::<G1Affine, u8>(&[], &bases), G1::identity());
}

#[test]
fn no_bits_give_the_neutral_point() {
    let bases = odd_points(3);
    assert_eq!(msm_small(&[0u64, 0, 0], &bases), G1::identity());
    assert_eq!(msm_small_with_max_num_bits(&[5u64, 6, 7], &bases, 0), G1::identity());
    let none: [u64; 0] = [];
    assert_eq!(msm_small_with_max_num_bits::<G1Affine, u64>(&none, &[], 0), G1::identity());
    assert_eq!(msm_small_with_max_num_bits::<G1Affine, u64>(&none, &[], 7), G1::identity());
    assert_eq!(msm_small_with_max_num_bits::<G1Affine, u64>(&none, &[], 20), G1::identity());
    assert_eq!(cpu_msm_serial::<G1Affine>(&[], &[]), G1::identity());
}

#[test]
fn neutral_and_opposite_bases() {
    let p = generator();
    let minus = -p;
    let neutral = <G1Affine as CurveAffine>::identity();
    assert_eq!(msm_small(&[5u64, 5, 9], &[p, minus, neutral]), G1::identity());
    assert_eq!(msm_small(&[1u64, 1, 1], &[p, minus, neutral]), G1::identity());
    assert_eq!(msm_small(&[70000u64, 69999, 3], &[p, minus, neutral]), G1::generator());
    let coeffs = field(&[7, 6, 1]);
    assert_eq!(msm_gpu(&coeffs, &[p, minus, neutral]), G1::generator());
    assert_eq!(cpu_msm_serial(&coeffs, &[p, minus, neutral]), G1::generator());
}

#[test]
fn the_same_base_again_and_again() {
    let bases = vec![generator(); 100];
    let coeffs = numbers(100, 20);
    let total: u64 = coeffs.iter().sum();
    let expected = generator() * Fr::from(total);
    assert_eq!(msm_small(&coeffs, &bases), expected);
    assert_eq!(msm_gpu(&field(&coeffs), &bases), expected);
    assert_eq!(cpu_msm_serial(&field(&coeffs), &bases), expected);
}

#[test]
fn the_algorithm_follows_the_number_of_bits() {
    assert!(algorithm_for(0) == Algorithm::Zero);
    assert!(algorithm_for(1) == Algorithm::Binary);
    assert!(algorithm_for(2) == Algorithm::Buckets);
    assert!(algorithm_for(10) == Algorithm::Buckets);
    assert!(algorithm_for(11) == Algorithm::Windows);
    assert!(algorithm_for(64) == Algorithm::Windows);
}

#[test]
fn buckets_for_few_bits() {
    let bases = odd_points(50);
    let coeffs = numbers(50, 10);
    let expected = odd_sum(&coeffs);
    assert_eq!(msm_10(&coeffs, &bases, 10), expected);
    assert_eq!(msm_10_serial(&coeffs, &bases, 10), expected);
    assert_eq!(msm_10_serial(&coeffs, &bases, 12), expected);
    assert_eq!(msm_10_serial(&[3u64], &bases[..1], 2), generator() * Fr::from(3));
}

#[test]
fn windows_on_any_number_of_threads() {
    let bases = odd_points(67);
    for bits in [11u32, 31, 32, 33, 63, 64] {
        let coeffs = numbers(67, bits);
        let expected = odd_sum(&coeffs);
        assert_eq!(msm_small_rest_serial(&coeffs, &bases, bits as usize), expected);
        assert_eq!(msm_small_rest(&coeffs, &bases, bits as usize), expected);
        for num_threads in [1usize, 2, 3, 5, 8, 66, 67, 68, 1000] {
            let res = msm_small_rest_on(&coeffs, &bases, bits as usize, num_threads);
            assert_eq!(res, expected, "{} {}", bits, num_threads);
        }
    }
}

#[test]
fn windows_cut_off_what_they_do_not_cover() {
    // Eleven bits in windows of three: twelve bits are covered.
    let bases = odd_points(2);
    let res = msm_small_rest_serial(&[0xffffu64, 0x1001], &bases, 11);
    assert_eq!(res, generator() * Fr::from(0xfff + 3));
    let res = msm_small_rest_on(&[0xffffu64, 0x1001], &bases, 11, 4);
    assert_eq!(res, generator() * Fr::from(0xfff + 3));
    // Thirty-two bits in windows of eight.
    let res = msm_small_rest_serial(&[0x1_0000_0005u64], &bases[..1], 32);
    assert_eq!(res, generator() * Fr::from(5));
}

#[test]
fn more_bits_than_a_word_has() {
    let bases = odd_points(3);
    // No window looks at a coefficient of zero or one above its first bit.
    let res = msm_small_with_max_num_bits(&[1u64, 0, 1], &bases, 100);
    assert_eq!(res, generator() * Fr::from(6));
    // The last window of three bits starts at bit 63.
    let res = msm_small_with_max_num_bits(&[u64::MAX, 0, 1], &bases, 65);
    assert_eq!(res, generator() * (Fr::from(u64::MAX) + Fr::from(5)));
}

#[test]
fn a_buffer_can_be_used_again() {
    let bases = odd_points(1100);
    // Half of the bases make three blocks.
    let mut buffer = vec![G1::generator(); 6];
    for bits in [vec![1u8; 1100], vec![0; 1100], (0..1100).map(|i| (i % 2) as u8).collect()] {
        let coeffs: Vec<u64> = bits.iter().map(|b| *b as u64).collect();
        let res = msm_binary_gpu(&bits, &bases, &mut buffer);
        assert_eq!(res, odd_sum(&coeffs));
        assert_eq!(buffer[0] + buffer[1] + buffer[2], res);
    }
}

/// The limbs of `s` and of the modulus together: another representation of the same element.
fn unreduced(s: Fr) -> Fr {
    let modulus: [u64; 4] =
        [0x43e1f593f0000001, 0x2833e84879b97091, 0xb85045b68181585d, 0x30644e72e131a029];
    let mut limbs = [0u64; 4];
    let mut carry = 0u128;
    for i in 0..4 {
        let sum = s.0[i] as u128 + modulus[i] as u128 + carry;
        limbs[i] = sum as u64;
        carry = sum >> 64;
    }
    assert_eq!(carry, 0);
    Fr(limbs)
}

#[test]
fn unreduced_field_elements() {
    let zero = unreduced(Fr::ZERO);
    let one = unreduced(Fr::ONE);
    let seven = unreduced(Fr::from(7));
    assert!(!FieldScalar::is_zero(zero) && !FieldScalar::is_one(one));
    assert_eq!(FieldScalar::to_repr(zero), [0; 32]);
    assert_eq!(FieldScalar::to_repr(one), FieldScalar::to_repr(Fr::ONE));
    let bases = odd_points(5);
    let coeffs = [zero, one, seven, Fr::ONE, Fr::ZERO];
    let expected = generator() * Fr::from(3 + 5 * 7 + 7);
    assert_eq!(cpu_msm_serial(&coeffs, &bases), expected);
    assert_eq!(msm_gpu(&coeffs, &bases), expected);
}

#[test]
fn linear_in_the_coefficients() {
    let n = 40;
    let bases = odd_points(n);
    let a: Vec<Fr> = (0..n).map(|_| Fr::random(OsRng)).collect();
    let b: Vec<Fr> = (0..n).map(|_| Fr::random(OsRng)).collect();
    let k = Fr::random(OsRng);
    let c: Vec<Fr> = (0..n).map(|i| k * a[i] + b[i]).collect();
    let multiples: Vec<Fr> = a.iter().map(|x| k * x).collect();
    let for_a = cpu_msm_serial(&a, &bases);
    let for_b = cpu_msm_serial(&b, &bases);
    assert_eq!(cpu_msm_serial(&multiples, &bases), for_a * k);
    assert_eq!(cpu_msm_serial(&c, &bases), for_a * k + for_b);
    assert_eq!(msm_gpu(&c, &bases), for_a * k + for_b);
}

#[test]
fn surplus_coefficients() {
    let bases = odd_points(3);
    let expected = generator() * Fr::from(1 + 5);
    assert_eq!(msm_binary(&[1u8, 0, 1, 0, 0, 0, 0, 0, 0], &bases), expected);
    let mut buffer = vec![G1::identity(); 2];
    assert_eq!(msm_binary_gpu(&[1u8, 0, 1, 0, 0], &bases, &mut buffer), expected);
    let mut buffer = vec![G1::identity(); 6];
    let coeffs = field(&[2, 0, 1, 9, 9]);
    let expected = generator() * Fr::from(2 + 5);
    assert_eq!(msm_gpu_inner(&coeffs, &bases, &mut buffer), expected);
}

#[test]
fn windows_that_fit_for_some_threads() {
    // Twenty bases make windows of three bits, the last of which starts at bit 63; forty bases
    // make windows of five, the last of which would start at bit 65.
    let bases = odd_points(40);
    let coeffs = numbers(40, 64);
    assert_eq!(msm_small_rest_on(&coeffs, &bases, 66, 2), odd_sum(&coeffs));
    // Two pieces of forty bases have no coefficient above one, and the third has one base.
    let mut coeffs = numbers(80, 1);
    coeffs.push(u64::MAX);
    assert_eq!(msm_small_rest_on(&coeffs, &odd_points(81), 66, 2), odd_sum(&coeffs));
}

/// Coordinates of no point of the curve.
fn no_point() -> G1Affine {
    let mut res = generator();
    res.x += res.x;
    res
}

#[test]
fn bases_under_zero_coefficients_do_not_matter() {
    let mut bases = odd_points(6);
    bases[1] = no_point();
    bases[4] = no_point();
    for coeffs in [[1u64, 0, 1, 1, 0, 0], [5, 0, 9, 0, 0, 7], [70000, 0, 1, 1 << 40, 0, 3]] {
        let expected = odd_sum(&coeffs);
        assert_eq!(msm_small(&coeffs, &bases), expected);
        assert_eq!(cpu_msm_serial(&field(&coeffs), &bases), expected);
        assert_eq!(msm_gpu(&field(&coeffs), &bases), expected);
        assert_eq!(msm_small_rest_on(&coeffs, &bases, 64, 2), expected);
    }
    assert_eq!(msm_binary(&[1u8, 0, 1, 0, 0, 1], &bases), generator() * Fr::from(1 + 5 + 11));
    // What the windows cut off does not matter either.
    let res = msm_small_rest_on(&[3u64, 1 << 12], &bases[..2], 11, 1);
    assert_eq!(res, generator() * Fr::from(3));
    assert_eq!(CurveAffine::mul(no_point(), Fr::ZERO), G1::identity());
}

#[test]
fn the_least_width_of_words() {
    assert_eq!(max_bits(&[0u64, 0]), 0);
    assert_eq!(max_bits(&[0u8, 1]), 1);
    assert_eq!(max_bits(&[7u32, 8, 3]), 4);
    assert_eq!(max_bits(&[1u64 << 40, 9]), 41);
}

#[test]
fn windows_that_fit() {
    let coeffs = vec![2u64; 40];
    assert!(shifts_fit_on(&coeffs, 1, 64));
    assert!(shifts_fit_on(&coeffs, 2, 66));
    assert!(!shifts_fit_on(&coeffs, 1, 66));
    assert!(!shifts_fit_on(&coeffs, 2, 67));
    assert!(shifts_fit_on(&[1u64, 0, 1], 1, 1000));
    let none: [u64; 0] = [];
    assert!(shifts_fit_on(&none, 3, 1000));
    // The one coefficient above one is in the last piece, which is short.
    let mut coeffs = vec![1u64; 80];
    coeffs.push(9);
    assert!(shifts_fit_on(&coeffs, 2, 66));
    coeffs[0] = 9;
    assert!(!shifts_fit_on(&coeffs, 2, 66));
}

#[test]
fn one_window() {
    let bases = odd_points(3);
    let coeffs = [0b110_101u64, 1, 0b011_000];
    assert_eq!(window_sum(&coeffs, &bases, 0, 3), generator() * Fr::from(5 + 3));
    assert_eq!(window_sum(&coeffs, &bases, 3, 3), generator() * Fr::from(6 + 5 * 3));
    assert_eq!(window_sum(&coeffs, &bases, 6, 3), G1::identity());
}

#[test]
fn serial_takes_the_shorter_length() {
    let bases = odd_points(6);
    let coeffs = field(&[2, 1, 0]);
    assert_eq!(cpu_msm_serial(&coeffs, &bases), generator() * Fr::from(5));
    assert_eq!(cpu_msm_serial(&field(&[2, 1, 0, 9]), &bases[..2]), generator() * Fr::from(5));
}

#[test]
fn the_largest_field_element() {
    let minus_one = -Fr::ONE;
    let bases = odd_points(2);
    let coeffs = [minus_one, Fr::from(2)];
    let expected = generator() * Fr::from(5);
    assert_eq!(msm_gpu(&coeffs, &bases), expected);
    assert_eq!(cpu_msm_serial(&coeffs, &bases), expected);
    assert_eq!(Fr::from_str_vartime("0").unwrap(), Fr::ZERO);
}

#[test]
fn more_words_than_threads() {
    let bases = odd_points(1100);
    for bits in [2u32, 8, 10, 11, 20, 32, 64] {
        let coeffs = numbers(1100, bits);
        assert_eq!(msm_small(&coeffs, &bases), odd_sum(&coeffs), "{}", bits);
    }
}

#[test]
fn more_products_than_one_pass_sums() {
    // Enough products that two passes of the reduction kernel are needed on any machine that
    // has fewer threads.
    let n = 1100;
    let bases = odd_points(n);
    let coeffs = numbers(n, 16);
    let elements = field(&coeffs);
    let mut buffer = vec![G1::generator(); 2 * n];
    assert_eq!(msm_gpu_inner(&elements, &bases, &mut buffer), odd_sum(&coeffs));
    for i in [0usize, 1, 599, n - 1] {
        assert_eq!(buffer[i], bases[i] * elements[i]);
    }
}

#[test]
fn more_blocks_than_one_pass_sums() {
    // More than twice the blocks that one block of the reduction kernel sums.
    let n = 2 * 2 * (MAX_BLOCK_DIM as usize) * (MAX_BLOCK_DIM as usize) + 12345;
    let some = odd_points(16);
    let mut bases = Vec::new();
    let mut scalars: Vec<u8> = Vec::new();
    let mut total = 0u64;
    for i in 0..n {
        bases.push(some[i % 16]);
        let bit = (i % 7 != 3) as u8;
        scalars.push(bit);
        total += bit as u64 * (2 * (i as u64 % 16) + 1);
    }
    assert_eq!(msm_binary(&scalars, &bases), generator() * Fr::from(total));
}

#[test]
fn pairs_in_any_order() {
    let mut bases = odd_points(20);
    let mut coeffs = numbers(20, 30);
    let res = msm_small(&coeffs, &bases);
    bases.reverse();
    coeffs.reverse();
    assert_eq!(msm_small(&coeffs, &bases), res);
    bases.swap(2, 11);
    coeffs.swap(2, 11);
    assert_eq!(msm_small(&coeffs, &bases), res);
}

#[test]
fn zero_pairs_drop() {
    let bases = odd_points(3);
    let shorter = [bases[0], bases[2]];
    assert_eq!(msm_small(&[900u64, 0, 3], &bases), msm_small(&[900u64, 3], &shorter));
}

#[test]
fn rows_and_coefficients_add() {
    let bases = odd_points(10);
    let coeffs = numbers(10, 12);
    let whole = msm_small(&coeffs, &bases);
    let first = msm_small(&coeffs[..4], &bases[..4]);
    let second = msm_small(&coeffs[4..], &bases[4..]);
    assert_eq!(first + second, whole);
    let more = numbers(10, 20);
    let both: Vec<u64> = coeffs.iter().zip(more.iter()).map(|(a, b)| a + b).collect();
    assert_eq!(msm_small(&both, &bases), whole + msm_small(&more, &bases));
}
