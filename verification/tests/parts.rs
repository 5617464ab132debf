//! The parts that the multiplications are made of.

use ff::Field;
use halo2curves::bn256::{Fr, G1Affine, G1};
use halo2curves::group::{Curve, Group};
use msm::buckets::Bucket;
use msm::bytes::get_at;
use msm::curve::{Coefficient, CurveAffine, CurveGroup, FieldScalar, Summand};
use msm::digits::{compute_ln, num_bits};
use msm::gpu::{
    grid_for, host_can_sum, reduce_passes, shared_memory_size, sum_on_host, Reduction,
    MAX_BLOCK_DIM,
};
use msm::kernels::{
    binary_thread, fold_partner, msm_binary_kernel, msm_kernel, reduce_sum, reduce_thread,
    steps_fit, Grid,
};
use msm::serial::{ln_ceil, segment_bits};
use msm::small::window_bits;

fn multiple(k: u64) -> G1 {
    G1Affine::generator() * Fr::from(k)
}

fn affine(k: u64) -> G1Affine {
    multiple(k).to_affine()
}

#[test]
fn group_operations() {
    let neutral = <G1 as CurveGroup>::identity();
    assert_eq!(neutral, <G1 as Group>::identity());
    assert_eq!(CurveGroup::plus(multiple(3), multiple(4)), multiple(7));
    assert_eq!(CurveGroup::plus(multiple(3), multiple(3)), multiple(6));
    assert_eq!(CurveGroup::plus(multiple(3), neutral), multiple(3));
    assert_eq!(CurveGroup::double(multiple(5)), multiple(10));
    assert_eq!(CurveGroup::double(neutral), neutral);
    assert_eq!(CurveAffine::plus(affine(3), affine(4)), multiple(7));
    assert_eq!(CurveAffine::add_to(affine(3), multiple(9)), multiple(12));
    assert_eq!(CurveAffine::to_curve(affine(8)), multiple(8));
    assert_eq!(CurveAffine::mul(affine(8), Fr::from(6)), multiple(48));
    let stored = <G1Affine as CurveAffine>::identity();
    assert_eq!(CurveAffine::to_curve(stored), neutral);
    assert_eq!(CurveAffine::plus(stored, affine(2)), multiple(2));
    assert_eq!(Summand::<G1>::sum_with(affine(1), affine(2)), multiple(3));
    assert_eq!(Summand::<G1>::alone(affine(2)), multiple(2));
    assert_eq!(Summand::<G1>::sum_with(multiple(1), multiple(2)), multiple(3));
}

#[test]
fn the_order_of_the_group() {
    // One less than the order times the generator is the opposite of the generator.
    let minus = CurveAffine::mul(affine(1), -Fr::ONE);
    assert_eq!(CurveAffine::add_to(affine(1), minus), <G1 as Group>::identity());
    let repr = FieldScalar::to_repr(-Fr::ONE);
    assert_eq!(repr[0], 0x00);
    assert_eq!(repr[1], 0x00);
    assert_eq!(repr[3], 0xf0);
    assert_eq!(repr[31], 0x30);
    assert_eq!(repr[30], 0x64);
}

#[test]
fn field_elements() {
    assert!(FieldScalar::is_zero(Fr::ZERO));
    assert!(!FieldScalar::is_zero(Fr::ONE));
    assert!(!FieldScalar::is_zero(Fr::from(256)));
    assert!(FieldScalar::is_one(Fr::ONE));
    assert!(!FieldScalar::is_one(Fr::ZERO));
    assert!(!FieldScalar::is_one(Fr::from(257)));
    let repr = FieldScalar::to_repr(Fr::from(0x0102_0304));
    assert_eq!(repr[..5], [4, 3, 2, 1, 0]);
    assert_eq!(repr[31], 0);
}

#[test]
fn zero_tests() {
    assert!(0u8.is_zero() && !1u8.is_zero());
    assert!(0u16.is_zero() && !256u16.is_zero());
    assert!(0u32.is_zero() && !65536u32.is_zero());
    assert!(0u64.is_zero() && !(1u64 << 40).is_zero());
    assert!(0u128.is_zero() && !(1u128 << 100).is_zero());
    assert!(0usize.is_zero() && !9usize.is_zero());
    assert!(0i8.is_zero() && !(-1i8).is_zero());
    assert!(0i16.is_zero() && !(-1i16).is_zero());
    assert!(0i32.is_zero() && !(-1i32).is_zero());
    assert!(0i64.is_zero() && !(-1i64).is_zero());
    assert!(0i128.is_zero() && !(-1i128).is_zero());
    assert!(0isize.is_zero() && !(-1isize).is_zero());
}

#[test]
fn buckets() {
    let mut bucket: Bucket<G1Affine> = Bucket::Empty;
    let other = multiple(5);
    let same = bucket.add(other);
    assert_eq!((same.x, same.y, same.z), (other.x, other.y, other.z));
    bucket.add_assign(&affine(2));
    assert!(matches!(bucket, Bucket::Affine(_)));
    assert_eq!(bucket.add(multiple(5)), multiple(7));
    bucket.add_assign(&affine(3));
    assert!(matches!(bucket, Bucket::Projective(_)));
    assert_eq!(bucket.add(multiple(5)), multiple(10));
    bucket.add_assign(&affine(10));
    assert_eq!(bucket.add(multiple(0)), multiple(15));
}

#[test]
fn bits_of_a_word() {
    assert_eq!(num_bits(0), 0);
    assert_eq!(num_bits(1), 1);
    assert_eq!(num_bits(2), 2);
    assert_eq!(num_bits(3), 2);
    assert_eq!(num_bits(4), 3);
    assert_eq!(num_bits(1023), 10);
    assert_eq!(num_bits(1024), 11);
    assert_eq!(num_bits(usize::MAX), usize::BITS as usize);
}

#[test]
fn estimated_logarithms() {
    assert_eq!(compute_ln(0), 0);
    assert_eq!(compute_ln(1), 0);
    assert_eq!(compute_ln(2), 0);
    assert_eq!(compute_ln(4), 1);
    assert_eq!(compute_ln(1024), 6);
    assert_eq!(compute_ln(1 << 20), 13);
    assert_eq!(compute_ln((1 << 20) - 1), 13);
}

#[test]
fn logarithms_rounded_up() {
    assert_eq!(ln_ceil(1), 0);
    assert_eq!(ln_ceil(2), 1);
    assert_eq!(ln_ceil(3), 2);
    assert_eq!(ln_ceil(32), 4);
    assert_eq!(ln_ceil(54), 4);
    assert_eq!(ln_ceil(55), 5);
    assert_eq!(ln_ceil(u32::MAX), 23);
    for n in 1..200_000u32 {
        assert_eq!(ln_ceil(n), f64::from(n).ln().ceil() as usize);
    }
    for k in 1..23 {
        let near = f64::from(k).exp() as u32;
        for n in near - 1..near + 3 {
            assert_eq!(ln_ceil(n), f64::from(n).ln().ceil() as usize);
        }
    }
    let mut n = 1u32;
    while n < u32::MAX - 99_991 {
        assert_eq!(ln_ceil(n), f64::from(n).ln().ceil() as usize);
        n += 99_991;
    }
}

#[test]
fn widths_of_segments_and_windows() {
    assert_eq!(segment_bits(0), 1);
    assert_eq!(segment_bits(3), 1);
    assert_eq!(segment_bits(4), 3);
    assert_eq!(segment_bits(31), 3);
    assert_eq!(segment_bits(32), 4);
    assert_eq!(segment_bits(1 << 20), 14);
    assert_eq!(window_bits(31, 20), 3);
    assert_eq!(window_bits(32, 20), 5);
    assert_eq!(window_bits(1024, 20), 8);
    assert_eq!(window_bits(1 << 20, 20), 15);
    assert_eq!(window_bits(5, 32), 8);
    assert_eq!(window_bits(1 << 20, 64), 8);
}

#[test]
fn digits_of_bytes() {
    let mut bytes = [0u8; 32];
    for (i, b) in bytes.iter_mut().enumerate() {
        *b = (17 * i + 3) as u8;
    }
    for c in 1..=23usize {
        for segment in 0..(256 / c + 1) {
            let mut expected = 0usize;
            for bit in (0..c).rev() {
                let at = segment * c + bit;
                let one = at < 256 && bytes[at / 8] >> (at % 8) & 1 == 1;
                expected = 2 * expected + one as usize;
            }
            assert_eq!(get_at(segment, c, &bytes), expected);
        }
    }
    assert_eq!(get_at(1000, 3, &bytes), 0);
    assert_eq!(get_at(0, 32, &[0xff; 32]), 0xffff_ffff);
    assert_eq!(get_at(7, 32, &[0xff; 32]), 0xffff_ffff);
    // No bits at all, and digits that are spread over nine bytes.
    assert_eq!(get_at(5, 0, &bytes), 0);
    assert_eq!(get_at(1, 57, &[0xff; 32]), (1 << 57) - 1);
    assert_eq!(get_at(1, 60, &[0xff; 32]), (1 << 60) - 1);
    assert_eq!(get_at(1, 63, &[0xff; 32]), (1 << 57) - 1);
    assert_eq!(get_at(4, 63, &[0xff; 32]), 0xf);
}

#[test]
fn grids() {
    let grid = grid_for(1);
    assert_eq!((grid.grid_dim, grid.block_dim), (1, 1));
    let grid = grid_for(255);
    assert_eq!((grid.grid_dim, grid.block_dim), (1, 255));
    let grid = grid_for(256);
    assert_eq!((grid.grid_dim, grid.block_dim), (1, 256));
    let grid = grid_for(257);
    assert_eq!((grid.grid_dim, grid.block_dim), (2, 256));
    let grid = grid_for(u32::MAX);
    assert_eq!((grid.grid_dim, grid.block_dim), (1 << 24, 256));
    assert_eq!(MAX_BLOCK_DIM, 256);
    assert_eq!(shared_memory_size(256, 96), 257 * 96);
    assert!(host_can_sum(8, 8));
    assert!(!host_can_sum(9, 8));
}

#[test]
fn passes_of_a_reduction() {
    assert!(Reduction { start: 7, len: 1, even: false }.next().is_none());
    let (pass, rest) = Reduction { start: 0, len: 512, even: false }.next().unwrap();
    assert_eq!((pass.start, pass.end), (0, 512));
    assert_eq!((pass.grid.grid_dim, pass.grid.block_dim), (1, 256));
    assert_eq!((rest.start, rest.len), (512, 1));
    let (pass, rest) = Reduction { start: 10, len: 513, even: false }.next().unwrap();
    assert_eq!((pass.start, pass.end), (10, 523));
    assert_eq!((pass.grid.grid_dim, pass.grid.block_dim), (2, 256));
    assert_eq!((rest.start, rest.len), (523, 2));
    let (pass, rest) = rest.next().unwrap();
    assert_eq!((pass.start, pass.end), (523, 525));
    assert_eq!((rest.start, rest.len), (525, 1));
    assert!(rest.next().is_none());
    // The sums of three points above the last pair.
    let (pass, rest) = Reduction { start: 0, len: 3, even: true }.next().unwrap();
    assert_eq!((pass.start, pass.end, pass.target), (0, 3, 4));
    assert_eq!((rest.start, rest.len, rest.even), (4, 1, true));
    let (pass, rest) = Reduction { start: 6, len: 4, even: true }.next().unwrap();
    assert_eq!((pass.start, pass.end, pass.target), (6, 10, 10));
    assert_eq!((rest.start, rest.len), (10, 1));
}

#[test]
fn passes_stay_in_twice_the_room() {
    for len in (1..3000u32).chain([65536, 65537, 262_144, 262_145, 1 << 24, (1 << 31) - 1]) {
        for even in [false, true] {
            let mut left = Reduction { start: 0, len, even };
            while let Some((pass, rest)) = left.next() {
                assert_eq!(pass.start, left.start);
                assert_eq!(pass.end, left.start + left.len as usize);
                assert!(pass.target == pass.end || even && pass.target == pass.end + 1);
                assert_eq!(rest.start, pass.target);
                assert_eq!(rest.len, pass.grid.grid_dim);
                assert!(2 * rest.len <= left.len);
                left = rest;
            }
            assert_eq!(left.len, 1);
            assert!(left.start + 1 <= 2 * len as usize);
        }
    }
}

#[test]
fn the_host_sums_points() {
    let points: Vec<G1> = (1..=20).map(|k| multiple(k)).collect();
    assert_eq!(sum_on_host(&points), multiple(210));
    assert_eq!(sum_on_host(&points[4..5]), multiple(5));
    let none: [G1; 0] = [];
    assert_eq!(sum_on_host(&none), multiple(0));
}

#[test]
fn passes_leave_their_sums() {
    // 600 points make two blocks of 256 threads, and their two sums one.
    let mut buffer: Vec<G1> = vec![multiple(1); 600];
    buffer.resize(1200, multiple(99));
    assert_eq!(reduce_passes(&mut buffer, 600, false), multiple(600));
    assert_eq!(buffer[600], multiple(256 + 88));
    assert_eq!(buffer[601], multiple(256));
    assert_eq!(buffer[602], multiple(600));
    assert_eq!(buffer[603], multiple(99));
    assert_eq!(buffer[1199], multiple(99));
    // Three points, whose sum stands above the last pair or right above the last of them.
    let mut buffer: Vec<G1> = vec![multiple(1), multiple(2), multiple(3)];
    buffer.resize(6, multiple(99));
    assert_eq!(reduce_passes(&mut buffer, 3, true), multiple(6));
    assert_eq!(buffer[3], multiple(99));
    assert_eq!(buffer[4], multiple(6));
    assert_eq!(buffer[5], multiple(99));
    buffer[4] = multiple(99);
    assert_eq!(reduce_passes(&mut buffer, 3, false), multiple(6));
    assert_eq!(buffer[3], multiple(6));
    assert_eq!(buffer[4], multiple(99));
}

#[test]
fn reduction_in_passes() {
    for n in [1usize, 2, 3, 7, 100, 255, 256, 257, 511, 512, 513, 1000, 1500] {
        let mut buffer: Vec<G1> = Vec::new();
        let mut point = <G1 as Group>::identity();
        for _ in 0..n {
            point += G1::generator();
            buffer.push(point);
        }
        buffer.resize(2 * n, multiple(99));
        let before = buffer.clone();
        let total = (n * (n + 1) / 2) as u64;
        for even in [false, true] {
            assert_eq!(reduce_passes(&mut buffer, n as u32, even), multiple(total), "{}", n);
            assert!(buffer[..n] == before[..n]);
        }
    }
}

#[test]
fn binary_kernel_on_any_grid() {
    let bases: Vec<G1Affine> = (1..=50).map(|k| affine(k)).collect();
    let scalars: Vec<u8> = (0..50).map(|i| (i % 3 != 1) as u8).collect();
    for (grid_dim, block_dim) in [(1u32, 1u32), (1, 3), (2, 5), (3, 8), (5, 4), (1, 64), (4, 7)] {
        let grid = Grid { grid_dim, block_dim };
        let threads = (grid_dim * block_dim) as usize;
        let mut sums = vec![multiple(77); grid_dim as usize + 2];
        msm_binary_kernel(&scalars, &bases, &mut sums, grid);
        for b in 0..grid_dim as usize {
            let mut k = 0u64;
            for i in 0..50usize {
                if i % threads / block_dim as usize == b && scalars[i] != 0 {
                    k += i as u64 + 1;
                }
            }
            assert_eq!(sums[b], multiple(k), "{} {} {}", grid_dim, block_dim, b);
        }
        assert_eq!(sums[grid_dim as usize], multiple(77));
        assert_eq!(sums[grid_dim as usize + 1], multiple(77));
    }
    // The thread 1 of 4 goes to the places 1, 5, 9.
    assert_eq!(binary_thread(&[1u8; 10], &bases, 1, 4), multiple(2 + 6 + 10));
    assert_eq!(binary_thread(&[1u8; 3], &bases, 3, 4), multiple(0));
}

#[test]
fn reduction_kernel_on_any_grid() {
    let stored: Vec<G1Affine> = (1..=45).map(|k| affine(k)).collect();
    let points: Vec<G1> = (1..=45).map(|k| multiple(k)).collect();
    for (grid_dim, block_dim) in [(1u32, 1u32), (1, 23), (3, 6), (2, 16), (1, 1024)] {
        let grid = Grid { grid_dim, block_dim };
        let threads = (grid_dim * block_dim) as usize;
        let mut sums = vec![multiple(77); grid_dim as usize + 1];
        let mut others = sums.clone();
        reduce_sum(&points, &mut sums, grid);
        reduce_sum(&stored, &mut others, grid);
        for b in 0..grid_dim as usize {
            let mut k = 0u64;
            for i in 0..45usize {
                if i % threads / block_dim as usize == b {
                    k += i as u64 + 1;
                }
            }
            assert_eq!(sums[b], multiple(k));
            assert_eq!(others[b], multiple(k));
        }
        assert_eq!(sums[grid_dim as usize], multiple(77));
    }
    let sum: G1 = reduce_thread(&points, 0, 20);
    assert_eq!(sum, multiple(1 + 21 + 41));
}

#[test]
fn multiplication_kernel() {
    let bases: Vec<G1Affine> = (1..=7).map(|k| affine(k)).collect();
    let scalars: Vec<Fr> = (0..7).map(|i| Fr::from(10 + i)).collect();
    let mut products = vec![multiple(77); 9];
    msm_kernel(&scalars, &bases, &mut products, Grid { grid_dim: 2, block_dim: 5 });
    for i in 0..7usize {
        assert_eq!(products[i], multiple((i as u64 + 1) * (10 + i as u64)));
    }
    assert_eq!(products[7], multiple(77));
    let mut products = vec![multiple(77); 7];
    msm_kernel(&scalars, &bases, &mut products, Grid { grid_dim: 1, block_dim: 3 });
    assert_eq!(products[2], multiple(36));
    assert_eq!(products[3], multiple(77));
    // Rows of different lengths, all of them long enough for eight threads.
    let bases: Vec<G1Affine> = (1..=12).map(|k| affine(k)).collect();
    let scalars: Vec<Fr> = (0..10).map(|i| Fr::from(10 + i)).collect();
    let mut products = vec![multiple(77); 8];
    msm_kernel(&scalars, &bases, &mut products, Grid { grid_dim: 2, block_dim: 4 });
    for i in 0..8usize {
        assert_eq!(products[i], multiple((i as u64 + 1) * (10 + i as u64)));
    }
}

#[test]
fn partners_in_a_block() {
    assert_eq!(fold_partner(0, 4, 8), Some(4));
    assert_eq!(fold_partner(3, 4, 8), Some(7));
    assert_eq!(fold_partner(4, 4, 8), None);
    assert_eq!(fold_partner(2, 4, 6), None);
    assert_eq!(fold_partner(1, 4, 6), Some(5));
    assert_eq!(fold_partner(0, 8, 8), None);
    assert_eq!(fold_partner(7, u32::MAX, u32::MAX), None);
}

#[test]
fn steps_in_a_word() {
    assert!(steps_fit(0, 1));
    assert!(steps_fit(1000, 256));
    assert!(steps_fit(u32::MAX, 1));
    assert!(steps_fit(u32::MAX - 511, (1 << 31) - 256));
    assert!(steps_fit(u32::MAX, 1 << 30));
    assert!(!steps_fit(u32::MAX, (1 << 30) + 100));
    assert!(steps_fit(1 << 31, 1 << 30));
    assert!(!steps_fit(u32::MAX, 2000));
    assert!(steps_fit(u32::MAX - 2000, 2000));
}
