//! Multi-scalar multiplication by field elements, on one thread.

use vstd::arithmetic::div_mod::*;
use vstd::arithmetic::mul::*;
use vstd::arithmetic::power::*;
use vstd::arithmetic::power2::*;
use vstd::bits::*;
use vstd::prelude::*;
use crate::buckets::{
    add_buckets, add_to_bucket, buckets_hold, empty_buckets, lemma_stacked_update,
    lemma_stacked_zero, stacked, Bucket,
};
use crate::bytes::get_at;
use crate::curve::{
    add_base, add_points, base_log, denotes, field_values, is_msm, lemma_base_stands, msm_log,
    on_curve, zero_point, CurveAffine, FieldScalar,
};
use crate::digits::{lemma_digit_of_zero, lemma_pow2_increases};
use crate::sums::{lemma_sum_add, lemma_sum_eq, sum};
use crate::windows::{
    digit_values, double_times, high_values, lemma_window_step, lemma_windows_end,
    lemma_windows_start,
};

verus! {

/// The number `n` is at most the `k`-th power of `2.718281828459045235`. Between that power
/// and the `k`-th power of the base of the natural logarithm lies no whole number of
/// thirty-two bits.
pub open spec fn exp_reaches(k: nat, n: nat) -> bool {
    n * pow(1_000_000_000_000_000_000, k) <= pow(2_718_281_828_459_045_235, k)
}

/// The natural logarithm of `n`, rounded up.
pub fn ln_ceil(n: u32) -> (k: usize)
    requires
        n > 0,
    ensures
        k <= 23,
        exp_reaches(k as nat, n as nat),
        k > 0 ==> !exp_reaches((k - 1) as nat, n as nat),
{
    // The powers of the base, rounded down.
    let floors: [u64; 24] = [
        1, 2, 7, 20, 54, 148, 403, 1096, 2980, 8103, 22026, 59874, 162754, 442413, 1202604,
        3269017, 8886110, 24154952, 65659969, 178482300, 485165195, 1318815734, 3584912846,
        9744803446,
    ];
    let mut k: usize = 0;
    proof {
        lemma_exp_floors();
        assert(floors@ =~= exp_floors());
    }
    while k < 23 && (n as u64) > floors[k]
        invariant
            k <= 23,
            floors@.len() == 24,
            forall|t: int| 0 <= t < k ==> n > #[trigger] floors@[t],
        decreases 23 - k,
    {
        k += 1;
    }
    proof {
        let ghost scale = pow(1_000_000_000_000_000_000, k as nat);
        assert(n <= floors@[k as int]);
        lemma_pow_positive(1_000_000_000_000_000_000, k as nat);
        lemma_mul_inequality(n as int, floors@[k as int] as int, scale);
        assert(is_exp_floor(k as nat, floors@[k as int] as nat));
        if k > 0 {
            let below = (k - 1) as nat;
            lemma_pow_positive(1_000_000_000_000_000_000, below);
            lemma_mul_inequality(
                floors@[k - 1] + 1,
                n as int,
                pow(1_000_000_000_000_000_000, below),
            );
            assert(is_exp_floor(below, floors@[k - 1] as nat));
        }
    }
    k
}

proof fn lemma_exp_step(k: nat)
    ensures
        pow(1_000_000_000_000_000_000, k + 1) == 1_000_000_000_000_000_000 * pow(
            1_000_000_000_000_000_000,
            k,
        ),
        pow(2_718_281_828_459_045_235, k + 1) == 2_718_281_828_459_045_235 * pow(
            2_718_281_828_459_045_235,
            k,
        ),
{
    reveal(pow);
}

/// The powers of the base of the natural logarithm, rounded down.
spec fn exp_floors() -> Seq<u64> {
    seq![
        1u64, 2u64, 7u64, 20u64, 54u64, 148u64, 403u64, 1096u64, 2980u64, 8103u64, 22026u64,
        59874u64, 162754u64, 442413u64, 1202604u64, 3269017u64, 8886110u64, 24154952u64,
        65659969u64, 178482300u64, 485165195u64, 1318815734u64, 3584912846u64, 9744803446u64,
    ]
}

/// The `k`-th power, rounded down, is `floor`.
spec fn is_exp_floor(k: nat, floor: nat) -> bool {
    exp_reaches(k, floor) && !exp_reaches(k, floor + 1)
}

proof fn lemma_exp_floors()
    ensures
        exp_floors().len() == 24,
        forall|k: int| 0 <= k < 24 ==> is_exp_floor(k as nat, #[trigger] exp_floors()[k] as nat),
{
    lemma_pow0(1_000_000_000_000_000_000);
    lemma_pow0(2_718_281_828_459_045_235);
    assert(is_exp_floor(0, 1));
    lemma_exp_step(0);
    assert(is_exp_floor(1, 2));
    lemma_exp_step(1);
    assert(is_exp_floor(2, 7));
    lemma_exp_step(2);
    assert(is_exp_floor(3, 20));
    lemma_exp_step(3);
    assert(is_exp_floor(4, 54));
    lemma_exp_step(4);
    assert(is_exp_floor(5, 148));
    lemma_exp_step(5);
    assert(is_exp_floor(6, 403));
    lemma_exp_step(6);
    assert(is_exp_floor(7, 1096));
    lemma_exp_step(7);
    assert(is_exp_floor(8, 2980));
    lemma_exp_step(8);
    assert(is_exp_floor(9, 8103));
    lemma_exp_step(9);
    assert(is_exp_floor(10, 22026));
    lemma_exp_step(10);
    assert(is_exp_floor(11, 59874));
    lemma_exp_step(11);
    assert(is_exp_floor(12, 162754));
    lemma_exp_step(12);
    assert(is_exp_floor(13, 442413));
    lemma_exp_step(13);
    assert(is_exp_floor(14, 1202604));
    lemma_exp_step(14);
    assert(is_exp_floor(15, 3269017));
    lemma_exp_step(15);
    assert(is_exp_floor(16, 8886110));
    lemma_exp_step(16);
    assert(is_exp_floor(17, 24154952));
    lemma_exp_step(17);
    assert(is_exp_floor(18, 65659969));
    lemma_exp_step(18);
    assert(is_exp_floor(19, 178482300));
    lemma_exp_step(19);
    assert(is_exp_floor(20, 485165195));
    lemma_exp_step(20);
    assert(is_exp_floor(21, 1318815734));
    lemma_exp_step(21);
    assert(is_exp_floor(22, 3584912846));
    lemma_exp_step(22);
    assert(is_exp_floor(23, 9744803446));
}

/// How many bits wide the digits are that the coefficients of `n` bases are cut into.
pub fn segment_bits(n: usize) -> (c: usize)
    requires
        n < 32 || (n as u32) >= 2,
    ensures
        n < 4 ==> c == 1,
        4 <= n < 32 ==> c == 3,
        n >= 32 ==> c > 0 && exp_reaches(c as nat, (n as u32) as nat) && !exp_reaches(
            (c - 1) as nat,
            (n as u32) as nat,
        ),
        1 <= c <= 23,
{
    if n < 4 {
        1
    } else if n < 32 {
        3
    } else {
        let c = ln_ceil(n as u32);
        proof {
            lemma_pow0(1_000_000_000_000_000_000);
            lemma_pow0(2_718_281_828_459_045_235);
        }
        c
    }
}

/// The numbers that the coefficients stand for, but zero in place of those that are told equal
/// to one.
pub open spec fn non_boolean<S: FieldScalar>(coeffs: Seq<S>) -> Seq<nat> {
    Seq::new(
        coeffs.len(),
        |i: int|
            if coeffs[i].equals_one() {
                0
            } else {
                coeffs[i].value()
            },
    )
}

/// Those of the first `n` coefficients that are told equal to one stand for one.
pub open spec fn ones_are_one<S: FieldScalar>(coeffs: Seq<S>, n: int) -> bool {
    forall|i: int|
        0 <= i < n ==> (#[trigger] coeffs[i]).equals_one() ==> coeffs[i].value() == 1
}

/// The sum of those of the first `n` bases whose coefficient is told equal to one.
fn boolean_sum<C: CurveAffine>(coeffs: &[C::Scalar], bases: &[C], n: usize) -> (res: C::Curve)
    requires
        n <= coeffs@.len(),
        n <= bases@.len(),
    ensures
        ones_are_one(coeffs@, n as int),
        on_curve(field_values(coeffs@.take(n as int)), bases@.take(n as int)) ==> denotes(
            res,
            sum(
                n as nat,
                |i: int|
                    if coeffs@[i].equals_one() {
                        base_log(bases@[i])
                    } else {
                        0
                    },
            ),
        ),
{
    let ghost values = field_values(coeffs@.take(n as int));
    let ghost ok = on_curve(values, bases@.take(n as int));
    let ghost f = |i: int|
        if coeffs@[i].equals_one() {
            base_log(bases@[i])
        } else {
            0
        };
    let mut acc: C::Curve = zero_point();
    let mut i: usize = 0;
    while i < n
        invariant
            i <= n,
            n <= coeffs@.len(),
            n <= bases@.len(),
            values == field_values(coeffs@.take(n as int)),
            ok == on_curve(values, bases@.take(n as int)),
            f == (|i: int|
                if coeffs@[i].equals_one() {
                    base_log(bases@[i])
                } else {
                    0
                }),
            ones_are_one(coeffs@, i as int),
            ok ==> denotes(acc, sum(i as nat, f)),
        decreases n - i,
    {
        proof {
            assert(sum((i + 1) as nat, f) == sum(i as nat, f) + f(i as int));
        }
        if coeffs[i].is_one() {
            proof {
                if ok {
                    assert(values[i as int] == 1);
                    assert(bases@.take(n as int)[i as int].log() is Some);
                    lemma_base_stands(bases@[i as int]);
                }
            }
            acc = add_base(acc, bases[i]);
        }
        i += 1;
    }
    acc
}

/// `acc`, and the first `n` bases by the digits of their coefficients in the `segment`-th
/// place. Bases whose coefficient is told equal to zero or to one are left out.
fn add_segment<C: CurveAffine>(
    acc: C::Curve,
    coeffs: &[C::Scalar],
    bases: &[C],
    n: usize,
    segment: usize,
    c: usize,
    Ghost(x): Ghost<int>,
) -> (res: C::Curve)
    requires
        n <= coeffs@.len(),
        n <= bases@.len(),
        1 <= c <= 23,
        segment * c <= 256,
        on_curve(field_values(coeffs@.take(n as int)), bases@.take(n as int)) ==> denotes(acc, x),
    ensures
        on_curve(field_values(coeffs@.take(n as int)), bases@.take(n as int)) ==> denotes(
            res,
            x + msm_log(
                digit_values(
                    non_boolean(coeffs@.take(n as int)),
                    (segment * c) as nat,
                    c as nat,
                ),
                bases@.take(n as int),
            ),
        ),
{
    let ghost points = bases@.take(n as int);
    let ghost ok = on_curve(field_values(coeffs@.take(n as int)), points);
    let ghost start = (segment * c) as nat;
    let ghost values = non_boolean(coeffs@.take(n as int));
    let ghost digits = digit_values(values, start, c as nat);
    let ghost f = |i: int| digits[i] * base_log(points[i]);
    proof {
        lemma_pow2_increases(c as nat, 31);
        lemma2_to64();
        lemma_usize_pow2_no_overflow(c as nat);
        lemma_usize_shl_is_mul(1, c);
        lemma_pow2_increases(1, c as nat);
    }
    let num_buckets: usize = (1usize << c) - 1;
    let mut buckets: Vec<Bucket<C>> = empty_buckets(num_buckets);
    let ghost mut held = Seq::new(num_buckets as nat, |j: int| 0int);
    proof {
        lemma_stacked_zero(held, 0);
    }
    let mut i: usize = 0;
    while i < n
        invariant
            i <= n,
            n <= coeffs@.len(),
            n <= bases@.len(),
            1 <= c <= 23,
            start == segment * c,
            segment * c <= 256,
            points == bases@.take(n as int),
            ok == on_curve(field_values(coeffs@.take(n as int)), points),
            values == non_boolean(coeffs@.take(n as int)),
            digits == digit_values(values, start, c as nat),
            f == (|i: int| digits[i] * base_log(points[i])),
            num_buckets == pow2(c as nat) - 1,
            buckets@.len() == num_buckets,
            held.len() == num_buckets,
            ok ==> buckets_hold(buckets@, held),
            ok ==> stacked(held, 0) == sum(i as nat, f),
        decreases n - i,
    {
        let coeff = coeffs[i];
        let ghost k = base_log(points[i as int]);
        proof {
            lemma_mul_basics(k);
            lemma_pow2_pos(start);
            lemma_pow2_pos(c as nat);
            assert(coeffs@.take(n as int)[i as int] == coeff);
            assert(sum((i + 1) as nat, f) == sum(i as nat, f) + digits[i as int] * k);
            lemma_digit_of_zero(start, c as nat);
            if ok && digits[i as int] != 0 {
                assert(field_values(coeffs@.take(n as int))[i as int] != 0);
                assert(points[i as int].log() is Some);
                lemma_base_stands(points[i as int]);
            }
        }
        if !coeff.is_zero() && !coeff.is_one() {
            let repr = coeff.to_repr();
            let d = get_at(segment, c, &repr);
            assert(d == digits[i as int]);
            if d != 0 {
                let ghost at = d - 1;
                add_to_bucket(&mut buckets, d - 1, &bases[i], Ghost(ok), Ghost(held), Ghost(k));
                proof {
                    lemma_stacked_update(held, at, k, 0);
                    assert((at - 0 + 1) * k == digits[i as int] * k);
                    held = held.update(at, held[at] + k);
                }
            }
        } else {
            proof {
                assert(values[i as int] == 0);
                assert(digits[i as int] == 0);
            }
        }
        i += 1;
    }
    add_buckets(acc, &buckets, 0, Ghost(ok), Ghost(x), Ghost(held))
}

/// Multi-scalar multiplication of as many bases as there are both coefficients and bases.
pub fn cpu_msm_serial<C: CurveAffine>(coeffs: &[C::Scalar], bases: &[C]) -> (res: C::Curve)
    requires
        bases@.len() < 32 || (bases@.len() as u32) >= 2,
    ensures
        coeffs@.len() <= bases@.len() ==> is_msm(
            res,
            field_values(coeffs@),
            bases@.take(coeffs@.len() as int),
        ),
        bases@.len() <= coeffs@.len() ==> is_msm(
            res,
            field_values(coeffs@.take(bases@.len() as int)),
            bases@,
        ),
{
    let c = segment_bits(bases.len());
    let n: usize = if coeffs.len() < bases.len() {
        coeffs.len()
    } else {
        bases.len()
    };
    let ghost points = bases@.take(n as int);
    let ghost values = field_values(coeffs@.take(n as int));
    let ghost ok = on_curve(values, points);
    let ghost others = non_boolean(coeffs@.take(n as int));
    let boolean_sum = boolean_sum(coeffs, bases, n);
    let segments: usize = 256 / c + 1;
    let mut acc: C::Curve = zero_point();
    let mut segment: usize = segments;
    proof {
        lemma_fundamental_div_mod(256, c as int);
        assert(c * (segments - 1) <= 256 < c * segments) by (nonlinear_arith)
            requires
                256 == c * (256int / c as int) + 256int % (c as int),
                segments == 256int / c as int + 1,
                0 <= 256int % (c as int) < c,
        ;
        assert forall|i: int| 0 <= i < others.len() implies #[trigger] others[i] < pow2(
            (c * segments) as nat,
        ) by {
            coeffs@[i].value_fits();
            lemma_pow2_increases(256, (c * segments) as nat);
            lemma_pow2_pos(256);
        }
        lemma_windows_end(others, points, (c * segments) as nat);
    }
    while segment > 0
        invariant
            segment <= segments,
            1 <= c <= 23,
            c * (segments - 1) <= 256,
            n <= coeffs@.len(),
            n <= bases@.len(),
            points == bases@.take(n as int),
            ok == on_curve(values, points),
            values == field_values(coeffs@.take(n as int)),
            others == non_boolean(coeffs@.take(n as int)),
            ok ==> denotes(acc, msm_log(high_values(others, (c * segment) as nat), points)),
        decreases segment,
    {
        let ghost above = msm_log(high_values(others, (c * segment) as nat), points);
        segment -= 1;
        proof {
            assert(c * segment + c == c * (segment + 1)) by (nonlinear_arith);
            lemma_mul_inequality(segment as int, segments - 1, c as int);
            lemma_mul_is_commutative(segment as int, c as int);
            lemma_mul_is_commutative(segments - 1, c as int);
            lemma_mul_nonnegative(c as int, segment as int);
            lemma_window_step(others, points, (c * segment) as nat, c as nat);
        }
        acc = double_times(acc, c, Ghost(ok), Ghost(above));
        acc = add_segment(acc, coeffs, bases, n, segment, c, Ghost(pow2(c as nat) * above));
    }
    let res = add_points(boolean_sum, acc);
    proof {
        lemma_windows_start(others, points);
        lemma_mul_basics(c as int);
        let f = |i: int|
            if coeffs@[i].equals_one() {
                base_log(bases@[i])
            } else {
                0
            };
        let g = |i: int| others[i] * base_log(points[i]);
        let h = |i: int| values[i] * base_log(points[i]);
        assert forall|i: int| 0 <= i < n implies #[trigger] h(i) == f(i) + g(i) by {
            lemma_mul_basics(base_log(points[i]));
            assert(values[i] == coeffs@[i].value());
            assert(coeffs@[i].equals_one() ==> coeffs@[i].value() == 1);
        }
        lemma_sum_add(n as nat, f, g);
        lemma_sum_eq(n as nat, h, |i: int| f(i) + g(i));
        assert(ok ==> denotes(res, msm_log(values, points)));
        assert(n == bases@.len() ==> points =~= bases@);
        assert(n == coeffs@.len() ==> coeffs@.take(n as int) =~= coeffs@);
    }
    res
}

/// Up to which number each power of the base of the natural logarithm reaches.
pub proof fn law_exp_thresholds(n: nat)
    ensures
        exp_reaches(0, n) == (n <= 1),
        exp_reaches(1, n) == (n <= 2),
        exp_reaches(2, n) == (n <= 7),
        exp_reaches(3, n) == (n <= 20),
        exp_reaches(4, n) == (n <= 54),
        exp_reaches(5, n) == (n <= 148),
        exp_reaches(6, n) == (n <= 403),
        exp_reaches(7, n) == (n <= 1096),
        exp_reaches(8, n) == (n <= 2980),
        exp_reaches(9, n) == (n <= 8103),
        exp_reaches(10, n) == (n <= 22026),
        exp_reaches(11, n) == (n <= 59874),
        exp_reaches(12, n) == (n <= 162754),
        exp_reaches(13, n) == (n <= 442413),
        exp_reaches(14, n) == (n <= 1202604),
        exp_reaches(15, n) == (n <= 3269017),
        exp_reaches(16, n) == (n <= 8886110),
        exp_reaches(17, n) == (n <= 24154952),
        exp_reaches(18, n) == (n <= 65659969),
        exp_reaches(19, n) == (n <= 178482300),
        exp_reaches(20, n) == (n <= 485165195),
        exp_reaches(21, n) == (n <= 1318815734),
        exp_reaches(22, n) == (n <= 3584912846),
        exp_reaches(23, n) == (n <= 9744803446),
{
    lemma_exp_floors();
    assert forall|k: int| 0 <= k < 24 implies exp_reaches(k as nat, n) == (n
        <= #[trigger] exp_floors()[k]) by {
        lemma_exp_threshold(k as nat, exp_floors()[k] as nat, n);
    }
    let table = exp_floors();
    assert(table[0] == 1);
    assert(table[1] == 2);
    assert(table[2] == 7);
    assert(table[3] == 20);
    assert(table[4] == 54);
    assert(table[5] == 148);
    assert(table[6] == 403);
    assert(table[7] == 1096);
    assert(table[8] == 2980);
    assert(table[9] == 8103);
    assert(table[10] == 22026);
    assert(table[11] == 59874);
    assert(table[12] == 162754);
    assert(table[13] == 442413);
    assert(table[14] == 1202604);
    assert(table[15] == 3269017);
    assert(table[16] == 8886110);
    assert(table[17] == 24154952);
    assert(table[18] == 65659969);
    assert(table[19] == 178482300);
    assert(table[20] == 485165195);
    assert(table[21] == 1318815734);
    assert(table[22] == 3584912846);
    assert(table[23] == 9744803446);
}

/// A power reaches every number up to where it is rounded down to, and none above.
proof fn lemma_exp_threshold(k: nat, floor: nat, n: nat)
    requires
        is_exp_floor(k, floor),
    ensures
        exp_reaches(k, n) == (n <= floor),
{
    let scale = pow(1_000_000_000_000_000_000, k);
    lemma_pow_positive(1_000_000_000_000_000_000, k);
    if n <= floor {
        lemma_mul_inequality(n as int, floor as int, scale);
    } else {
        lemma_mul_inequality(floor as int + 1, n as int, scale);
    }
}

} // verus!
