//! Multi-scalar multiplication by the algorithm that suits the coefficients.

use vstd::arithmetic::div_mod::*;
use vstd::arithmetic::power2::*;
use vstd::prelude::*;
use crate::curve::{
    binary_values, denotes, is_msm, small_values, CurveAffine, CurveGroup, SmallScalar,
};
use crate::digits::{lemma_pow2_increases, num_bits};
use crate::gpu::{msm_binary, MAX_LEN};
use crate::small::{all_shifts_fit, msm_10, msm_small_rest, rest_values, values_fit};
use crate::windows::lemma_msm_zero;

verus! {

/// How a multi-scalar multiplication is computed.
#[derive(Clone, Copy, PartialEq, Eq, Structural)]
pub enum Algorithm {
    /// All the coefficients are zero: so is the result.
    Zero,
    /// All the coefficients are zero or one: a sum of bases.
    Binary,
    /// One bucket for each coefficient.
    Buckets,
    /// Windows of bits, with buckets for the digits of each.
    Windows,
}

/// Which algorithm suits coefficients of at most `max_num_bits` bits.
pub fn algorithm_for(max_num_bits: usize) -> (res: Algorithm)
    ensures
        res == Algorithm::Zero <==> max_num_bits == 0,
        res == Algorithm::Binary <==> max_num_bits == 1,
        res == Algorithm::Buckets <==> 2 <= max_num_bits <= 10,
        res == Algorithm::Windows <==> max_num_bits > 10,
{
    match max_num_bits {
        0 => Algorithm::Zero,
        1 => Algorithm::Binary,
        2..=10 => Algorithm::Buckets,
        _ => Algorithm::Windows,
    }
}

/// Multi-scalar multiplication by coefficients of at most `max_num_bits` bits, by the
/// algorithm that suits them. Coefficients with more bits are taken as zero where
/// `max_num_bits` is zero, as one where it is one, and without some of their upper bits where
/// it is above ten.
pub fn msm_small_with_max_num_bits<C: CurveAffine, T: SmallScalar>(
    scalars: &[T],
    bases: &[C],
    max_num_bits: usize,
) -> (res: C::Curve)
    requires
        bases@.len() == scalars@.len(),
        max_num_bits == 1 ==> 0 < bases@.len() <= MAX_LEN,
        2 <= max_num_bits <= 10 ==> values_fit(small_values(scalars@), max_num_bits as nat),
        max_num_bits > 10 ==> all_shifts_fit(small_values(scalars@), max_num_bits as nat),
    ensures
        values_fit(small_values(scalars@), max_num_bits as nat) ==> is_msm(
            res,
            small_values(scalars@),
            bases@,
        ),
        max_num_bits == 0 ==> denotes(res, 0),
        max_num_bits == 1 ==> is_msm(res, binary_values(scalars@), bases@),
        max_num_bits > 10 ==> exists|num_threads: nat|
            num_threads > 0 && #[trigger] is_msm(
                res,
                rest_values(small_values(scalars@), num_threads, max_num_bits as nat),
                bases@,
            ),
{
    let ghost values = small_values(scalars@);
    proof {
        lemma2_to64();
    }
    match algorithm_for(max_num_bits) {
        Algorithm::Zero => {
            let res = C::identity().to_curve();
            proof {
                C::Curve::order_is_positive();
                lemma_small_mod(0, C::Curve::order() as nat);
                if values_fit(values, 0) {
                    lemma_msm_zero(values, bases@);
                }
            }
            res
        },
        Algorithm::Binary => {
            let res = msm_binary(scalars, bases);
            proof {
                assert(bases@.take(scalars@.len() as int) =~= bases@);
                if values_fit(values, 1) {
                    law_binary_values(scalars@);
                }
            }
            res
        },
        Algorithm::Buckets => msm_10(scalars, bases, max_num_bits),
        Algorithm::Windows => msm_small_rest(scalars, bases, max_num_bits),
    }
}

/// Coefficients of at most one bit are what the binary multiplication takes them for.
pub proof fn law_binary_values<T: SmallScalar>(scalars: Seq<T>)
    requires
        values_fit(small_values(scalars), 1),
    ensures
        binary_values(scalars) == small_values(scalars),
{
    let values = small_values(scalars);
    lemma2_to64();
    assert forall|i: int| 0 <= i < values.len() implies #[trigger] binary_values(scalars)[i]
        == values[i] by {
        scalars[i].vanishes_at_zero();
        assert(values[i] < pow2(1));
    }
}

/// How many bits the largest of the coefficients takes: the least width that all of them fit in.
pub fn max_bits<T: SmallScalar>(scalars: &[T]) -> (res: usize)
    requires
        scalars@.len() > 0,
        forall|i: int|
            0 <= i < scalars@.len() ==> (#[trigger] scalars@[i]).value() <= usize::MAX,
    ensures
        values_fit(small_values(scalars@), res as nat),
        forall|width: nat|
            width < res ==> !#[trigger] values_fit(small_values(scalars@), width),
        res <= usize::BITS,
{
    let mut max: u64 = scalars[0].to_u64();
    let mut i: usize = 1;
    let ghost mut at: int = 0;
    while i < scalars.len()
        invariant
            1 <= i <= scalars@.len(),
            0 <= at < i,
            scalars@[at].value() == max,
            forall|j: int| 0 <= j < i ==> (#[trigger] scalars@[j]).value() <= max,
        decreases scalars@.len() - i,
    {
        let s: u64 = scalars[i].to_u64();
        if s > max {
            max = s;
            proof {
                at = i as int;
            }
        }
        i += 1;
    }
    let res = num_bits(max as usize);
    proof {
        let values = small_values(scalars@);
        assert forall|j: int| 0 <= j < values.len() implies #[trigger] values[j] < pow2(
            res as nat,
        ) by {
            assert(scalars@[j].value() <= max);
        }
        assert forall|width: nat| width < res implies !#[trigger] values_fit(values, width) by {
            lemma_pow2_increases(width, (res - 1) as nat);
            assert(values[at] >= pow2(width));
        }
    }
    res
}

/// Multi-scalar multiplication by the algorithm that suits the coefficients.
pub fn msm_small<C: CurveAffine, T: SmallScalar>(scalars: &[T], bases: &[C]) -> (res: C::Curve)
    requires
        bases@.len() == scalars@.len(),
        scalars@.len() > 0,
        forall|i: int|
            0 <= i < scalars@.len() ==> (#[trigger] scalars@[i]).value() <= usize::MAX,
        ({
            ||| bases@.len() <= MAX_LEN
            ||| exists|i: int| 0 <= i < scalars@.len() && (#[trigger] scalars@[i]).value() > 1
            ||| forall|i: int| 0 <= i < scalars@.len() ==> (#[trigger] scalars@[i]).value() == 0
        }),
    ensures
        is_msm(res, small_values(scalars@), bases@),
{
    let max_num_bits = max_bits(scalars);
    proof {
        lemma2_to64();
        let values = small_values(scalars@);
        if max_num_bits == 1 {
            assert(!values_fit(values, 0));
            assert forall|i: int| 0 <= i < scalars@.len() implies (
            #[trigger] scalars@[i]).value() <= 1 by {
                assert(values[i] < pow2(1));
            }
        }
    }
    msm_small_with_max_num_bits(scalars, bases, max_num_bits)
}

} // verus!
