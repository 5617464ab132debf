//! Coefficients cut into windows of bits, each of which is summed on its own.

use vstd::arithmetic::mul::*;
use vstd::arithmetic::power2::*;
use vstd::prelude::*;
use crate::curve::{base_log, denotes, double_point, msm_log, CurveAffine, CurveGroup};
use crate::digits::{digit, high_part, lemma_digit_step, lemma_small_number, low_part};
use crate::sums::{lemma_sum_add, lemma_sum_eq, lemma_sum_scale, lemma_sum_zero};

verus! {

/// The digits of all the values in the window of `c` bits from bit `start` on.
pub open spec fn digit_values(values: Seq<nat>, start: nat, c: nat) -> Seq<nat> {
    Seq::new(values.len(), |i: int| digit(values[i], start, c))
}

/// What is left of all the values above bit `start`.
pub open spec fn high_values(values: Seq<nat>, start: nat) -> Seq<nat> {
    Seq::new(values.len(), |i: int| high_part(values[i], start))
}

/// What is left of all the values below bit `end`.
pub open spec fn low_values(values: Seq<nat>, end: nat) -> Seq<nat> {
    Seq::new(values.len(), |i: int| low_part(values[i], end))
}

/// Multi-scalar multiplications of the same bases agree where the coefficients do.
pub proof fn lemma_msm_eq<C: CurveAffine>(a: Seq<nat>, b: Seq<nat>, bases: Seq<C>)
    requires
        forall|i: int| 0 <= i < bases.len() ==> #[trigger] a[i] == b[i],
    ensures
        msm_log(a, bases) == msm_log(b, bases),
{
    lemma_sum_eq(
        bases.len(),
        |i: int| a[i] * base_log(bases[i]),
        |i: int| b[i] * base_log(bases[i]),
    );
}

/// Coefficients that are all zero give nothing.
pub proof fn lemma_msm_zero<C: CurveAffine>(a: Seq<nat>, bases: Seq<C>)
    requires
        forall|i: int| 0 <= i < bases.len() ==> #[trigger] a[i] == 0,
    ensures
        msm_log(a, bases) == 0,
{
    lemma_sum_zero(bases.len(), |i: int| a[i] * base_log(bases[i]));
}

/// The part above a bit is that above the next window, shifted by the window, and the
/// window itself.
pub proof fn lemma_window_step<C: CurveAffine>(
    values: Seq<nat>,
    bases: Seq<C>,
    start: nat,
    c: nat,
)
    requires
        values.len() == bases.len(),
    ensures
        msm_log(high_values(values, start), bases) == pow2(c) * msm_log(
            high_values(values, start + c),
            bases,
        ) + msm_log(digit_values(values, start, c), bases),
{
    let whole = high_values(values, start);
    let above = high_values(values, start + c);
    let window = digit_values(values, start, c);
    let n = bases.len();
    let p = pow2(c) as int;
    let f = |i: int| above[i] * base_log(bases[i]);
    let g = |i: int| window[i] * base_log(bases[i]);
    let scaled = |i: int| p * f(i);
    let h = |i: int| whole[i] * base_log(bases[i]);
    assert forall|i: int| 0 <= i < n implies #[trigger] h(i) == scaled(i) + g(i) by {
        lemma_digit_step(values[i], start, c);
        let k = base_log(bases[i]);
        assert(whole[i] == p * above[i] + window[i]);
        assert(whole[i] * k == p * (above[i] * k) + window[i] * k) by (nonlinear_arith)
            requires
                whole[i] == p * above[i] + window[i],
        ;
    }
    lemma_sum_eq(n, h, |i: int| scaled(i) + g(i));
    lemma_sum_add(n, scaled, g);
    lemma_sum_scale(n, p, f);
}

/// Above all of their bits the values leave nothing.
pub proof fn lemma_windows_end<C: CurveAffine>(values: Seq<nat>, bases: Seq<C>, end: nat)
    requires
        values.len() == bases.len(),
        forall|i: int| 0 <= i < values.len() ==> #[trigger] values[i] < pow2(end),
    ensures
        msm_log(high_values(values, end), bases) == 0,
{
    assert forall|i: int| 0 <= i < bases.len() implies #[trigger] high_values(values, end)[i]
        == 0 by {
        assert(values[i] < pow2(end));
        lemma_small_number(values[i], end);
    }
    lemma_msm_zero(high_values(values, end), bases);
}

/// Above bit zero the values are whole.
pub proof fn lemma_windows_start<C: CurveAffine>(values: Seq<nat>, bases: Seq<C>)
    requires
        values.len() == bases.len(),
    ensures
        msm_log(high_values(values, 0), bases) == msm_log(values, bases),
{
    lemma2_to64();
    lemma_msm_eq(high_values(values, 0), values, bases);
}

/// Doubles a point `c` times.
pub(crate) fn double_times<G: CurveGroup>(
    point: G,
    c: usize,
    Ghost(ok): Ghost<bool>,
    Ghost(x): Ghost<int>,
) -> (res: G)
    requires
        ok ==> denotes(point, x),
    ensures
        ok ==> denotes(res, pow2(c as nat) * x),
{
    let mut res = point;
    let mut i: usize = 0;
    proof {
        lemma2_to64();
        assert(pow2(0) * x == x);
    }
    while i < c
        invariant
            i <= c,
            ok ==> denotes(res, pow2(i as nat) * x),
        decreases c - i,
    {
        res = double_point(res);
        proof {
            lemma_pow2_unfold((i + 1) as nat);
            lemma_mul_is_associative(2, pow2(i as nat) as int, x);
        }
        i += 1;
    }
    res
}

/// The digits, the upper and the lower parts of a row of values are those of each value.
pub proof fn law_parts_of_rows(values: Seq<nat>, start: nat, c: nat, i: int)
    requires
        0 <= i < values.len(),
    ensures
        digit_values(values, start, c).len() == values.len(),
        high_values(values, start).len() == values.len(),
        low_values(values, start).len() == values.len(),
        digit_values(values, start, c)[i] == values[i] / pow2(start) % pow2(c),
        high_values(values, start)[i] == values[i] / pow2(start),
        low_values(values, start)[i] == values[i] % pow2(start),
{
}

} // verus!
