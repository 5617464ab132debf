//! The digits of whole numbers, and how many bits a number has.

use vstd::arithmetic::div_mod::*;
use vstd::arithmetic::power2::*;
use vstd::prelude::*;

verus! {

/// The logarithm of `n` to the base two, rounded down; zero for zero.
pub open spec fn floor_log2(n: nat) -> nat
    decreases n,
{
    if n < 2 {
        0
    } else {
        1 + floor_log2(n / 2)
    }
}

/// A positive number lies between two neighbouring powers of two.
pub proof fn lemma_floor_log2(n: nat)
    requires
        n > 0,
    ensures
        pow2(floor_log2(n)) <= n < pow2(floor_log2(n) + 1),
    decreases n,
{
    lemma2_to64();
    if n >= 2 {
        lemma_floor_log2(n / 2);
        let k = floor_log2(n / 2);
        lemma_pow2_unfold(k + 1);
        lemma_pow2_unfold(k + 2);
    }
}

/// The powers of two around a positive number determine its logarithm.
pub proof fn lemma_floor_log2_unique(n: nat, k: nat)
    requires
        pow2(k) <= n < pow2(k + 1),
    ensures
        floor_log2(n) == k,
{
    lemma_pow2_pos(k);
    lemma_floor_log2(n);
    let m = floor_log2(n);
    if m < k {
        lemma_pow2_increases(m + 1, k);
    } else if k < m {
        lemma_pow2_increases(k + 1, m);
    }
}

/// Powers of two grow with the exponent.
pub proof fn lemma_pow2_increases(a: nat, b: nat)
    requires
        a <= b,
    ensures
        pow2(a) <= pow2(b),
{
    if a < b {
        lemma_pow2_strictly_increases(a, b);
    }
}

/// `usize::ilog2` is the logarithm to the base two, rounded down.
pub assume_specification[ usize::ilog2 ](n: usize) -> (res: u32)
    requires
        n > 0,
    ensures
        pow2(res as nat) <= n < pow2(res as nat + 1),
;

/// The number of bits that `n` takes, without leading zeros.
pub fn num_bits(n: usize) -> (res: usize)
    ensures
        n == 0 ==> res == 0,
        n > 0 ==> 0 < res && pow2((res - 1) as nat) <= n,
        n < pow2(res as nat),
        res <= usize::BITS,
{
    if n == 0 {
        proof {
            lemma2_to64();
        }
        0
    } else {
        let k = n.ilog2();
        proof {
            lemma_log_fits(n, k as nat);
        }
        (k + 1) as usize
    }
}

/// An estimate of the natural logarithm of `a`: `69` hundredths of the logarithm to the
/// base two.
pub open spec fn ln_estimate(a: nat) -> nat {
    floor_log2(a) * 69 / 100
}

/// Estimates the natural logarithm of `a`; zero for zero.
pub fn compute_ln(a: usize) -> (res: usize)
    ensures
        res == ln_estimate(a as nat),
{
    if a == 0 {
        0
    } else {
        let k = a.ilog2();
        proof {
            lemma_log_fits(a, k as nat);
            lemma_floor_log2_unique(a as nat, k as nat);
        }
        k as usize * 69 / 100
    }
}

/// The logarithm of a machine word is below its width.
pub proof fn lemma_log_fits(n: usize, k: nat)
    requires
        pow2(k) <= n,
    ensures
        k < usize::BITS,
{
    if k >= usize::BITS {
        lemma_pow2_increases(usize::BITS as nat, k);
        lemma2_to64();
        lemma2_to64_rest();
    }
}

/// What is left of `v` above bit `start`.
pub open spec fn high_part(v: nat, start: nat) -> nat {
    v / pow2(start)
}

/// What is left of `v` below bit `end`.
pub open spec fn low_part(v: nat, end: nat) -> nat {
    v % pow2(end)
}

/// The number that the `c` bits of `v` from bit `start` on make.
pub open spec fn digit(v: nat, start: nat, c: nat) -> nat {
    low_part(high_part(v, start), c)
}

/// What is left of a number above a bit is its next digit and what is left above that.
pub proof fn lemma_digit_step(v: nat, start: nat, c: nat)
    ensures
        high_part(v, start) == pow2(c) * high_part(v, start + c) + digit(v, start, c),
        digit(v, start, c) < pow2(c),
{
    lemma_pow2_pos(start);
    lemma_pow2_pos(c);
    lemma_pow2_adds(start, c);
    lemma_div_denominator(v as int, pow2(start) as int, pow2(c) as int);
    lemma_fundamental_div_mod((v / pow2(start)) as int, pow2(c) as int);
}

/// Cutting a number above bit `m` leaves the digits below as they are.
pub proof fn lemma_digit_of_low_bits(v: nat, m: nat, start: nat, c: nat)
    requires
        start + c <= m,
    ensures
        digit(low_part(v, m), start, c) == digit(v, start, c),
{
    let above = (m - start - c) as nat;
    lemma_pow2_pos(m);
    lemma_pow2_pos(start);
    lemma_pow2_pos(c);
    lemma_pow2_adds(c, above);
    lemma_pow2_adds(start, c + above);
    let low = v % pow2(m);
    let q = v / pow2(m);
    lemma_fundamental_div_mod(v as int, pow2(m) as int);
    let p = (pow2(c) * pow2(above)) as int;
    let j = p * q;
    assert(pow2(m) * q == j * pow2(start)) by (nonlinear_arith)
        requires
            pow2(m) == pow2(start) * p,
            j == p * q,
    ;
    lemma_hoist_over_denominator(low as int, j, pow2(start));
    assert(v as int / pow2(start) as int == low as int / pow2(start) as int + j);
    let step = pow2(above) * q;
    assert(j == pow2(c) * step) by (nonlinear_arith)
        requires
            j == (pow2(c) * pow2(above)) * q,
            step == pow2(above) * q,
    ;
    lemma_mod_multiples_vanish(step as int, low as int / pow2(start) as int, pow2(c) as int);
}

/// All the digits of zero are zero.
pub proof fn lemma_digit_of_zero(start: nat, c: nat)
    ensures
        digit(0, start, c) == 0,
{
    lemma_pow2_pos(start);
    lemma_pow2_pos(c);
    lemma_div_of0(pow2(start) as int);
    lemma_small_mod(0, pow2(c));
}

/// A number below a power of two has nothing above that bit, and is its own low bits.
pub proof fn lemma_small_number(v: nat, m: nat)
    requires
        v < pow2(m),
    ensures
        high_part(v, m) == 0,
        low_part(v, m) == v,
{
    lemma_basic_div(v as int, pow2(m) as int);
    lemma_small_mod(v, pow2(m));
}

/// The estimate of the natural logarithm of a number between two neighbouring powers of two is
/// `69` hundredths of the lower exponent; that of zero is zero.
pub proof fn law_ln_estimate(a: nat, k: nat)
    ensures
        ln_estimate(0) == 0,
        pow2(k) <= a < pow2(k + 1) ==> 100 * ln_estimate(a) <= 69 * k < 100 * (ln_estimate(a) + 1),
{
    if pow2(k) <= a < pow2(k + 1) {
        lemma_floor_log2_unique(a, k);
    }
}

/// A digit and the bits below it make up the low bits of the number, and the part above a bit
/// and the bits below it make up the whole of it.
pub proof fn law_digits_make_up_the_number(v: nat, start: nat, c: nat)
    ensures
        v == pow2(start) * high_part(v, start) + low_part(v, start),
        low_part(v, start) < pow2(start),
        low_part(v, start + c) == low_part(v, start) + pow2(start) * digit(v, start, c),
        digit(v, start, c) < pow2(c),
{
    let p = pow2(start) as int;
    let q = pow2(c) as int;
    let high = high_part(v, start) as int;
    let above = high_part(v, start + c) as int;
    let d = digit(v, start, c) as int;
    let low = low_part(v, start) as int;
    lemma_pow2_pos(start);
    lemma_pow2_pos(c);
    lemma_fundamental_div_mod(v as int, p);
    lemma_digit_step(v, start, c);
    lemma_pow2_adds(start, c);
    assert(v == above * (p * q) + (low + p * d)) by (nonlinear_arith)
        requires
            v == p * high + low,
            high == q * above + d,
    ;
    assert(0 <= p * d && low + p * d < p * q) by (nonlinear_arith)
        requires
            0 <= low < p,
            0 <= d < q,
            0 < p,
    ;
    lemma_fundamental_div_mod_converse(v as int, p * q, above, low + p * d);
}

} // verus!
