//! Multi-scalar multiplication by machine words.

use vstd::arithmetic::div_mod::*;
use vstd::arithmetic::mul::*;
use vstd::arithmetic::power2::*;
use vstd::bits::*;
use vstd::prelude::*;
use crate::buckets::{
    add_buckets, add_to_bucket, add_weighted, buckets_hold, empty_buckets, lemma_stacked_update,
    lemma_stacked_zero, points_hold, stacked, Bucket,
};
use crate::curve::{
    add_base, add_points, base_log, denotes, is_msm, is_sum, lemma_base_stands, msm_log, on_curve,
    small_values, zero_point, zero_points, CurveAffine, SmallScalar,
};
use crate::digits::{
    compute_ln, digit, floor_log2, law_ln_estimate, lemma_digit_of_low_bits, lemma_digit_of_zero,
    lemma_digit_step, lemma_floor_log2, lemma_log_fits, lemma_pow2_increases, lemma_small_number,
    ln_estimate, low_part,
};
use crate::parallel::{
    are_pieces, chunk, chunk_count, chunk_end, is_part, lemma_chunk_bounds, lemma_sum_of_pieces,
    par_chunks_sum,
};
use crate::sums::sum;
use crate::windows::{
    digit_values, double_times, high_values, lemma_msm_eq, lemma_window_step, lemma_windows_end,
    lemma_windows_start, low_values,
};

verus! {

/// How many bits wide the windows are that coefficients of at most `max_num_bits` bits are
/// cut into, for `n` bases.
pub open spec fn window_width(n: nat, max_num_bits: nat) -> nat {
    if max_num_bits == 32 || max_num_bits == 64 {
        8
    } else if n < 32 {
        3
    } else {
        ln_estimate(n) + 2
    }
}

/// How many windows of `c` bits it takes to cover `max_num_bits` bits.
pub open spec fn window_count(max_num_bits: nat, c: nat) -> nat {
    if max_num_bits == 0 {
        0
    } else {
        ((max_num_bits - 1) / c as int + 1) as nat
    }
}

/// How many bits of each coefficient the windows cover, for `n` bases.
pub open spec fn covered_bits(n: nat, max_num_bits: nat) -> nat {
    let c = window_width(n, max_num_bits);
    c * window_count(max_num_bits, c)
}

/// All the values are zero or one.
pub open spec fn at_most_one(values: Seq<nat>) -> bool {
    forall|i: int| 0 <= i < values.len() ==> #[trigger] values[i] <= 1
}

/// The last window, for `n` bases, starts inside a word of sixty-four bits.
pub open spec fn windows_fit(n: nat, max_num_bits: nat) -> bool {
    let c = window_width(n, max_num_bits);
    c * (window_count(max_num_bits, c) - 1) < 64
}

/// Computes the width of the windows.
pub fn window_bits(n: usize, max_num_bits: usize) -> (c: usize)
    ensures
        c == window_width(n as nat, max_num_bits as nat),
        3 <= c < 48,
        c < usize::BITS,
{
    proof {
        if n >= 32 {
            lemma_floor_log2(n as nat);
            let k = floor_log2(n as nat);
            lemma_log_fits(n, k);
            if k < 5 {
                lemma_pow2_increases(k + 1, 5);
                lemma2_to64();
            }
        }
    }
    let mut c: usize = if n < 32 {
        3
    } else {
        compute_ln(n) + 2
    };
    if max_num_bits == 32 || max_num_bits == 64 {
        c = 8;
    }
    c
}

/// The multi-scalar multiplication by the digits of `scalars` in the window of `c` bits from
/// bit `w_start` on.
pub fn window_sum<C: CurveAffine, T: SmallScalar>(
    scalars: &[T],
    bases: &[C],
    w_start: usize,
    c: usize,
) -> (res: C::Curve)
    requires
        scalars@.len() == bases@.len(),
        1 <= c < 64,
        c < usize::BITS,
        w_start < 64 || at_most_one(small_values(scalars@)),
    ensures
        is_msm(res, digit_values(small_values(scalars@), w_start as nat, c as nat), bases@),
{
    let ghost coeffs = digit_values(small_values(scalars@), w_start as nat, c as nat);
    let ghost ok = on_curve(coeffs, bases@);
    let ghost f = |i: int| coeffs[i] * base_log(bases@[i]);
    proof {
        lemma_usize_pow2_no_overflow(c as nat);
        lemma_usize_shl_is_mul(1, c);
        lemma_u64_pow2_no_overflow(c as nat);
        lemma_u64_shl_is_mul(1, c as u64);
        lemma2_to64();
        lemma_pow2_increases(1, c as nat);
    }
    // No bucket is needed for the digit zero.
    let num_buckets: usize = (1usize << c) - 1;
    let mut res: C::Curve = zero_point();
    let mut buckets: Vec<C::Curve> = zero_points(num_buckets);
    let ghost mut held = Seq::new(num_buckets as nat, |j: int| 0int);
    let ghost mut ones = 0int;
    proof {
        lemma_stacked_zero(held, 0);
    }
    let mut i: usize = 0;
    while i < scalars.len()
        invariant
            i <= scalars@.len(),
            scalars@.len() == bases@.len(),
            1 <= c < 64,
            w_start < 64 || at_most_one(small_values(scalars@)),
            2 <= pow2(c as nat),
            1u64 << (c as u64) == pow2(c as nat),
            ok == on_curve(coeffs, bases@),
            coeffs == digit_values(small_values(scalars@), w_start as nat, c as nat),
            f == (|i: int| coeffs[i] * base_log(bases@[i])),
            num_buckets == pow2(c as nat) - 1,
            buckets@.len() == num_buckets,
            held.len() == num_buckets,
            ok ==> points_hold(buckets@, held),
            ok ==> denotes(res, ones),
            ok ==> ones + stacked(held, 0) == sum(i as nat, f),
        decreases scalars@.len() - i,
    {
        let scalar = scalars[i];
        let base = bases[i];
        let ghost k = base_log(base);
        proof {
            scalar.vanishes_at_zero();
            lemma_mul_basics(k);
            lemma_pow2_pos(w_start as nat);
            assert(small_values(scalars@)[i as int] == scalar.value());
            assert(coeffs[i as int] == digit(scalar.value() as nat, w_start as nat, c as nat));
            assert(sum((i + 1) as nat, f) == sum(i as nat, f) + coeffs[i as int] * k);
            if ok && coeffs[i as int] != 0 {
                assert(bases@[i as int].log() is Some);
                lemma_base_stands(base);
            }
        }
        if !scalar.is_zero() {
            let s: u64 = scalar.to_u64();
            if s == 1 {
                // Only the first window has the digit of the number one.
                if w_start == 0 {
                    proof {
                        lemma2_to64();
                        lemma_small_mod(1, pow2(c as nat));
                        assert(1nat / 1 == 1);
                        assert(coeffs[i as int] == 1);
                    }
                    res = add_base(res, base);
                    proof {
                        ones = ones + k;
                    }
                } else {
                    proof {
                        lemma2_to64();
                        lemma_pow2_strictly_increases(0, w_start as nat);
                        lemma_small_number(1, w_start as nat);
                        lemma_small_mod(0, pow2(c as nat));
                        assert(coeffs[i as int] == 0);
                    }
                }
            } else {
                proof {
                    lemma_u64_shr_is_div(s, w_start as u64);
                    lemma_digit_step(s as nat, w_start as nat, c as nat);
                }
                let d: u64 = (s >> (w_start as u64)) % (1u64 << (c as u64));
                assert(d == coeffs[i as int]);
                if d != 0 {
                    let at: usize = (d - 1) as usize;
                    let bucket = add_base(buckets[at], base);
                    proof {
                        lemma_stacked_update(held, at as int, k, 0);
                        if ok {
                            assert(denotes(buckets@[at as int], held[at as int]));
                        }
                    }
                    buckets.set(at, bucket);
                    proof {
                        assert((at - 0 + 1) * k == coeffs[i as int] * k);
                        held = held.update(at as int, held[at as int] + k);
                    }
                } else {
                    assert(coeffs[i as int] == 0);
                }
            }
        } else {
            proof {
                lemma_small_mod(0, pow2(c as nat));
                lemma_div_of0(pow2(w_start as nat) as int);
                assert(coeffs[i as int] == 0);
            }
        }
        i += 1;
    }
    add_weighted(res, &buckets, Ghost(ok), Ghost(ones), Ghost(held))
}

/// The coefficients that the windows see: what is below the bits that they cover.
pub open spec fn covered_values(values: Seq<nat>, n: nat, max_num_bits: nat) -> Seq<nat> {
    low_values(values, covered_bits(n, max_num_bits))
}

/// Multi-scalar multiplication on one thread, window by window.
pub fn msm_small_rest_serial<C: CurveAffine, T: SmallScalar>(
    scalars: &[T],
    bases: &[C],
    max_num_bits: usize,
) -> (res: C::Curve)
    requires
        scalars@.len() == bases@.len(),
        max_num_bits > 0,
        windows_fit(bases@.len(), max_num_bits as nat) || at_most_one(small_values(scalars@)),
    ensures
        is_msm(
            res,
            covered_values(small_values(scalars@), bases@.len(), max_num_bits as nat),
            bases@,
        ),
{
    let c = window_bits(bases.len(), max_num_bits);
    let windows: usize = (max_num_bits - 1) / c + 1;
    let ghost values = small_values(scalars@);
    let ghost width = c as nat;
    let ghost end = covered_bits(bases@.len(), max_num_bits as nat);
    let ghost covered = covered_values(values, bases@.len(), max_num_bits as nat);
    let ghost ok = on_curve(covered, bases@);
    proof {
        lemma_fundamental_div_mod((max_num_bits - 1) as int, c as int);
        assert(end == width * windows);
        lemma_pow2_pos(end);
    }
    let mut window_sums: Vec<C::Curve> = Vec::new();
    let mut w: usize = 0;
    while w < windows
        invariant
            w <= windows,
            1 <= c < 64,
            c < usize::BITS,
            scalars@.len() == bases@.len(),
            c * (windows - 1) <= max_num_bits - 1,
            c * (windows - 1) < 64 || at_most_one(values),
            c == width,
            end == width * windows,
            covered == low_values(values, end),
            ok == on_curve(covered, bases@),
            values == small_values(scalars@),
            window_sums@.len() == w,
            forall|t: int|
                0 <= t < w ==> (ok ==> denotes(
                    #[trigger] window_sums@[t],
                    msm_log(digit_values(values, (c * t) as nat, c as nat), bases@),
                )),
        decreases windows - w,
    {
        proof {
            lemma_mul_inequality(w as int, windows - 1, c as int);
            lemma_mul_is_commutative(w as int, c as int);
            lemma_mul_is_commutative(windows - 1, c as int);
            lemma_mul_nonnegative(c as int, w as int);
            if ok {
                lemma_seen_in_window(values, bases@, width, w as nat, windows as nat);
            }
        }
        window_sums.push(window_sum(scalars, bases, c * w, c));
        w += 1;
    }
    // From the highest window down to the second one.
    let mut total: C::Curve = zero_point();
    let mut w: usize = windows;
    proof {
        assert forall|i: int| 0 <= i < covered.len() implies #[trigger] covered[i] < pow2(end) by {
            lemma_mod_bound(values[i] as int, pow2(end) as int);
        }
        lemma_windows_end(covered, bases@, end);
        lemma_mul_basics(pow2(width) as int);
    }
    while w > 1
        invariant
            1 <= w <= windows,
            c == width,
            scalars@.len() == bases@.len(),
            values == small_values(scalars@),
            end == width * windows,
            covered == low_values(values, end),
            window_sums@.len() == windows,
            forall|t: int|
                0 <= t < windows ==> (ok ==> denotes(
                    #[trigger] window_sums@[t],
                    msm_log(digit_values(values, (c * t) as nat, c as nat), bases@),
                )),
            ok ==> denotes(
                total,
                pow2(width) * msm_log(high_values(covered, (width * w) as nat), bases@),
            ),
        decreases w,
    {
        w -= 1;
        proof {
            lemma_covered_window(values, bases@, width, w as nat, windows as nat);
            if ok {
                assert(denotes(
                    window_sums@[w as int],
                    msm_log(digit_values(values, (c * w) as nat, c as nat), bases@),
                ));
            }
        }
        total = add_points(total, window_sums[w]);
        let ghost x = msm_log(high_values(covered, (width * w) as nat), bases@);
        total = double_times(total, c, Ghost(ok), Ghost(x));
    }
    // The lowest window.
    let res = add_points(window_sums[0], total);
    proof {
        lemma_covered_window(values, bases@, width, 0, windows as nat);
        lemma_windows_start(covered, bases@);
        lemma_mul_basics(width as int);
        if ok {
            assert(denotes(
                window_sums@[0],
                msm_log(digit_values(values, (c * 0) as nat, c as nat), bases@),
            ));
        }
    }
    res
}

/// A base that counts in one of the windows counts in the covered bits.
proof fn lemma_seen_in_window<C: CurveAffine>(
    values: Seq<nat>,
    bases: Seq<C>,
    c: nat,
    w: nat,
    windows: nat,
)
    requires
        values.len() == bases.len(),
        w < windows,
        on_curve(low_values(values, c * windows), bases),
    ensures
        on_curve(digit_values(values, c * w, c), bases),
{
    let covered = low_values(values, c * windows);
    assert(c * w + c == c * (w + 1)) by (nonlinear_arith);
    lemma_mul_inequality(w as int + 1, windows as int, c as int);
    lemma_mul_is_commutative(w as int + 1, c as int);
    lemma_mul_is_commutative(windows as int, c as int);
    assert forall|i: int| 0 <= i < bases.len() && digit_values(values, c * w, c)[i] != 0 implies (
    #[trigger] bases[i]).log() is Some by {
        lemma_digit_of_low_bits(values[i], c * windows, c * w, c);
        lemma_digit_of_zero(c * w, c);
        assert(covered[i] != 0);
    }
}

/// The part of the covered bits above a window is that above the next one, shifted, and the
/// window.
proof fn lemma_covered_window<C: CurveAffine>(
    values: Seq<nat>,
    bases: Seq<C>,
    c: nat,
    w: nat,
    windows: nat,
)
    requires
        values.len() == bases.len(),
        w < windows,
    ensures
        msm_log(high_values(low_values(values, c * windows), c * w), bases) == pow2(c) * msm_log(
            high_values(low_values(values, c * windows), c * (w + 1)),
            bases,
        ) + msm_log(digit_values(values, c * w, c), bases),
{
    let covered = low_values(values, c * windows);
    assert(c * w + c == c * (w + 1)) by (nonlinear_arith);
    lemma_mul_inequality(w as int + 1, windows as int, c as int);
    lemma_mul_is_commutative(w as int + 1, c as int);
    lemma_mul_is_commutative(windows as int, c as int);
    lemma_window_step(covered, bases, c * w, c);
    assert forall|i: int| 0 <= i < bases.len() implies #[trigger] digit_values(
        covered,
        c * w,
        c,
    )[i] == digit_values(values, c * w, c)[i] by {
        lemma_digit_of_low_bits(values[i], c * windows, c * w, c);
    }
    lemma_msm_eq(digit_values(covered, c * w, c), digit_values(values, c * w, c), bases);
}

/// How many bases are in one piece with the `i`-th of `n`, where `num_threads` threads share
/// them out.
pub open spec fn piece_length(n: nat, num_threads: nat, i: int) -> nat {
    if n > num_threads {
        let size = n / num_threads;
        let j = i / size as int;
        (chunk_end(n, size, j) - j * size) as nat
    } else {
        n
    }
}

/// The coefficients that the windows see, where `num_threads` threads share the bases out.
pub open spec fn rest_values(values: Seq<nat>, num_threads: nat, max_num_bits: nat) -> Seq<nat> {
    Seq::new(
        values.len(),
        |i: int|
            low_part(
                values[i],
                covered_bits(piece_length(values.len(), num_threads, i), max_num_bits),
            ),
    )
}

/// Where `num_threads` threads share the bases out, each value above one is in a piece whose
/// last window starts inside a word. Of the other values no window but the first sees anything.
pub open spec fn shifts_fit(values: Seq<nat>, num_threads: nat, max_num_bits: nat) -> bool {
    max_num_bits <= 64 || forall|i: int|
        0 <= i < values.len() && #[trigger] values[i] > 1 ==> windows_fit(
            piece_length(values.len(), num_threads, i),
            max_num_bits,
        )
}

/// The same, however many threads share the bases out.
pub open spec fn all_shifts_fit(values: Seq<nat>, max_num_bits: nat) -> bool {
    max_num_bits <= 64 || forall|num_threads: nat|
        num_threads > 0 ==> #[trigger] shifts_fit(values, num_threads, max_num_bits)
}

/// Tells whether each coefficient above one is in a piece whose last window starts inside a
/// word, where `num_threads` threads share the bases out.
pub fn shifts_fit_on<T: SmallScalar>(
    scalars: &[T],
    num_threads: usize,
    max_num_bits: usize,
) -> (res: bool)
    requires
        num_threads > 0,
        max_num_bits > 0,
    ensures
        res == shifts_fit(small_values(scalars@), num_threads as nat, max_num_bits as nat),
{
    if max_num_bits <= 64 {
        return true;
    }
    let ghost values = small_values(scalars@);
    let n: usize = scalars.len();
    let size: usize = if n > num_threads {
        n / num_threads
    } else {
        n
    };
    proof {
        if n > num_threads {
            lemma_div_non_zero(n as int, num_threads as int);
        }
    }
    let mut i: usize = 0;
    while i < n
        invariant
            i <= n,
            n == scalars@.len(),
            values == small_values(scalars@),
            max_num_bits > 64,
            size == (if n > num_threads {
                n as nat / num_threads as nat
            } else {
                n as nat
            }),
            n > 0 ==> size > 0,
            forall|k: int|
                0 <= k < i && #[trigger] values[k] > 1 ==> windows_fit(
                    piece_length(values.len(), num_threads as nat, k),
                    max_num_bits as nat,
                ),
        decreases n - i,
    {
        if scalars[i].to_u64() > 1 {
            let j: usize = i / size;
            proof {
                lemma_fundamental_div_mod(i as int, size as int);
                lemma_mul_is_commutative(size as int, j as int);
                assert((j + 1) * size == j * size + size) by (nonlinear_arith);
                if n <= num_threads {
                    lemma_basic_div(i as int, size as int);
                    lemma_mul_basics(size as int);
                }
            }
            let rest: usize = n - j * size;
            let piece: usize = if rest < size {
                rest
            } else {
                size
            };
            assert(piece == piece_length(values.len(), num_threads as nat, i as int));
            let c = window_bits(piece, max_num_bits);
            let last: usize = (max_num_bits - 1) / c;
            proof {
                lemma_fundamental_div_mod(max_num_bits - 1, c as int);
                lemma_mul_nonnegative(c as int, last as int);
            }
            if c * last >= 64 {
                assert(values[i as int] > 1);
                return false;
            }
        }
        i += 1;
    }
    true
}

/// All the values have at most `max_num_bits` bits.
pub open spec fn values_fit(values: Seq<nat>, max_num_bits: nat) -> bool {
    forall|i: int| 0 <= i < values.len() ==> #[trigger] values[i] < pow2(max_num_bits)
}

/// Windows over no more bits than a word has start inside it.
proof fn lemma_windows_fit(n: nat, max_num_bits: nat)
    requires
        0 < max_num_bits <= 64,
    ensures
        windows_fit(n, max_num_bits),
{
    let c = window_width(n, max_num_bits) as int;
    lemma_fundamental_div_mod(max_num_bits - 1, c);
}

/// The windows cover all the bits that they are made for.
proof fn lemma_covered_bits(n: nat, max_num_bits: nat)
    ensures
        covered_bits(n, max_num_bits) >= max_num_bits,
{
    if max_num_bits > 0 {
        let c = window_width(n, max_num_bits) as int;
        let q = (max_num_bits - 1) / c;
        lemma_fundamental_div_mod(max_num_bits - 1, c);
        lemma_mod_bound(max_num_bits - 1, c);
        lemma_div_pos_is_pos(max_num_bits - 1, c);
        assert(c * (q + 1) == c * q + c) by (nonlinear_arith);
    }
}

/// Where no coefficient has more bits than was said, the windows see all of each, however
/// many threads share the bases out.
pub proof fn law_windows_see_all(values: Seq<nat>, num_threads: nat, max_num_bits: nat)
    requires
        values_fit(values, max_num_bits),
    ensures
        rest_values(values, num_threads, max_num_bits) == values,
{
    let seen = rest_values(values, num_threads, max_num_bits);
    assert forall|i: int| 0 <= i < values.len() implies #[trigger] seen[i] == values[i] by {
        let m = piece_length(values.len(), num_threads, i);
        let bits = covered_bits(m, max_num_bits);
        lemma_covered_bits(m, max_num_bits);
        lemma_pow2_increases(max_num_bits, bits);
        assert(values[i] < pow2(max_num_bits));
        lemma_small_number(values[i], bits);
    }
}

/// What the windows of a piece see is the piece of what they see.
proof fn lemma_rest_piece(values: Seq<nat>, num_threads: nat, max_num_bits: nat, j: int)
    requires
        0 < num_threads < values.len(),
        0 <= j < chunk_count(values.len(), values.len() / num_threads),
    ensures
        chunk(rest_values(values, num_threads, max_num_bits), values.len() / num_threads, j)
            == covered_values(
            chunk(values, values.len() / num_threads, j),
            chunk(values, values.len() / num_threads, j).len(),
            max_num_bits,
        ),
{
    let size = values.len() / num_threads;
    lemma_div_non_zero(values.len() as int, num_threads as int);
    lemma_chunk_bounds(values.len(), size, j);
    let piece = chunk(values, size, j);
    let left = chunk(rest_values(values, num_threads, max_num_bits), size, j);
    let right = covered_values(piece, piece.len(), max_num_bits);
    assert forall|i: int| 0 <= i < piece.len() implies #[trigger] left[i] == right[i] by {
        lemma_fundamental_div_mod_converse(j * size + i, size as int, j, i);
    }
}

/// Multi-scalar multiplication, window by window, where `num_threads` threads share the
/// bases out.
pub fn msm_small_rest_on<C: CurveAffine, T: SmallScalar>(
    scalars: &[T],
    bases: &[C],
    max_num_bits: usize,
    num_threads: usize,
) -> (res: C::Curve)
    requires
        scalars@.len() == bases@.len(),
        max_num_bits > 0,
        num_threads > 0,
        shifts_fit(small_values(scalars@), num_threads as nat, max_num_bits as nat),
    ensures
        is_msm(
            res,
            rest_values(small_values(scalars@), num_threads as nat, max_num_bits as nat),
            bases@,
        ),
{
    let ghost values = small_values(scalars@);
    let ghost seen = rest_values(values, num_threads as nat, max_num_bits as nat);
    if scalars.len() > num_threads {
        let chunk_size: usize = scalars.len() / num_threads;
        let ghost size = chunk_size as nat;
        proof {
            lemma_div_non_zero(scalars@.len() as int, num_threads as int);
        }
        let serial = |s: &[T], b: &[C]| -> (part: C::Curve)
            requires
                s@.len() == b@.len(),
                windows_fit(b@.len(), max_num_bits as nat) || at_most_one(small_values(s@)),
            ensures
                is_msm(
                    part,
                    covered_values(small_values(s@), b@.len(), max_num_bits as nat),
                    b@,
                ),
            { msm_small_rest_serial(s, b, max_num_bits) };
        proof {
            assert forall|s: &[T], b: &[C]|
                are_pieces(scalars@, bases@, size, s@, b@) implies #[trigger] call_requires(
                serial,
                (s, b),
            ) by {
                let j = choose|j: int|
                    0 <= j < chunk_count(bases@.len(), size) && s@ == #[trigger] chunk(
                        scalars@,
                        size,
                        j,
                    ) && b@ == chunk(bases@, size, j);
                lemma_chunk_bounds(bases@.len(), size, j);
                if max_num_bits <= 64 {
                    lemma_windows_fit(b@.len(), max_num_bits as nat);
                } else if !at_most_one(small_values(s@)) {
                    let i = choose|i: int|
                        0 <= i < s@.len() && #[trigger] small_values(s@)[i] > 1;
                    assert(values[j * size + i] > 1);
                    lemma_fundamental_div_mod_converse(j * size + i, size as int, j, i);
                }
            }
        }
        let res = par_chunks_sum(scalars, bases, chunk_size, serial);
        proof {
            let parts = choose|parts: Seq<C::Curve>|
                {
                    &&& parts.len() == chunk_count(bases@.len(), size)
                    &&& forall|j: int|
                        0 <= j < parts.len() ==> is_part(
                            serial,
                            scalars@,
                            bases@,
                            size,
                            j,
                            #[trigger] parts[j],
                        )
                    &&& #[trigger] is_sum(res, parts)
                };
            assert forall|j: int| 0 <= j < parts.len() implies is_msm(
                #[trigger] parts[j],
                chunk(seen, size, j),
                chunk(bases@, size, j),
            ) by {
                assert(is_part(serial, scalars@, bases@, size, j, parts[j]));
                lemma_chunk_bounds(bases@.len(), size, j);
                lemma_rest_piece(values, num_threads as nat, max_num_bits as nat, j);
                assert(small_values(chunk(scalars@, size, j)) =~= chunk(values, size, j));
            }
            lemma_sum_of_pieces(res, parts, seen, bases@, size);
        }
        res
    } else {
        proof {
            if max_num_bits <= 64 {
                lemma_windows_fit(bases@.len(), max_num_bits as nat);
            }
            assert(seen =~= covered_values(values, bases@.len(), max_num_bits as nat));
        }
        msm_small_rest_serial(scalars, bases, max_num_bits)
    }
}

/// Multi-scalar multiplication by coefficients of any width, window by window. Where some
/// coefficient has more bits than `max_num_bits`, what is cut off of it depends on the number
/// of threads.
pub fn msm_small_rest<C: CurveAffine, T: SmallScalar>(
    scalars: &[T],
    bases: &[C],
    max_num_bits: usize,
) -> (res: C::Curve)
    requires
        scalars@.len() == bases@.len(),
        max_num_bits > 0,
        all_shifts_fit(small_values(scalars@), max_num_bits as nat),
    ensures
        values_fit(small_values(scalars@), max_num_bits as nat) ==> is_msm(
            res,
            small_values(scalars@),
            bases@,
        ),
        exists|num_threads: nat|
            num_threads > 0 && #[trigger] is_msm(
                res,
                rest_values(small_values(scalars@), num_threads, max_num_bits as nat),
                bases@,
            ),
{
    let num_threads = rayon::current_num_threads();
    let res = msm_small_rest_on(scalars, bases, max_num_bits, num_threads);
    proof {
        let values = small_values(scalars@);
        if values_fit(values, max_num_bits as nat) {
            law_windows_see_all(values, num_threads as nat, max_num_bits as nat);
        }
    }
    res
}

/// Multi-scalar multiplication on one thread, by coefficients of few bits: one bucket for
/// each coefficient.
pub fn msm_10_serial<C: CurveAffine, T: SmallScalar>(
    scalars: &[T],
    bases: &[C],
    max_num_bits: usize,
) -> (res: C::Curve)
    requires
        scalars@.len() == bases@.len(),
        max_num_bits < usize::BITS,
        values_fit(small_values(scalars@), max_num_bits as nat),
    ensures
        is_msm(res, small_values(scalars@), bases@),
{
    let ghost values = small_values(scalars@);
    let ghost ok = on_curve(values, bases@);
    let ghost f = |i: int| values[i] * base_log(bases@[i]);
    proof {
        lemma_usize_pow2_no_overflow(max_num_bits as nat);
        lemma_usize_shl_is_mul(1, max_num_bits);
    }
    let num_buckets: usize = 1usize << max_num_bits;
    let mut buckets: Vec<Bucket<C>> = empty_buckets(num_buckets);
    let ghost mut held = Seq::new(num_buckets as nat, |j: int| 0int);
    proof {
        lemma_stacked_zero(held, 1);
    }
    let mut i: usize = 0;
    while i < scalars.len()
        invariant
            i <= scalars@.len(),
            scalars@.len() == bases@.len(),
            values_fit(values, max_num_bits as nat),
            ok == on_curve(values, bases@),
            values == small_values(scalars@),
            f == (|i: int| values[i] * base_log(bases@[i])),
            num_buckets == pow2(max_num_bits as nat),
            buckets@.len() == num_buckets,
            held.len() == num_buckets,
            ok ==> buckets_hold(buckets@, held),
            ok ==> stacked(held, 1) == sum(i as nat, f),
        decreases scalars@.len() - i,
    {
        let scalar = scalars[i];
        let ghost k = base_log(bases@[i as int]);
        proof {
            scalar.vanishes_at_zero();
            lemma_mul_basics(k);
            assert(values[i as int] == scalar.value());
            assert(sum((i + 1) as nat, f) == sum(i as nat, f) + values[i as int] * k);
            if ok && values[i as int] != 0 {
                assert(bases@[i as int].log() is Some);
                lemma_base_stands(bases@[i as int]);
            }
        }
        if !scalar.is_zero() {
            let at: usize = scalar.to_u64() as usize;
            add_to_bucket(&mut buckets, at, &bases[i], Ghost(ok), Ghost(held), Ghost(k));
            proof {
                lemma_stacked_update(held, at as int, k, 1);
                assert((at - 1 + 1) * k == values[i as int] * k);
                held = held.update(at as int, held[at as int] + k);
            }
        }
        i += 1;
    }
    // The bucket of the coefficient zero is left out.
    proof {
        lemma_pow2_pos(max_num_bits as nat);
    }
    add_buckets(zero_point(), &buckets, 1, Ghost(ok), Ghost(0), Ghost(held))
}

/// Multi-scalar multiplication by coefficients of few bits.
pub fn msm_10<C: CurveAffine, T: SmallScalar>(
    scalars: &[T],
    bases: &[C],
    max_num_bits: usize,
) -> (res: C::Curve)
    requires
        scalars@.len() == bases@.len(),
        max_num_bits < usize::BITS,
        values_fit(small_values(scalars@), max_num_bits as nat),
    ensures
        is_msm(res, small_values(scalars@), bases@),
{
    let num_threads = rayon::current_num_threads();
    if scalars.len() > num_threads {
        let ghost values = small_values(scalars@);
        let chunk_size: usize = scalars.len() / num_threads;
        let ghost size = chunk_size as nat;
        proof {
            lemma_div_non_zero(scalars@.len() as int, num_threads as int);
        }
        let serial = |s: &[T], b: &[C]| -> (part: C::Curve)
            requires
                s@.len() == b@.len(),
                max_num_bits < usize::BITS,
                values_fit(small_values(s@), max_num_bits as nat),
            ensures
                is_msm(part, small_values(s@), b@),
            { msm_10_serial(s, b, max_num_bits) };
        proof {
            assert forall|s: &[T], b: &[C]|
                are_pieces(scalars@, bases@, size, s@, b@) implies #[trigger] call_requires(
                serial,
                (s, b),
            ) by {
                let j = choose|j: int|
                    0 <= j < chunk_count(bases@.len(), size) && s@ == #[trigger] chunk(
                        scalars@,
                        size,
                        j,
                    ) && b@ == chunk(bases@, size, j);
                lemma_chunk_bounds(bases@.len(), size, j);
                assert forall|i: int| 0 <= i < s@.len() implies #[trigger] small_values(s@)[i]
                    < pow2(max_num_bits as nat) by {
                    assert(values[j * size + i] < pow2(max_num_bits as nat));
                }
            }
        }
        let res = par_chunks_sum(scalars, bases, chunk_size, serial);
        proof {
            let parts = choose|parts: Seq<C::Curve>|
                {
                    &&& parts.len() == chunk_count(bases@.len(), size)
                    &&& forall|j: int|
                        0 <= j < parts.len() ==> is_part(
                            serial,
                            scalars@,
                            bases@,
                            size,
                            j,
                            #[trigger] parts[j],
                        )
                    &&& #[trigger] is_sum(res, parts)
                };
            assert forall|j: int| 0 <= j < parts.len() implies is_msm(
                #[trigger] parts[j],
                chunk(values, size, j),
                chunk(bases@, size, j),
            ) by {
                assert(is_part(serial, scalars@, bases@, size, j, parts[j]));
                lemma_chunk_bounds(bases@.len(), size, j);
                assert(small_values(chunk(scalars@, size, j)) =~= chunk(values, size, j));
            }
            lemma_sum_of_pieces(res, parts, values, bases@, size);
        }
        res
    } else {
        msm_10_serial(scalars, bases, max_num_bits)
    }
}

/// The width of the windows: eight bits for words of thirty-two or sixty-four, three for few
/// bases, and elsewhere two more than `69` hundredths of the exponent of the power of two that
/// the number of bases lies above.
pub proof fn law_window_width(n: nat, max_num_bits: nat, k: nat)
    ensures
        max_num_bits == 32 || max_num_bits == 64 ==> window_width(n, max_num_bits) == 8,
        max_num_bits != 32 && max_num_bits != 64 && n < 32 ==> window_width(n, max_num_bits) == 3,
        max_num_bits != 32 && max_num_bits != 64 && n >= 32 && pow2(k) <= n < pow2(k + 1) ==> 100
            * (window_width(n, max_num_bits) - 2) <= 69 * k < 100 * (window_width(n, max_num_bits)
            - 1),
{
    law_ln_estimate(n, k);
}

/// The windows cover the bits that they are made for, and no whole window more. They fit where
/// the last one starts inside a word.
pub proof fn law_windows_cover(n: nat, max_num_bits: nat)
    requires
        max_num_bits > 0,
    ensures
        covered_bits(n, max_num_bits) as int % (window_width(n, max_num_bits) as int) == 0,
        max_num_bits <= covered_bits(n, max_num_bits) < max_num_bits + window_width(
            n,
            max_num_bits,
        ),
        windows_fit(n, max_num_bits) == (covered_bits(n, max_num_bits) - window_width(
            n,
            max_num_bits,
        ) < 64),
        covered_bits(n, 0) == 0,
{
    let c = window_width(n, max_num_bits) as int;
    let q = (max_num_bits - 1) / c;
    lemma_covered_bits(n, max_num_bits);
    lemma_fundamental_div_mod(max_num_bits - 1, c);
    lemma_mod_bound(max_num_bits - 1, c);
    lemma_div_pos_is_pos(max_num_bits - 1, c);
    assert(c * (q + 1) == c * q + c) by (nonlinear_arith);
    lemma_mod_multiples_basic(q + 1, c);
    lemma_mul_is_commutative(q + 1, c);
    lemma_mul_basics(window_width(n, 0) as int);
}

/// Pieces are as long as an even share of the bases, rounded down, and the last one is what is
/// left; where there are no more bases than threads, all of them are one piece.
pub proof fn law_piece_length(n: nat, num_threads: nat, i: int)
    requires
        num_threads > 0,
        0 <= i < n,
    ensures
        n <= num_threads ==> piece_length(n, num_threads, i) == n,
        n > num_threads ==> ({
            let share = n as int / num_threads as int;
            let first = i / share * share;
            piece_length(n, num_threads, i) == (if first + share <= n {
                share
            } else {
                n - first
            })
        }),
{
    if n > num_threads {
        let share = n as int / num_threads as int;
        let j = i / share;
        lemma_div_non_zero(n as int, num_threads as int);
        lemma_fundamental_div_mod(i, share);
        lemma_mul_is_commutative(share, j);
        assert((j + 1) * share == j * share + share) by (nonlinear_arith);
    }
}

/// What the windows see of a value is what is below the bits that they cover in its piece.
pub proof fn law_seen_values(
    values: Seq<nat>,
    n: nat,
    num_threads: nat,
    max_num_bits: nat,
    i: int,
)
    requires
        0 <= i < values.len(),
    ensures
        covered_values(values, n, max_num_bits).len() == values.len(),
        rest_values(values, num_threads, max_num_bits).len() == values.len(),
        covered_values(values, n, max_num_bits)[i] == values[i] % pow2(
            covered_bits(n, max_num_bits),
        ),
        rest_values(values, num_threads, max_num_bits)[i] == values[i] % pow2(
            covered_bits(piece_length(values.len(), num_threads, i), max_num_bits),
        ),
{
}

/// A row fits in a number of bits exactly where each of its values does.
pub proof fn law_rows_fit(values: Seq<nat>, value: nat, max_num_bits: nat)
    ensures
        values_fit(Seq::empty(), max_num_bits),
        values_fit(values.push(value), max_num_bits) == (values_fit(values, max_num_bits) && value
            < pow2(max_num_bits)),
        at_most_one(Seq::empty()),
        at_most_one(values.push(value)) == (at_most_one(values) && value <= 1),
{
    let all = values.push(value);
    assert(all[values.len() as int] == value);
    assert(forall|i: int| 0 <= i < values.len() ==> #[trigger] values[i] == all[i]);
}

/// Which rows the windows can be shifted over: all of them where the bits fit in a word, and
/// elsewhere those whose values above one are in pieces that fit.
pub proof fn law_shifts(values: Seq<nat>, num_threads: nat, max_num_bits: nat)
    requires
        num_threads > 0,
    ensures
        max_num_bits <= 64 ==> shifts_fit(values, num_threads, max_num_bits) && all_shifts_fit(
            values,
            max_num_bits,
        ),
        all_shifts_fit(values, max_num_bits) ==> shifts_fit(values, num_threads, max_num_bits),
        (forall|i: int| 0 <= i < values.len() ==> #[trigger] values[i] <= 1) ==> all_shifts_fit(
            values,
            max_num_bits,
        ),
        (forall|i: int|
            0 <= i < values.len() && #[trigger] values[i] > 1 ==> windows_fit(
                piece_length(values.len(), num_threads, i),
                max_num_bits,
            )) ==> shifts_fit(values, num_threads, max_num_bits),
        forall|i: int|
            max_num_bits > 64 && shifts_fit(values, num_threads, max_num_bits) && 0 <= i
                < values.len() && #[trigger] values[i] > 1 ==> windows_fit(
                piece_length(values.len(), num_threads, i),
                max_num_bits,
            ),
{
}

/// Where the windows can be shifted for each number of threads, they can for all of them.
pub proof fn law_shifts_for_all_threads(values: Seq<nat>, max_num_bits: nat)
    requires
        forall|num_threads: nat|
            num_threads > 0 ==> #[trigger] shifts_fit(values, num_threads, max_num_bits),
    ensures
        all_shifts_fit(values, max_num_bits),
{
}

} // verus!
