//! Multi-scalar multiplication in kernels over device buffers.

use vstd::arithmetic::div_mod::*;
use vstd::arithmetic::mul::*;
use vstd::prelude::*;
use crate::curve::{
    all_summands, base_log, binary_values, denotes, field_values, in_group, is_msm, is_sum,
    lemma_point_denotes, on_curve, paired, point_log, surplus_vanishes, zero_points, Coefficient,
    CurveAffine, CurveGroup, FieldScalar, Summand,
};
use crate::kernels::{
    binary_on_curve, binary_term, block_sum, input_term, is_product_defined, law_blocks_cover,
    lemma_sum_of_denoted, msm_binary_kernel, msm_kernel, reduce_sum, strides_fit, Grid,
};
use crate::parallel::par_sum;
use crate::sums::{lemma_sum_eq, lemma_sum_mod, lemma_sum_split, lemma_sum_zero, sum};

verus! {

/// How many threads a block has at most: fewer than a device takes, so that what they share
/// fits in its shared memory.
pub const MAX_BLOCK_DIM: u32 = 256;

/// How many points a kernel takes at most: twice the number of its threads has to fit in a
/// word.
pub const MAX_LEN: u32 = 4_294_966_784;

/// How many threads the blocks have that share `items` pieces of work out.
pub open spec fn block_width(items: nat) -> nat {
    if items < MAX_BLOCK_DIM {
        items
    } else {
        MAX_BLOCK_DIM as nat
    }
}

/// How many blocks it takes to give each of `items` pieces of work a thread.
pub open spec fn block_count(items: nat) -> nat {
    ((items - 1) / block_width(items) as int + 1) as nat
}

/// The grid that gives each of `items` pieces of work a thread.
pub open spec fn grid_of(items: nat) -> Grid {
    Grid { grid_dim: block_count(items) as u32, block_dim: block_width(items) as u32 }
}

/// Lays out a grid that gives each of `items` pieces of work a thread.
pub fn grid_for(items: u32) -> (grid: Grid)
    requires
        items > 0,
    ensures
        grid == grid_of(items as nat),
        grid.block_dim == block_width(items as nat),
        grid.grid_dim == block_count(items as nat),
        items <= grid.threads() < items + grid.block_dim,
{
    let block_dim: u32 = if items < MAX_BLOCK_DIM {
        items
    } else {
        MAX_BLOCK_DIM
    };
    proof {
        let q = (items - 1) / block_dim as int;
        lemma_fundamental_div_mod(items - 1, block_dim as int);
        lemma_mod_bound(items - 1, block_dim as int);
        lemma_div_pos_is_pos(items - 1, block_dim as int);
        assert((q + 1) * block_dim == block_dim * q + block_dim) by (nonlinear_arith);
        assert(q <= items - 1) by (nonlinear_arith)
            requires
                block_dim * q <= items - 1,
                block_dim >= 1,
                q >= 0,
        ;
    }
    Grid { grid_dim: (items - 1) / block_dim + 1, block_dim }
}

/// How much memory a block shares: a point for each of its threads, and one more.
pub fn shared_memory_size(block_dim: u32, point_size: u32) -> (res: u32)
    requires
        block_dim < u32::MAX,
        (block_dim + 1) * point_size <= u32::MAX,
    ensures
        res == (block_dim + 1) * point_size,
{
    (block_dim + 1) * point_size
}

/// Half of a number of points, rounded up: each thread starts with two of them.
pub open spec fn half_up(len: nat) -> nat {
    (len + 1) / 2
}

/// How many points are left after a pass over `len` of them.
pub open spec fn len_after_pass(len: nat) -> nat {
    block_count(half_up(len))
}

/// A pass leaves at least one point, and at most half of them, rounded up.
pub proof fn lemma_pass_shrinks(len: nat)
    requires
        len > 1,
    ensures
        0 < len_after_pass(len) < len,
        2 * len_after_pass(len) <= len,
{
    let half = half_up(len);
    let width = block_width(half) as int;
    let q = (half - 1) / width;
    lemma_fundamental_div_mod(half - 1, width);
    lemma_div_pos_is_pos(half - 1, width);
    assert(len_after_pass(len) == q + 1);
    if half <= MAX_BLOCK_DIM {
        assert(width == half);
        lemma_basic_div(half - 1, width);
    } else {
        assert(width == 256);
    }
}

/// How far above the first of the `len` points that a pass reads its sums stand: right above
/// the last one, or, where `even` holds, above the last pair.
pub open spec fn reach(len: nat, even: bool) -> nat {
    if even {
        2 * half_up(len)
    } else {
        len
    }
}

/// How much of a buffer the passes take, from the `len` points that they start with to the
/// sum.
pub open spec fn room(len: nat, even: bool) -> nat
    decreases len,
{
    if len <= 1 {
        len
    } else {
        proof {
            lemma_pass_shrinks(len);
        }
        reach(len, even) + room(len_after_pass(len), even)
    }
}

/// A buffer of twice the points that the passes start with has room for all of them.
pub proof fn law_room_suffices(len: nat, even: bool)
    ensures
        len <= room(len, even) <= 2 * len,
    decreases len,
{
    if len > 1 {
        lemma_pass_shrinks(len);
        law_room_suffices(len_after_pass(len), even);
    }
}

/// The points of a buffer that are still to be summed: `len` of them, from `start` on.
#[derive(Clone, Copy)]
pub struct Reduction {
    /// Where the first of the points stands.
    pub start: usize,
    /// How many there are.
    pub len: u32,
    /// Whether the sums of a pass stand above the last pair of the points that it reads, rather
    /// than right above the last point.
    pub even: bool,
}

/// One pass of the reduction kernel: it reads the points from `start` up to `end`, and writes
/// one point for each block from `target` on.
#[derive(Clone, Copy)]
pub struct Pass {
    /// The grid that the kernel runs in.
    pub grid: Grid,
    /// Where the first point to read stands.
    pub start: usize,
    /// One place above the last point to read.
    pub end: usize,
    /// Where the first point to write stands.
    pub target: usize,
}

impl Reduction {
    /// There are points, and the buffer of `size` points has room for the passes.
    pub open spec fn fits(self, size: nat) -> bool {
        self.len > 0 && self.start + room(self.len as nat, self.even) <= size
    }

    /// The next pass, and what is left to be summed after it; `None` where one point is left,
    /// which is the sum.
    pub fn next(self) -> (res: Option<(Pass, Reduction)>)
        requires
            0 < self.len <= MAX_LEN,
            self.len > 1 ==> self.start + reach(self.len as nat, self.even) <= usize::MAX,
        ensures
            self.len == 1 <==> res is None,
            res matches Some((pass, rest)) ==> {
                &&& pass.start == self.start
                &&& pass.end == self.start + self.len
                &&& pass.target == self.start + reach(self.len as nat, self.even)
                &&& rest.start == pass.target
                &&& rest.even == self.even
                &&& rest.len == pass.grid.grid_dim
                &&& pass.grid == grid_of(half_up(self.len as nat))
                &&& pass.grid.block_dim == block_width(half_up(self.len as nat))
                &&& pass.grid.grid_dim == len_after_pass(self.len as nat)
                &&& pass.grid.well_formed()
                &&& strides_fit(self.len as nat, pass.grid.threads())
                &&& rest.len < self.len
                &&& forall|size: nat| #[trigger] self.fits(size) ==> rest.fits(size)
            },
    {
        if self.len <= 1 {
            return None;
        }
        let half: u32 = self.len / 2 + self.len % 2;
        let grid = grid_for(half);
        let end: usize = self.start + self.len as usize;
        let target: usize = if self.even {
            end + (self.len % 2) as usize
        } else {
            end
        };
        let pass = Pass { grid, start: self.start, end, target };
        let rest = Reduction { start: target, len: grid.grid_dim, even: self.even };
        proof {
            lemma_pass_shrinks(self.len as nat);
            lemma_strides_fit(self.len as nat, grid.threads());
        }
        Some((pass, rest))
    }
}

/// Where each thread makes one step, no thread steps over the end of a word.
proof fn lemma_strides_fit(n: nat, threads: nat)
    requires
        n <= 2 * threads <= u32::MAX,
        threads > 0,
    ensures
        strides_fit(n, threads),
{
    assert forall|i: int|
        0 <= i < n && #[trigger] (i % (2 * threads as int)) < threads implies i + threads
        <= u32::MAX by {
        lemma_small_mod(i as nat, 2 * threads);
    }
}

/// Whether `len` points are summed by `num_threads` threads of the host rather than in
/// further passes.
pub fn host_can_sum(len: u32, num_threads: usize) -> (res: bool)
    ensures
        res == (len <= num_threads),
{
    len as usize <= num_threads
}

/// Sums points on the threads of the host.
pub fn sum_on_host<G: CurveGroup>(points: &[G]) -> (res: G)
    ensures
        is_sum(res, points@),
{
    par_sum(points)
}

/// What the passes over the `len` points from `start` on make of a buffer above these points:
/// what stands between them and the sums of the first pass is as it was, then come the sums of
/// its blocks, and above those what the next passes make of the buffer. Above the last sum it is
/// as it was.
pub open spec fn passes_done<G: CurveGroup>(
    before: Seq<G>,
    after: Seq<G>,
    start: int,
    len: nat,
    even: bool,
) -> bool
    decreases len,
{
    if len <= 1 {
        after.skip(start + len) == before.skip(start + len)
    } else {
        let target = start + reach(len, even);
        let inputs = after.subrange(start, start + len);
        let sums = after.skip(target);
        proof {
            lemma_pass_shrinks(len);
        }
        &&& after.subrange(start + len, target) == before.subrange(start + len, target)
        &&& all_summands::<G, G>(inputs) ==> forall|b: int|
            0 <= b < len_after_pass(len) ==> denotes(
                #[trigger] sums[b],
                block_sum(len, grid_of(half_up(len)), b, input_term::<G, G>(inputs)),
            )
        &&& passes_done(before, after, target, len_after_pass(len), even)
    }
}

/// Above its first `len` points, the buffer is as it was, or what the passes make of it.
pub open spec fn is_scratch<G: CurveGroup>(
    before: Seq<G>,
    after: Seq<G>,
    len: nat,
    even: bool,
) -> bool {
    ||| after.skip(len as int) == before.skip(len as int)
    ||| passes_done(before, after, 0, len, even)
}

/// The passes over points do not depend on what the buffer was below the end of these points.
proof fn lemma_passes_from<G: CurveGroup>(
    before: Seq<G>,
    launched: Seq<G>,
    after: Seq<G>,
    start: int,
    len: nat,
    even: bool,
)
    requires
        0 <= start,
        0 < len,
        start + room(len, even) <= before.len(),
        before.len() == launched.len(),
        forall|i: int| start + len <= i < before.len() ==> #[trigger] launched[i] == before[i],
        passes_done(launched, after, start, len, even),
    ensures
        passes_done(before, after, start, len, even),
    decreases len,
{
    law_room_suffices(len, even);
    assert(launched.skip(start + len) =~= before.skip(start + len));
    if len > 1 {
        let target = start + reach(len, even);
        lemma_pass_shrinks(len);
        law_room_suffices(len_after_pass(len), even);
        assert(launched.subrange(start + len, target) =~= before.subrange(start + len, target));
        lemma_passes_from(before, launched, after, target, len_after_pass(len), even);
    }
}

/// A kernel that writes the first `len` points leaves the rest as it was.
proof fn lemma_scratch<G: CurveGroup>(
    before: Seq<G>,
    launched: Seq<G>,
    after: Seq<G>,
    len: nat,
    even: bool,
)
    requires
        0 < len,
        2 * len <= before.len(),
        before.len() == launched.len(),
        forall|i: int| len <= i < before.len() ==> #[trigger] launched[i] == before[i],
        is_scratch(launched, after, len, even),
    ensures
        is_scratch(before, after, len, even),
{
    assert(launched.skip(len as int) =~= before.skip(len as int));
    if passes_done(launched, after, 0, len, even) {
        law_room_suffices(len, even);
        lemma_passes_from(before, launched, after, 0, len, even);
    }
}

/// Sums the first `len` points of a buffer in passes of the reduction kernel. Where `even`
/// holds, the sums of a pass stand above the last pair of the points that it reads.
pub fn reduce_passes<G: CurveGroup>(buffer: &mut [G], len: u32, even: bool) -> (res: G)
    requires
        0 < len <= MAX_LEN,
        2 * len <= old(buffer)@.len(),
    ensures
        is_sum(res, old(buffer)@.take(len as int)),
        final(buffer)@.len() == old(buffer)@.len(),
        final(buffer)@.take(len as int) == old(buffer)@.take(len as int),
        passes_done(old(buffer)@, final(buffer)@, 0, len as nat, even),
        res == final(buffer)@[room(len as nat, even) - 1],
{
    let ghost first = buffer@;
    let ghost points = buffer@.take(len as int);
    let ghost ok = in_group(points);
    let ghost order = G::order();
    let ghost total = sum(len as nat, |i: int| point_log(points[i]));
    let mut left = Reduction { start: 0, len, even };
    proof {
        law_room_suffices(len as nat, even);
        G::order_is_positive();
        assert(first.len() == buffer.len());
        assert(first.subrange(0, len as int) =~= points);
    }
    let mut step = left.next();
    while step.is_some()
        invariant
            len > 0,
            order == G::order(),
            order > 0,
            buffer@.len() == first.len(),
            first.len() <= usize::MAX,
            left.fits(first.len()),
            0 < left.len <= MAX_LEN,
            left.start == 0 && left.len == len || left.start >= len,
            buffer@.take(len as int) == first.take(len as int),
            len <= first.len(),
            left.even == even,
            left.start + room(left.len as nat, even) == room(len as nat, even),
            buffer@.skip(left.start + left.len) == first.skip(left.start + left.len),
            forall|later: Seq<G>|
                later.len() == first.len() && later.take(left.start + left.len) == buffer@.take(
                    left.start + left.len,
                ) && #[trigger] passes_done(
                    first,
                    later,
                    left.start as int,
                    left.len as nat,
                    even,
                ) ==> passes_done(first, later, 0, len as nat, even),
            left.len == 1 <==> step is None,
            step matches Some((pass, rest)) ==> {
                &&& pass.start == left.start
                &&& pass.end == left.start + left.len
                &&& pass.target == left.start + reach(left.len as nat, even)
                &&& rest.start == pass.target
                &&& rest.even == even
                &&& rest.len == pass.grid.grid_dim
                &&& pass.grid == grid_of(half_up(left.len as nat))
                &&& pass.grid.grid_dim == len_after_pass(left.len as nat)
                &&& pass.grid.well_formed()
                &&& strides_fit(left.len as nat, pass.grid.threads())
                &&& rest.len < left.len
                &&& rest.fits(first.len())
            },
            ok ==> is_remaining(buffer@, left, total),
        decreases left.len,
    {
        let (pass, rest) = step.unwrap();
        let ghost before = buffer@;
        let ghost inputs = before.subrange(pass.start as int, pass.end as int);
        proof {
            law_room_suffices(left.len as nat, even);
            law_room_suffices(rest.len as nat, even);
        }
        let (front, back) = buffer.split_at_mut(pass.target);
        let (below, _) = front.split_at(pass.end);
        let (_, source) = below.split_at(pass.start);
        assert(source@ =~= inputs);
        reduce_sum(source, back, pass.grid);
        proof {
            if ok {
                lemma_pass_keeps_total(before, buffer@, pass, rest, left, total);
            }
            assert(buffer@.take(len as int) =~= first.take(len as int));
            let end = pass.end as int;
            let target = pass.target as int;
            let top = target + rest.len;
            assert(buffer@.take(target) =~= before.take(target));
            assert forall|i: int| end <= i < first.len() implies #[trigger] before[i]
                == first[i] by {
                assert(before.skip(end)[i - end] == first.skip(end)[i - end]);
            }
            assert forall|i: int| top <= i < first.len() implies #[trigger] buffer@[i]
                == first[i] by {
                assert(buffer@[i] == before[i]);
            }
            assert(buffer@.skip(top) =~= first.skip(top));
            assert forall|later: Seq<G>|
                later.len() == first.len() && later.take(top) == buffer@.take(top)
                    && #[trigger] passes_done(
                    first,
                    later,
                    target,
                    rest.len as nat,
                    even,
                ) implies passes_done(first, later, 0, len as nat, even) by {
                assert forall|i: int| 0 <= i < top implies #[trigger] later[i] == buffer@[i] by {
                    assert(later.take(top)[i] == buffer@.take(top)[i]);
                }
                assert forall|i: int| 0 <= i < target implies #[trigger] buffer@[i]
                    == before[i] by {
                    assert(buffer@.take(target)[i] == before.take(target)[i]);
                }
                assert(later.take(end) =~= before.take(end));
                assert(later.subrange(left.start as int, end) =~= inputs);
                assert(later.subrange(end, target) =~= first.subrange(end, target));
                assert forall|b: int| 0 <= b < rest.len implies #[trigger] later.skip(target)[b]
                    == buffer@.skip(target)[b] by {
                    assert(later[target + b] == buffer@[target + b]);
                }
                assert(passes_done(first, later, left.start as int, left.len as nat, even));
            }
        }
        left = rest;
        step = left.next();
    }
    proof {
        assert(passes_done(first, buffer@, left.start as int, left.len as nat, even));
        if ok {
            let last = buffer@.subrange(left.start as int, left.start + 1);
            reveal_with_fuel(sum, 2);
            lemma_point_denotes(buffer@[left.start as int]);
            assert(last[0] == buffer@[left.start as int]);
        }
    }
    buffer[left.start]
}

/// What is left to be summed are points of the group, and their sum is the multiple of the
/// generator by `total`.
spec fn is_remaining<G: CurveGroup>(buffer: Seq<G>, left: Reduction, total: int) -> bool {
    let points = buffer.subrange(left.start as int, left.start + left.len);
    in_group(points) && sum(left.len as nat, |i: int| point_log(points[i])) % G::order() == total
        % G::order()
}

/// A pass leaves points that have the same sum as those that it read.
proof fn lemma_pass_keeps_total<G: CurveGroup>(
    before: Seq<G>,
    after: Seq<G>,
    pass: Pass,
    rest: Reduction,
    left: Reduction,
    total: int,
)
    requires
        is_remaining(before, left, total),
        left.len > 0,
        pass.start == left.start,
        pass.end == left.start + left.len,
        rest.len == pass.grid.grid_dim,
        rest.start + rest.len <= after.len(),
        before.len() == after.len(),
        pass.grid.well_formed(),
        forall|b: int|
            0 <= b < rest.len ==> denotes(
                #[trigger] after.subrange(rest.start as int, rest.start + rest.len)[b],
                block_sum(
                    left.len as nat,
                    pass.grid,
                    b,
                    input_term::<G, G>(before.subrange(pass.start as int, pass.end as int)),
                ),
            ),
    ensures
        is_remaining(after, rest, total),
{
    let points = before.subrange(left.start as int, left.start + left.len);
    let sums = after.subrange(rest.start as int, rest.start + rest.len);
    let f = input_term::<G, G>(points);
    let g = |b: int| block_sum(left.len as nat, pass.grid, b, f);
    let h = |b: int| point_log(sums[b]);
    G::order_is_positive();
    assert forall|b: int| 0 <= b < rest.len implies #[trigger] h(b) % G::order() == g(b)
        % G::order() by {
        assert(denotes(sums[b], g(b)));
        lemma_mod_twice(g(b), G::order());
    }
    lemma_sum_mod(rest.len as nat, h, g, G::order());
    law_blocks_cover(left.len as nat, pass.grid, f);
    lemma_sum_eq(left.len as nat, f, |i: int| point_log(points[i]));
}

/// The kernel of the binary multiplication, in the grid for `bases` bases, steps to all of
/// `coeffs` coefficients without leaving a word.
pub open spec fn launch_fits(coeffs: nat, bases: nat) -> bool {
    coeffs <= bases || coeffs <= u32::MAX && strides_fit(
        coeffs,
        grid_of(half_up(bases)).threads(),
    )
}

/// Multi-scalar multiplication by the coefficients zero and one, in device buffers: every
/// coefficient that is not zero counts as one. There may be fewer coefficients than bases, and
/// more where those without a base are zero. The buffer `d_partial_sums` takes a point for each
/// block of the first kernel, and as many more.
pub fn msm_binary_gpu<C: CurveAffine, T: Coefficient>(
    d_scalars: &[T],
    d_bases: &[C],
    d_partial_sums: &mut [C::Curve],
) -> (res: C::Curve)
    requires
        surplus_vanishes(d_scalars@, d_bases@.len()),
        0 < d_bases@.len() <= MAX_LEN,
        launch_fits(d_scalars@.len(), d_bases@.len()),
        old(d_partial_sums)@.len() == 2 * block_count(half_up(d_bases@.len())),
    ensures
        is_msm(res, binary_values(d_scalars@), paired(d_bases@, d_scalars@.len())),
        final(d_partial_sums)@.len() == old(d_partial_sums)@.len(),
        forall|b: int|
            0 <= b < block_count(half_up(d_bases@.len())) ==> (binary_on_curve(
                d_scalars@,
                d_bases@,
            ) ==> denotes(
                #[trigger] final(d_partial_sums)@[b],
                block_sum(
                    d_scalars@.len(),
                    grid_of(half_up(d_bases@.len())),
                    b,
                    binary_term(d_scalars@, d_bases@),
                ),
            )),
        is_scratch(
            old(d_partial_sums)@,
            final(d_partial_sums)@,
            block_count(half_up(d_bases@.len())),
            true,
        ),
{
    let n: usize = d_bases.len();
    let half_len: u32 = (n / 2 + n % 2) as u32;
    let grid = grid_for(half_len);
    let grid_size = grid.grid_dim;
    let ghost points = paired(d_bases@, d_scalars@.len());
    let ghost f = binary_term(d_scalars@, d_bases@);
    let ghost sums = |b: int| block_sum(d_scalars@.len(), grid, b, f);
    proof {
        if d_scalars@.len() <= d_bases@.len() {
            lemma_strides_fit(d_scalars@.len(), grid.threads());
        }
    }
    let ghost first = d_partial_sums@;
    msm_binary_kernel(d_scalars, d_bases, d_partial_sums, grid);
    let ghost launched = d_partial_sums@;
    let ghost blocks = d_partial_sums@.take(grid_size as int);
    let num_threads = rayon::current_num_threads();
    let sum = if host_can_sum(grid_size, num_threads) {
        let (d_sums, _) = d_partial_sums.split_at(grid_size as usize);
        assert(d_sums@ =~= blocks);
        sum_on_host(d_sums)
    } else {
        reduce_passes(d_partial_sums, grid_size, true)
    };
    proof {
        lemma_scratch(first, launched, d_partial_sums@, grid_size as nat, true);
        assert(d_partial_sums@.take(grid_size as int) =~= blocks);
        assert forall|b: int| 0 <= b < grid_size implies #[trigger] d_partial_sums@[b]
            == blocks[b] by {
            assert(d_partial_sums@.take(grid_size as int)[b] == d_partial_sums@[b]);
        }
        if binary_on_curve(d_scalars@, d_bases@) {
            lemma_sum_of_denoted(sum, blocks, sums);
            law_blocks_cover(d_scalars@.len(), grid, f);
            let values = binary_values(d_scalars@);
            let surplus = (d_scalars@.len() - points.len()) as nat;
            lemma_sum_split(points.len(), surplus, f);
            assert forall|i: int| 0 <= i < surplus implies #[trigger] f(points.len() + i) == 0 by {
                assert(d_scalars@[points.len() + i].vanishes());
                lemma_mul_basics(base_log(d_bases@[points.len() + i]));
            }
            lemma_sum_zero(surplus, |i: int| f(points.len() + i));
            lemma_sum_eq(points.len(), f, |i: int| values[i] * base_log(points[i]));
        }
    }
    sum
}

/// Multi-scalar multiplication by the coefficients zero and one: every coefficient that is
/// not zero counts as one.
pub fn msm_binary<C: CurveAffine, T: Coefficient>(scalars: &[T], bases: &[C]) -> (res: C::Curve)
    requires
        surplus_vanishes(scalars@, bases@.len()),
        0 < bases@.len() <= MAX_LEN,
        launch_fits(scalars@.len(), bases@.len()),
    ensures
        is_msm(res, binary_values(scalars@), paired(bases@, scalars@.len())),
{
    let n: usize = bases.len();
    let half_len: u32 = (n / 2 + n % 2) as u32;
    let grid = grid_for(half_len);
    proof {
        if n > 1 {
            lemma_pass_shrinks(n as nat);
        }
    }
    let mut d_partial_sums: Vec<C::Curve> = zero_points((grid.grid_dim * 2) as usize);
    msm_binary_gpu(scalars, bases, d_partial_sums.as_mut_slice())
}

/// Multi-scalar multiplication by field elements, in device buffers. Scalars beyond the last
/// base are left out. The buffer `d_partial_sums` takes a point for each base, and as many
/// more.
pub fn msm_gpu_inner<C: CurveAffine>(
    d_scalars: &[C::Scalar],
    d_bases: &[C],
    d_partial_sums: &mut [C::Curve],
) -> (res: C::Curve)
    requires
        d_bases@.len() <= d_scalars@.len(),
        0 < d_bases@.len(),
        2 * d_bases@.len() <= u32::MAX,
        old(d_partial_sums)@.len() == 2 * d_bases@.len(),
    ensures
        is_msm(res, field_values(d_scalars@.take(d_bases@.len() as int)), d_bases@),
        final(d_partial_sums)@.len() == old(d_partial_sums)@.len(),
        forall|i: int|
            0 <= i < d_bases@.len() ==> (is_product_defined(
                d_scalars@[i],
                d_bases@[i],
            ) ==> denotes(
                #[trigger] final(d_partial_sums)@[i],
                d_scalars@[i].value() * base_log(d_bases@[i]),
            )),
        is_scratch(old(d_partial_sums)@, final(d_partial_sums)@, d_bases@.len(), false),
{
    let result_size: u32 = d_bases.len() as u32;
    let grid = grid_for(result_size);
    let ghost n = d_bases@.len();
    let ghost values = field_values(d_scalars@.take(n as int));
    let ghost f = |i: int| values[i] * base_log(d_bases@[i]);
    let ghost first = d_partial_sums@;
    msm_kernel(d_scalars, d_bases, d_partial_sums, grid);
    let ghost launched = d_partial_sums@;
    let ghost products = d_partial_sums@.take(n as int);
    let num_threads = rayon::current_num_threads();
    let sum = if host_can_sum(result_size, num_threads) && result_size > 1 {
        let (d_sums, _) = d_partial_sums.split_at(result_size as usize);
        assert(d_sums@ =~= products);
        sum_on_host(d_sums)
    } else {
        reduce_passes(d_partial_sums, result_size, false)
    };
    proof {
        lemma_scratch(first, launched, d_partial_sums@, n, false);
        assert(d_partial_sums@.take(n as int) =~= products);
        assert forall|i: int| 0 <= i < n implies #[trigger] d_partial_sums@[i] == products[i] by {
            assert(d_partial_sums@.take(n as int)[i] == d_partial_sums@[i]);
        }
        if on_curve(values, d_bases@) {
            assert forall|i: int| 0 <= i < n implies denotes(#[trigger] products[i], f(i)) by {
                assert(values[i] != 0 ==> d_bases@[i].log() is Some);
            }
            lemma_sum_of_denoted(sum, products, f);
        }
    }
    sum
}

/// Multi-scalar multiplication by field elements.
pub fn msm_gpu<C: CurveAffine>(coeffs: &[C::Scalar], bases: &[C]) -> (res: C::Curve)
    requires
        coeffs@.len() == bases@.len(),
        0 < bases@.len(),
        2 * bases@.len() <= u32::MAX,
    ensures
        is_msm(res, field_values(coeffs@), bases@),
{
    let mut d_partial_sums: Vec<C::Curve> = zero_points(bases.len() * 2);
    assert(coeffs@.take(bases@.len() as int) =~= coeffs@);
    msm_gpu_inner(coeffs, bases, d_partial_sums.as_mut_slice())
}

/// A grid gives each piece of work a thread: no block is wider than `256` threads or than the
/// work, and with one block less some work would be left over.
pub proof fn law_grids(items: nat)
    requires
        0 < items <= u32::MAX,
    ensures
        items <= 256 ==> grid_of(items).block_dim == items,
        items >= 256 ==> grid_of(items).block_dim == 256,
        (grid_of(items).grid_dim - 1) * grid_of(items).block_dim < items,
        items <= grid_of(items).grid_dim * grid_of(items).block_dim,
        block_width(items) == grid_of(items).block_dim,
        block_count(items) == grid_of(items).grid_dim,
{
    let width = block_width(items) as int;
    let q = (items - 1) / width;
    lemma_fundamental_div_mod(items - 1, width);
    lemma_mod_bound(items - 1, width);
    lemma_div_pos_is_pos(items - 1, width);
    assert((q + 1) * width == width * q + width) by (nonlinear_arith);
    assert(q * width == width * q) by (nonlinear_arith);
    assert(q <= items - 1) by (nonlinear_arith)
        requires
            width * q <= items - 1,
            width >= 1,
            q >= 0,
    ;
}

/// A kernel takes as many points as it can without twice the number of its threads leaving a
/// word: the next point would make it leave.
pub proof fn law_longest_row()
    ensures
        MAX_LEN == 4_294_966_784,
        2 * grid_of(half_up(MAX_LEN as nat)).threads() <= u32::MAX,
        2 * grid_of(half_up(MAX_LEN as nat + 1)).threads() > u32::MAX,
{
    let last = grid_of(half_up(MAX_LEN as nat));
    let next = grid_of(half_up(MAX_LEN as nat + 1));
    law_grids(half_up(MAX_LEN as nat));
    law_grids(half_up(MAX_LEN as nat + 1));
    assert((last.grid_dim - 1) * last.block_dim == (last.grid_dim - 1) * 256);
    assert(last.grid_dim == 8_388_607);
    assert((next.grid_dim - 1) * next.block_dim == (next.grid_dim - 1) * 256);
    assert(next.grid_dim == 8_388_608);
}

/// Half of a number, rounded up.
pub proof fn law_halves(len: nat)
    ensures
        len <= 2 * half_up(len) <= len + 1,
{
}

/// The lengths of the passes: each thread starts with two points, every block leaves one, and
/// the sums stand above the points that were read, or above the last pair of them.
pub proof fn law_passes(len: nat, even: bool)
    requires
        1 < len <= u32::MAX,
    ensures
        len <= 2 * half_up(len) <= len + 1,
        len_after_pass(len) == grid_of(half_up(len)).grid_dim,
        !even ==> reach(len, even) == len,
        even ==> len <= reach(len, even) <= len + 1,
        even ==> reach(len, even) % 2 == 0,
        room(0, even) == 0,
        room(1, even) == 1,
        room(len, even) == reach(len, even) + room(len_after_pass(len), even),
{
    lemma_pass_shrinks(len);
    law_grids(half_up(len));
}

/// What the passes make of a buffer, place by place: nothing changes between the points and the
/// sums of the first pass, nothing above the last sum, the sums are those of the blocks, and the
/// next pass starts from them.
pub proof fn law_passes_done<G: CurveGroup>(
    before: Seq<G>,
    after: Seq<G>,
    start: int,
    len: nat,
    even: bool,
    i: int,
)
    requires
        0 <= start,
        0 < len,
        before.len() == after.len(),
        start + room(len, even) <= after.len(),
        passes_done(before, after, start, len, even),
    ensures
        len > 1 && start + len <= i < start + reach(len, even) ==> after[i] == before[i],
        start + room(len, even) <= i < after.len() ==> after[i] == before[i],
        len > 1 && 0 <= i < len_after_pass(len) && in_group(after.subrange(start, start + len))
            ==> denotes(
            after[start + reach(len, even) + i],
            block_sum(
                len,
                grid_of(half_up(len)),
                i,
                input_term::<G, G>(after.subrange(start, start + len)),
            ),
        ),
        len > 1 ==> passes_done(
            before,
            after,
            start + reach(len, even),
            len_after_pass(len),
            even,
        ),
    decreases len,
{
    law_room_suffices(len, even);
    if len <= 1 {
        if start + len <= i < after.len() {
            assert(after[i] == after.skip(start + len)[i - start - len]);
            assert(before[i] == before.skip(start + len)[i - start - len]);
        }
    } else {
        let target = start + reach(len, even);
        lemma_pass_shrinks(len);
        law_room_suffices(len_after_pass(len), even);
        law_passes_done(before, after, target, len_after_pass(len), even, i);
        let inputs = after.subrange(start, start + len);
        if start + len <= i < target {
            assert(after[i] == after.subrange(start + len, target)[i - start - len]);
            assert(before[i] == before.subrange(start + len, target)[i - start - len]);
        }
        if in_group(inputs) && 0 <= i < len_after_pass(len) {
            assert forall|j: int| 0 <= j < inputs.len() implies (
            #[trigger] inputs[j]).summand_log() is Some by {
                assert(inputs[j].log() is Some);
            }
            assert(all_summands::<G, G>(inputs));
            assert(after.skip(target)[i] == after[target + i]);
        }
    }
}

/// Above its first points a buffer is as it was, or what the passes make of it.
pub proof fn law_scratch<G: CurveGroup>(before: Seq<G>, after: Seq<G>, len: nat, even: bool)
    requires
        is_scratch(before, after, len, even),
        before.len() == after.len(),
    ensures
        (forall|i: int| len <= i < after.len() ==> #[trigger] after[i] == before[i])
            || passes_done(before, after, 0, len, even),
{
    if after.skip(len as int) == before.skip(len as int) {
        assert forall|i: int| len <= i < after.len() implies #[trigger] after[i] == before[i] by {
            assert(after[i] == after.skip(len as int)[i - len]);
            assert(before[i] == before.skip(len as int)[i - len]);
        }
    }
}

/// Which launches and reductions are taken.
pub proof fn law_launches(coeffs: nat, bases: nat, reduction: Reduction, size: nat)
    ensures
        coeffs <= bases ==> launch_fits(coeffs, bases),
        coeffs > bases ==> launch_fits(coeffs, bases) == (coeffs <= u32::MAX && strides_fit(
            coeffs,
            grid_of(half_up(bases)).threads(),
        )),
        reduction.fits(size) == (reduction.len > 0 && reduction.start + room(
            reduction.len as nat,
            reduction.even,
        ) <= size),
{
}

} // verus!
