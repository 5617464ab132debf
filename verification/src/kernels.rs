//! The kernels: what each thread of a grid computes, and what the grid computes together.
//!
//! A grid is `grid_dim` blocks of `block_dim` threads. The threads of a block share memory,
//! and meet at a barrier after each step in which they write to it; between two barriers no
//! thread reads what another one writes, so that the order in which they run does not matter.

use vstd::arithmetic::div_mod::*;
use vstd::arithmetic::mul::*;
use vstd::arithmetic::power2::*;
use vstd::bits::*;
use vstd::prelude::*;
use crate::buckets::points_hold;
use crate::curve::{
    add_bases, add_points, all_summands, base_log, binary_values, denotes, in_group, is_sum,
    lemma_base_stands, lemma_point_denotes, on_curve, paired, point_log, stands_for,
    surplus_vanishes, zero_point, Coefficient, CurveAffine, CurveGroup, FieldScalar, Summand,
};
use crate::digits::lemma_pow2_increases;
use crate::sums::{
    lemma_sum_add, lemma_sum_eq, lemma_sum_mod, lemma_sum_single, lemma_sum_split, lemma_sum_swap,
    lemma_sum_zero, sum,
};

verus! {

/// How many blocks a kernel runs in, and how many threads each of them has.
#[derive(Clone, Copy)]
pub struct Grid {
    /// The number of blocks.
    pub grid_dim: u32,
    /// The number of threads in a block.
    pub block_dim: u32,
}

impl Grid {
    /// The number of threads.
    pub open spec fn threads(self) -> nat {
        (self.grid_dim * self.block_dim) as nat
    }

    /// There are threads, the blocks are no larger than a device takes, and twice the number
    /// of threads fits in a word.
    pub open spec fn well_formed(self) -> bool {
        &&& self.grid_dim > 0
        &&& 0 < self.block_dim <= 1024
        &&& 2 * self.threads() <= u32::MAX
    }
}

/// The sum of `f` over the places below `n` that the thread `id` of `threads` goes to: every
/// `threads`-th one, from `id` on.
pub open spec fn thread_sum(n: nat, threads: nat, id: int, f: spec_fn(int) -> int) -> int {
    sum(
        n,
        |i: int|
            if i % (threads as int) == id {
                f(i)
            } else {
                0
            },
    )
}

/// The sum of `f` over the places below `n` that the threads of the block `b` go to.
pub open spec fn block_sum(n: nat, grid: Grid, b: int, f: spec_fn(int) -> int) -> int {
    sum(
        n,
        |i: int|
            if i % (grid.threads() as int) / (grid.block_dim as int) == b {
                f(i)
            } else {
                0
            },
    )
}

/// No thread steps over the end of a word: each place that a thread starts a step at, and the
/// place `threads` above it, are words.
pub open spec fn strides_fit(n: nat, threads: nat) -> bool {
    forall|i: int|
        0 <= i < n && #[trigger] (i % (2 * threads as int)) < threads ==> i + threads <= u32::MAX
}

/// Tells whether `threads` threads step over `n` places without leaving a word.
pub fn steps_fit(n: u32, threads: u32) -> (res: bool)
    requires
        0 < threads,
        2 * threads <= u32::MAX,
    ensures
        res == strides_fit(n as nat, threads as nat),
{
    if n == 0 {
        return true;
    }
    // The last place below `n` that a step starts at.
    let grid_size: u32 = 2 * threads;
    let r: u32 = (n - 1) % grid_size;
    proof {
        lemma_mod_decreases((n - 1) as nat, grid_size as nat);
    }
    let top: u32 = if r < threads {
        n - 1
    } else {
        n - 1 - r + (threads - 1)
    };
    proof {
        let period = 2 * threads as int;
        let q = (n - 1) / period;
        lemma_fundamental_div_mod(n - 1, period);
        lemma_mul_is_commutative(period, q);
        if r >= threads {
            lemma_fundamental_div_mod_converse(top as int, period, q, threads - 1);
        }
        assert(top as int % period < threads);
        assert forall|i: int|
            0 <= i < n && #[trigger] (i % (2 * threads as int)) < threads implies i <= top by {
            if i > top {
                lemma_fundamental_div_mod_converse(i, period, q, i - q * period);
            }
        }
    }
    top <= u32::MAX - threads
}

/// A thread goes nowhere between two places that are `threads` apart.
proof fn lemma_thread_gap(a: nat, b: nat, threads: nat, id: int, f: spec_fn(int) -> int)
    requires
        threads > 0,
        a <= b,
        forall|j: int| a <= j < b ==> #[trigger] (j % (threads as int)) != id,
    ensures
        thread_sum(a, threads, id, f) == thread_sum(b, threads, id, f),
    decreases b - a,
{
    if a < b {
        let k = (b - 1) as nat;
        lemma_thread_gap(a, k, threads, id, f);
        assert(k as int % (threads as int) != id);
    }
}

/// From a place of its own on, a thread goes to that place and to none of the next ones.
proof fn lemma_thread_step(
    i: nat,
    end: nat,
    threads: nat,
    id: int,
    f: spec_fn(int) -> int,
)
    requires
        threads > 0,
        i as int % (threads as int) == id,
        i < end <= i + threads,
    ensures
        thread_sum(end, threads, id, f) == thread_sum(i, threads, id, f) + f(i as int),
{
    assert forall|j: int| i + 1 <= j < end implies #[trigger] (j % (threads as int)) != id by {
        lemma_fundamental_div_mod(i as int, threads as int);
        let q = i as int / (threads as int);
        let d = j - i;
        if id + d < threads {
            lemma_mul_is_commutative(threads as int, q);
            lemma_fundamental_div_mod_converse(j, threads as int, q, id + d);
        } else {
            assert((q + 1) * threads == q * threads + threads) by (nonlinear_arith);
            lemma_mul_is_commutative(threads as int, q);
            lemma_fundamental_div_mod_converse(j, threads as int, q + 1, id + d - threads);
        }
    }
    lemma_thread_gap(i + 1, end, threads, id, f);
}

/// Before its first place a thread has summed nothing.
proof fn lemma_thread_start(end: nat, threads: nat, id: int, f: spec_fn(int) -> int)
    requires
        threads > 0,
        end <= id < threads,
    ensures
        thread_sum(end, threads, id, f) == 0,
{
    assert forall|j: int| 0 <= j < end implies #[trigger] (j % (threads as int)) != id by {
        lemma_small_mod(j as nat, threads);
    }
    lemma_thread_gap(0, end, threads, id, f);
}

/// What a thread sums in one step: a place of its own, and the place `threads` above it.
proof fn lemma_thread_pair(
    n: nat,
    i: nat,
    threads: nat,
    id: int,
    f: spec_fn(int) -> int,
)
    requires
        threads > 0,
        i as int % (threads as int) == id,
        i < n,
    ensures
        i + threads >= n ==> thread_sum(n, threads, id, f) == thread_sum(i, threads, id, f) + f(
            i as int,
        ),
        i + threads < n <= i + 2 * threads ==> thread_sum(n, threads, id, f) == thread_sum(
            i,
            threads,
            id,
            f,
        ) + f(i as int) + f(i as int + threads),
        i + 2 * threads < n ==> thread_sum((i + 2 * threads) as nat, threads, id, f)
            == thread_sum(i, threads, id, f) + f(i as int) + f(i as int + threads),
        (i as int + 2 * threads) % (threads as int) == id,
{
    lemma_mod_add_multiples_vanish(i as int, threads as int);
    lemma_mod_add_multiples_vanish(i as int + threads, threads as int);
    if i + threads >= n {
        lemma_thread_step(i, n, threads, id, f);
    } else {
        lemma_thread_step(i, i + threads, threads, id, f);
        if n <= i + 2 * threads {
            lemma_thread_step(i + threads, n, threads, id, f);
        } else {
            lemma_thread_step(i + threads, (i + 2 * threads) as nat, threads, id, f);
        }
    }
}

/// The threads of a block go together where the block goes.
proof fn lemma_block_of_threads(n: nat, grid: Grid, b: int, f: spec_fn(int) -> int)
    requires
        grid.well_formed(),
        0 <= b < grid.grid_dim,
    ensures
        sum(
            grid.block_dim as nat,
            |t: int| thread_sum(n, grid.threads(), t + grid.block_dim * b, f),
        ) == block_sum(n, grid, b, f),
{
    let threads = grid.threads() as int;
    let width = grid.block_dim as int;
    let h = |t: int, i: int|
        if i % threads == t + width * b {
            f(i)
        } else {
            0
        };
    let rows = |t: int| thread_sum(n, grid.threads(), t + grid.block_dim * b, f);
    lemma_sum_swap(width as nat, n, h);
    assert forall|t: int| 0 <= t < width implies #[trigger] rows(t) == sum(
        n,
        |i: int| h(t, i),
    ) by {
        lemma_sum_eq(
            n,
            |i: int|
                if i % threads == t + grid.block_dim * b {
                    f(i)
                } else {
                    0
                },
            |i: int| h(t, i),
        );
    }
    lemma_sum_eq(width as nat, rows, |t: int| sum(n, |i: int| h(t, i)));
    let columns = |i: int| sum(width as nat, |t: int| h(t, i));
    let whole = |i: int|
        if i % threads / width == b {
            f(i)
        } else {
            0
        };
    assert(threads > 0) by (nonlinear_arith)
        requires
            threads == grid.grid_dim * grid.block_dim,
            grid.grid_dim > 0,
            grid.block_dim > 0,
    ;
    assert forall|i: int| 0 <= i < n implies #[trigger] columns(i) == whole(i) by {
        let r = i % threads;
        let at = r - width * b;
        let column = |t: int| h(t, i);
        lemma_mod_bound(i, threads);
        if 0 <= at < width {
            lemma_mul_is_commutative(width, b);
            lemma_fundamental_div_mod_converse(r, width, b, at);
            lemma_sum_single(width as nat, at, column);
        } else {
            if r / width == b {
                lemma_fundamental_div_mod(r, width);
                lemma_mod_bound(r, width);
            }
            lemma_sum_zero(width as nat, column);
        }
    }
    lemma_sum_eq(n, columns, whole);
}

/// The blocks of a grid go together to every place once.
pub proof fn law_blocks_cover(n: nat, grid: Grid, f: spec_fn(int) -> int)
    requires
        grid.well_formed(),
    ensures
        sum(grid.grid_dim as nat, |b: int| block_sum(n, grid, b, f)) == sum(n, f),
{
    let threads = grid.threads() as int;
    let width = grid.block_dim as int;
    let count = grid.grid_dim as nat;
    let h = |b: int, i: int|
        if i % threads / width == b {
            f(i)
        } else {
            0
        };
    lemma_sum_swap(count, n, h);
    let rows = |b: int| block_sum(n, grid, b, f);
    assert forall|b: int| 0 <= b < count implies #[trigger] rows(b) == sum(
        n,
        |i: int| h(b, i),
    ) by {
        lemma_sum_eq(
            n,
            |i: int|
                if i % threads / width == b {
                    f(i)
                } else {
                    0
                },
            |i: int| h(b, i),
        );
    }
    lemma_sum_eq(count, rows, |b: int| sum(n, |i: int| h(b, i)));
    let columns = |i: int| sum(count, |b: int| h(b, i));
    assert(threads > 0) by (nonlinear_arith)
        requires
            threads == grid.grid_dim * grid.block_dim,
            grid.grid_dim > 0,
            grid.block_dim > 0,
    ;
    assert forall|i: int| 0 <= i < n implies #[trigger] columns(i) == f(i) by {
        let r = i % threads;
        let at = r / width;
        lemma_mod_bound(i, threads);
        lemma_div_pos_is_pos(r, width);
        lemma_mul_is_commutative(count as int, width);
        lemma_multiply_divide_lt(r, width, count as int);
        lemma_sum_single(count, at, |b: int| h(b, i));
    }
    lemma_sum_eq(n, columns, f);
}

/// What is in shared memory after the thread `tid` has added what is `stride` above its own
/// place to its own, where there is something.
pub open spec fn folded(b: Seq<int>, tid: int, stride: int) -> Seq<int> {
    if tid + stride < b.len() {
        b.update(tid, b[tid] + b[tid + stride])
    } else {
        b
    }
}

/// Between two barriers the order of the threads does not matter: whichever of two threads
/// goes first, the same is in shared memory after both.
pub proof fn law_threads_commute(b: Seq<int>, s: int, t: int, stride: int)
    requires
        0 <= s < stride,
        0 <= t < stride,
        s != t,
    ensures
        folded(folded(b, s, stride), t, stride) == folded(folded(b, t, stride), s, stride),
{
    assert(folded(folded(b, s, stride), t, stride) =~= folded(folded(b, t, stride), s, stride));
}

/// Where in shared memory the point stands that the thread `tid` of a block of `block_dim`
/// threads adds to its own, in the round of the given stride; `None` where it adds nothing.
pub fn fold_partner(tid: u32, stride: u32, block_dim: u32) -> (res: Option<u32>)
    ensures
        res == (if tid < stride && tid + stride < block_dim {
            Some((tid + stride) as u32)
        } else {
            None::<u32>
        }),
{
    if tid < stride && stride < block_dim && tid < block_dim - stride {
        Some(tid + stride)
    } else {
        None
    }
}

/// What one thread does between two barriers: it adds the point `stride` above its own to its
/// own, where there is one.
fn fold_step<G: CurveGroup>(
    smem: &mut Vec<G>,
    tid: u32,
    stride: u32,
    Ghost(ok): Ghost<bool>,
    Ghost(b): Ghost<Seq<int>>,
)
    requires
        tid < stride < old(smem)@.len() <= 1024,
        ok ==> points_hold(old(smem)@, b),
    ensures
        final(smem)@.len() == old(smem)@.len(),
        ok ==> points_hold(final(smem)@, folded(b, tid as int, stride as int)),
{
    if let Some(partner) = fold_partner(tid, stride, smem.len() as u32) {
        let sum = add_points(smem[tid as usize], smem[partner as usize]);
        proof {
            if ok {
                assert(denotes(smem@[tid as int], b[tid as int]));
                assert(denotes(smem@[tid + stride], b[tid + stride]));
            }
        }
        smem.set(tid as usize, sum);
    }
}

/// After every thread below `stride` has made its step, the first `stride` points have the
/// sum that the first `live` ones had.
proof fn lemma_fold(before: Seq<int>, after: Seq<int>, stride: nat, live: nat)
    requires
        stride <= live <= before.len(),
        live <= 2 * stride,
        before.len() == after.len(),
        forall|t: int|
            0 <= t < stride ==> #[trigger] after[t] == before[t] + (if t + stride < live {
                before[t + stride]
            } else {
                0
            }),
    ensures
        sum(stride, |t: int| after[t]) == sum(live, |t: int| before[t]),
{
    let moved = (live - stride) as nat;
    let rest = (stride - moved) as nat;
    let f = |t: int| before[t];
    let g = |t: int|
        if t + stride < live {
            before[t + stride]
        } else {
            0
        };
    lemma_sum_split(stride, moved, f);
    lemma_sum_split(moved, rest, g);
    lemma_sum_eq(moved, g, |t: int| f(stride + t));
    lemma_sum_zero(rest, |t: int| g(moved + t));
    lemma_sum_add(stride, f, g);
    lemma_sum_eq(stride, |t: int| after[t], |t: int| f(t) + g(t));
}

/// What a block does with its shared memory: in each round the upper half of what is left is
/// added to the lower half, until the first point is the sum of all.
fn reduce_block<G: CurveGroup>(smem: &mut Vec<G>)
    requires
        0 < old(smem)@.len() <= 1024,
    ensures
        final(smem)@.len() == old(smem)@.len(),
        is_sum(final(smem)@[0], old(smem)@),
{
    let ghost ok = in_group(smem@);
    let ghost start = smem@;
    let ghost logs = Seq::new(smem@.len(), |i: int| point_log(smem@[i]));
    let ghost mut held = logs;
    let block_dim: usize = smem.len();
    proof {
        if ok {
            assert forall|i: int| 0 <= i < held.len() implies denotes(
                #[trigger] smem@[i],
                held[i],
            ) by {
                lemma_point_denotes(smem@[i]);
            }
        }
    }
    let ghost mut live = block_dim as nat;
    let mut order: u32 = 10;
    proof {
        lemma2_to64();
    }
    while order > 0
        invariant
            order <= 10,
            0 < block_dim <= 1024,
            smem@.len() == block_dim,
            held.len() == block_dim,
            logs.len() == block_dim,
            0 < live <= block_dim,
            live <= pow2(order as nat),
            live < block_dim ==> live == pow2(order as nat),
            ok ==> points_hold(smem@, held),
            sum(live, |t: int| held[t]) == sum(block_dim as nat, |t: int| logs[t]),
        decreases order,
    {
        order -= 1;
        proof {
            lemma_pow2_pos(order as nat);
            lemma_pow2_unfold((order + 1) as nat);
            lemma_pow2_increases(order as nat, 10);
            lemma2_to64();
            lemma_u32_shl_is_mul(1, order);
            lemma_u32_pow2_no_overflow(order as nat);
        }
        let stride: u32 = 1u32 << order;
        if (stride as usize) < block_dim {
            let ghost before = held;
            let mut tid: u32 = 0;
            while tid < stride
                invariant
                    tid <= stride < block_dim <= 1024,
                    smem@.len() == block_dim,
                    held.len() == block_dim,
                    before.len() == block_dim,
                    ok ==> points_hold(smem@, held),
                    forall|t: int|
                        0 <= t < tid ==> #[trigger] held[t] == before[t] + (if t + stride
                            < block_dim {
                            before[t + stride]
                        } else {
                            0
                        }),
                    forall|t: int| tid <= t < block_dim ==> #[trigger] held[t] == before[t],
                decreases stride - tid,
            {
                fold_step(smem, tid, stride, Ghost(ok), Ghost(held));
                proof {
                    held = folded(held, tid as int, stride as int);
                }
                tid += 1;
            }
            proof {
                assert(live >= stride);
                lemma_fold(before, held, stride as nat, live);
                live = stride as nat;
            }
        }
    }
    proof {
        lemma2_to64();
        assert(live == 1);
        reveal_with_fuel(sum, 2);
        if ok {
            assert(denotes(smem@[0], held[0]));
            lemma_sum_eq(
                block_dim as nat,
                |t: int| logs[t],
                |i: int| point_log(start[i]),
            );
        }
    }
}

/// A row of terms that the threads of a grid sum.
trait Row<G: CurveGroup>: Sized {
    /// Every term can be read.
    spec fn readable(&self) -> bool;

    /// The number of terms.
    spec fn size(&self) -> nat;

    /// Every term that counts is read from a point of the group.
    spec fn sound(&self) -> bool;

    /// The logarithms of the terms.
    spec fn terms(&self) -> spec_fn(int) -> int;

    /// The number of terms.
    fn len(&self) -> (res: usize)
        ensures
            res == self.size(),
    ;

    /// The sum of the terms in two places, of which the second may be beyond the last term.
    fn pair(&self, i: u32, above: u32) -> (res: G)
        requires
            self.readable(),
            i < self.size(),
        ensures
            self.sound() ==> denotes(
                res,
                self.terms()(i as int) + (if above < self.size() {
                    self.terms()(above as int)
                } else {
                    0
                }),
            ),
    ;
}

/// What one thread sums before the first barrier: two terms in each step, `threads` apart.
fn sum_thread<G: CurveGroup, R: Row<G>>(row: &R, id: u32, threads: u32) -> (res: G)
    requires
        row.readable(),
        row.size() <= u32::MAX,
        id < threads,
        2 * threads <= u32::MAX,
        strides_fit(row.size(), threads as nat),
    ensures
        row.sound() ==> denotes(
            res,
            thread_sum(row.size(), threads as nat, id as int, row.terms()),
        ),
{
    let ghost ok = row.sound();
    let ghost n = row.size();
    let ghost f = row.terms();
    let len: u32 = row.len() as u32;
    let grid_size: u32 = threads * 2;
    let mut local_sum: G = zero_point();
    let mut i: u32 = id;
    let mut more: bool = id < len;
    proof {
        lemma_small_mod(id as nat, threads as nat);
        lemma_small_mod(id as nat, grid_size as nat);
        if id < len {
            lemma_thread_start(id as nat, threads as nat, id as int, f);
        } else {
            lemma_thread_start(n, threads as nat, id as int, f);
        }
    }
    while more
        invariant
            row.readable(),
            n == row.size(),
            n == len,
            ok == row.sound(),
            f == row.terms(),
            id < threads,
            grid_size == 2 * threads,
            strides_fit(n, threads as nat),
            more ==> i < n,
            more ==> i as int % (threads as int) == id,
            more ==> i as int % (2 * threads as int) == id,
            more ==> (ok ==> denotes(
                local_sum,
                thread_sum(i as nat, threads as nat, id as int, f),
            )),
            !more ==> (ok ==> denotes(local_sum, thread_sum(n, threads as nat, id as int, f))),
        decreases
                if more {
                    n - i + 1
                } else {
                    0
                },
    {
        assert(i + threads <= u32::MAX);
        let pair = row.pair(i, i + threads);
        local_sum = add_points(local_sum, pair);
        proof {
            lemma_thread_pair(n, i as nat, threads as nat, id as int, f);
        }
        if len - i > grid_size {
            proof {
                lemma_mod_add_multiples_vanish(i as int, grid_size as int);
            }
            i += grid_size;
        } else {
            more = false;
        }
    }
    local_sum
}

/// What a grid does with a row: each thread sums its terms, each block what its threads have
/// summed.
fn sum_blocks<G: CurveGroup, R: Row<G>>(row: &R, partial_sums: &mut [G], grid: Grid)
    requires
        row.readable(),
        grid.well_formed(),
        row.size() <= u32::MAX,
        strides_fit(row.size(), grid.threads()),
        grid.grid_dim <= old(partial_sums)@.len(),
    ensures
        final(partial_sums)@.len() == old(partial_sums)@.len(),
        forall|b: int|
            0 <= b < grid.grid_dim ==> (row.sound() ==> denotes(
                #[trigger] final(partial_sums)@[b],
                block_sum(row.size(), grid, b, row.terms()),
            )),
        forall|b: int|
            grid.grid_dim <= b < old(partial_sums)@.len() ==> #[trigger] final(partial_sums)@[b]
                == old(partial_sums)@[b],
{
    let ghost ok = row.sound();
    let ghost n = row.size();
    let ghost f = row.terms();
    let ghost first = partial_sums@;
    proof {
        lemma_mul_is_commutative(grid.grid_dim as int, grid.block_dim as int);
    }
    let threads: u32 = grid.block_dim * grid.grid_dim;
    let mut block_id: u32 = 0;
    while block_id < grid.grid_dim
        invariant
            row.readable(),
            grid.well_formed(),
            threads == grid.threads(),
            n == row.size(),
            n <= u32::MAX,
            strides_fit(n, threads as nat),
            ok == row.sound(),
            f == row.terms(),
            block_id <= grid.grid_dim <= first.len(),
            partial_sums@.len() == first.len(),
            forall|b: int|
                0 <= b < block_id ==> (ok ==> denotes(
                    #[trigger] partial_sums@[b],
                    block_sum(n, grid, b, f),
                )),
            forall|b: int|
                grid.grid_dim <= b < first.len() ==> #[trigger] partial_sums@[b] == first[b],
        decreases grid.grid_dim - block_id,
    {
        let mut smem: Vec<G> = Vec::new();
        let mut tid: u32 = 0;
        let ghost sums = |t: int| thread_sum(n, threads as nat, t + grid.block_dim * block_id, f);
        proof {
            lemma_mul_inequality(block_id + 1, grid.grid_dim as int, grid.block_dim as int);
            assert((block_id + 1) * grid.block_dim == grid.block_dim * block_id + grid.block_dim)
                by (nonlinear_arith);
            lemma_mul_nonnegative(grid.block_dim as int, block_id as int);
        }
        while tid < grid.block_dim
            invariant
                row.readable(),
                grid.well_formed(),
                threads == grid.threads(),
                n == row.size(),
                n <= u32::MAX,
                strides_fit(n, threads as nat),
                ok == row.sound(),
                f == row.terms(),
                sums == (|t: int|
                    thread_sum(n, threads as nat, t + grid.block_dim * block_id, f)),
                0 <= grid.block_dim * block_id,
                grid.block_dim * block_id + grid.block_dim <= threads,
                tid <= grid.block_dim,
                smem@.len() == tid,
                forall|t: int| 0 <= t < tid ==> (ok ==> denotes(#[trigger] smem@[t], sums(t))),
            decreases grid.block_dim - tid,
        {
            smem.push(sum_thread(row, tid + grid.block_dim * block_id, threads));
            tid += 1;
        }
        let ghost shared = smem@;
        reduce_block(&mut smem);
        partial_sums[block_id as usize] = smem[0];
        proof {
            if ok {
                lemma_sum_of_denoted(smem@[0], shared, sums);
                lemma_block_of_threads(n, grid, block_id as int, f);
            }
        }
        block_id += 1;
    }
}

/// The sum of points denotes the sum of what they denote.
pub proof fn lemma_sum_of_denoted<G: CurveGroup>(
    res: G,
    points: Seq<G>,
    x: spec_fn(int) -> int,
)
    requires
        is_sum(res, points),
        forall|i: int| 0 <= i < points.len() ==> denotes(#[trigger] points[i], x(i)),
    ensures
        denotes(res, sum(points.len(), x)),
{
    G::order_is_positive();
    let f = |i: int| point_log(points[i]);
    assert forall|i: int| 0 <= i < points.len() implies #[trigger] f(i) % G::order() == x(i)
        % G::order() by {
        assert(denotes(points[i], x(i)));
        lemma_mod_twice(x(i), G::order());
    }
    lemma_sum_mod(points.len(), f, x, G::order());
}

/// The summands of the binary multiplication.
pub open spec fn binary_term<C: CurveAffine, T: Coefficient>(
    scalars: Seq<T>,
    bases: Seq<C>,
) -> spec_fn(int) -> int {
    |i: int| binary_values(scalars)[i] * base_log(bases[i])
}

/// Every base whose coefficient is not zero is a point of the group.
pub open spec fn binary_on_curve<C: CurveAffine, T: Coefficient>(
    scalars: Seq<T>,
    bases: Seq<C>,
) -> bool {
    on_curve(binary_values(scalars), paired(bases, scalars.len()))
}

/// The bases whose coefficient is not zero.
struct BinaryRow<'a, C: CurveAffine, T: Coefficient> {
    scalars: &'a [T],
    bases: &'a [C],
}

impl<'a, C: CurveAffine, T: Coefficient> BinaryRow<'a, C, T> {
    /// The base in the place `idx`, where there is one whose coefficient is not zero, and the
    /// neutral point elsewhere.
    fn get_data(&self, idx: u32) -> (res: C)
        requires
            self.readable(),
        ensures
            self.sound() && idx < self.size() ==> stands_for(res, self.terms()(idx as int)),
            idx >= self.size() ==> stands_for(res, 0),
    {
        if (idx as usize) < self.scalars.len() && !self.scalars[idx as usize].is_zero() {
            proof {
                let points = paired(self.bases@, self.scalars@.len());
                if self.sound() {
                    assert(binary_values(self.scalars@)[idx as int] == 1);
                    assert(points[idx as int].log() is Some);
                    lemma_base_stands(self.bases@[idx as int]);
                }
            }
            self.bases[idx as usize]
        } else {
            proof {
                C::Curve::order_is_positive();
                lemma_small_mod(0, C::Curve::order() as nat);
                lemma_mul_basics(base_log(self.bases@[idx as int]));
            }
            C::identity()
        }
    }
}

impl<'a, C: CurveAffine, T: Coefficient> Row<C::Curve> for BinaryRow<'a, C, T> {
    spec fn readable(&self) -> bool {
        surplus_vanishes(self.scalars@, self.bases@.len())
    }

    spec fn size(&self) -> nat {
        self.scalars@.len()
    }

    spec fn sound(&self) -> bool {
        binary_on_curve(self.scalars@, self.bases@)
    }

    spec fn terms(&self) -> spec_fn(int) -> int {
        binary_term(self.scalars@, self.bases@)
    }

    fn len(&self) -> (res: usize) {
        self.scalars.len()
    }

    fn pair(&self, i: u32, above: u32) -> (res: C::Curve) {
        let first = self.get_data(i);
        let second = self.get_data(above);
        add_bases(first, second)
    }
}

/// What one thread sums before the first barrier: two bases in each step, `threads` apart.
pub fn binary_thread<C: CurveAffine, T: Coefficient>(
    scalars: &[T],
    bases: &[C],
    id: u32,
    threads: u32,
) -> (res: C::Curve)
    requires
        surplus_vanishes(scalars@, bases@.len()),
        scalars@.len() <= u32::MAX,
        id < threads,
        2 * threads <= u32::MAX,
        strides_fit(scalars@.len(), threads as nat),
    ensures
        binary_on_curve(scalars@, bases@) ==> denotes(
            res,
            thread_sum(
                scalars@.len(),
                threads as nat,
                id as int,
                binary_term(scalars@, bases@),
            ),
        ),
{
    sum_thread(&BinaryRow { scalars, bases }, id, threads)
}

/// The kernel of the binary multiplication: block by block, the sum of the bases whose
/// coefficient is not zero.
pub fn msm_binary_kernel<C: CurveAffine, T: Coefficient>(
    scalars: &[T],
    bases: &[C],
    partial_sums: &mut [C::Curve],
    grid: Grid,
)
    requires
        grid.well_formed(),
        surplus_vanishes(scalars@, bases@.len()),
        scalars@.len() <= u32::MAX,
        strides_fit(scalars@.len(), grid.threads()),
        grid.grid_dim <= old(partial_sums)@.len(),
    ensures
        final(partial_sums)@.len() == old(partial_sums)@.len(),
        forall|b: int|
            0 <= b < grid.grid_dim ==> (binary_on_curve(scalars@, bases@) ==> denotes(
                #[trigger] final(partial_sums)@[b],
                block_sum(scalars@.len(), grid, b, binary_term(scalars@, bases@)),
            )),
        forall|b: int|
            grid.grid_dim <= b < old(partial_sums)@.len() ==> #[trigger] final(partial_sums)@[b]
                == old(partial_sums)@[b],
{
    sum_blocks(&BinaryRow { scalars, bases }, partial_sums, grid)
}

/// The logarithms of the inputs.
pub open spec fn input_term<G: CurveGroup, C: Summand<G>>(inputs: Seq<C>) -> spec_fn(int) -> int {
    |i: int| inputs[i].summand_log()->0
}

/// The points that a reduction sums.
struct InputRow<'a, C> {
    inputs: &'a [C],
}

impl<'a, C: Summand<C2>, C2: CurveGroup> Row<C2> for InputRow<'a, C> {
    spec fn readable(&self) -> bool {
        true
    }

    spec fn size(&self) -> nat {
        self.inputs@.len()
    }

    spec fn sound(&self) -> bool {
        all_summands::<C2, C>(self.inputs@)
    }

    spec fn terms(&self) -> spec_fn(int) -> int {
        input_term::<C2, C>(self.inputs@)
    }

    fn len(&self) -> (res: usize) {
        self.inputs.len()
    }

    fn pair(&self, i: u32, above: u32) -> (res: C2) {
        let first = self.inputs[i as usize];
        proof {
            if all_summands::<C2, C>(self.inputs@) {
                assert(self.inputs@[i as int].summand_log() is Some);
                first.summand_log_is_reduced();
                lemma_small_mod((first.summand_log()->0) as nat, C2::order() as nat);
                if above < self.inputs@.len() {
                    assert(self.inputs@[above as int].summand_log() is Some);
                }
            }
        }
        if (above as usize) < self.inputs.len() {
            first.sum_with(self.inputs[above as usize])
        } else {
            first.alone()
        }
    }
}

/// What one thread sums before the first barrier: two inputs in each step, `threads` apart.
pub fn reduce_thread<C: Summand<C2>, C2: CurveGroup>(
    inputs: &[C],
    id: u32,
    threads: u32,
) -> (res: C2)
    requires
        inputs@.len() <= u32::MAX,
        id < threads,
        2 * threads <= u32::MAX,
        strides_fit(inputs@.len(), threads as nat),
    ensures
        all_summands::<C2, C>(inputs@) ==> denotes(
            res,
            thread_sum(
                inputs@.len(),
                threads as nat,
                id as int,
                input_term::<C2, C>(inputs@),
            ),
        ),
{
    sum_thread(&InputRow { inputs }, id, threads)
}

/// The kernel of the reduction: block by block, the sum of the inputs.
pub fn reduce_sum<C: Summand<C2>, C2: CurveGroup>(
    inputs: &[C],
    partial_sums: &mut [C2],
    grid: Grid,
)
    requires
        grid.well_formed(),
        inputs@.len() <= u32::MAX,
        strides_fit(inputs@.len(), grid.threads()),
        grid.grid_dim <= old(partial_sums)@.len(),
    ensures
        final(partial_sums)@.len() == old(partial_sums)@.len(),
        forall|b: int|
            0 <= b < grid.grid_dim ==> (all_summands::<C2, C>(inputs@) ==> denotes(
                #[trigger] final(partial_sums)@[b],
                block_sum(inputs@.len(), grid, b, input_term::<C2, C>(inputs@)),
            )),
        forall|b: int|
            grid.grid_dim <= b < old(partial_sums)@.len() ==> #[trigger] final(partial_sums)@[b]
                == old(partial_sums)@[b],
{
    sum_blocks(&InputRow { inputs }, partial_sums, grid)
}

/// The scalar is zero, or the base a point of the group.
pub open spec fn is_product_defined<C: CurveAffine>(scalar: C::Scalar, base: C) -> bool {
    scalar.value() == 0 || base.log() is Some
}

/// The kernel of the general multiplication: in the place of each thread, the product of the
/// base and the coefficient there.
pub fn msm_kernel<C: CurveAffine>(
    scalars: &[C::Scalar],
    bases: &[C],
    partial_sums: &mut [C::Curve],
    grid: Grid,
)
    requires
        bases@.len() <= scalars@.len() || grid.threads() <= scalars@.len(),
        bases@.len() <= old(partial_sums)@.len() || grid.threads() <= old(partial_sums)@.len(),
        grid.threads() <= u32::MAX,
    ensures
        final(partial_sums)@.len() == old(partial_sums)@.len(),
        forall|i: int|
            0 <= i < bases@.len() && i < grid.threads() ==> (is_product_defined(
                scalars@[i],
                bases@[i],
            ) ==> denotes(
                #[trigger] final(partial_sums)@[i],
                scalars@[i].value() * base_log(bases@[i]),
            )),
        forall|i: int|
            0 <= i < old(partial_sums)@.len() && (i >= bases@.len() || i >= grid.threads())
                ==> #[trigger] final(partial_sums)@[i] == old(partial_sums)@[i],
{
    let ghost first = partial_sums@;
    let threads: u32 = grid.grid_dim * grid.block_dim;
    let mut id: u32 = 0;
    while id < threads
        invariant
            id <= threads,
            bases@.len() <= scalars@.len() || threads <= scalars@.len(),
            bases@.len() <= first.len() || threads <= first.len(),
            partial_sums@.len() == first.len(),
            forall|i: int|
                0 <= i < bases@.len() && i < id ==> (is_product_defined(
                    scalars@[i],
                    bases@[i],
                ) ==> denotes(
                    #[trigger] partial_sums@[i],
                    scalars@[i].value() * base_log(bases@[i]),
                )),
            forall|i: int|
                0 <= i < first.len() && (i >= bases@.len() || i >= id)
                    ==> #[trigger] partial_sums@[i] == first[i],
        decreases threads - id,
    {
        let i: usize = id as usize;
        if i < bases.len() {
            partial_sums[i] = bases[i].mul(scalars[i]);
            proof {
                C::Curve::order_is_positive();
                lemma_small_mod(0, C::Curve::order() as nat);
                lemma_mul_basics(base_log(bases@[i as int]));
                lemma_mul_is_commutative(
                    base_log(bases@[i as int]),
                    scalars@[i as int].value() as int,
                );
            }
        }
        id += 1;
    }
}

/// The threads and the limits of a grid.
pub proof fn law_grid_threads(grid: Grid)
    ensures
        grid.threads() == grid.grid_dim * grid.block_dim,
        grid.well_formed() == (grid.grid_dim >= 1 && 1 <= grid.block_dim <= 1024 && grid.grid_dim
            * grid.block_dim < 0x8000_0000),
{
}

/// One place more adds what stands there to the sum of the one thread, and of the one block,
/// that goes there, and to no other.
pub proof fn law_sums_of_one_place_more(
    n: nat,
    grid: Grid,
    threads: nat,
    id: int,
    b: int,
    f: spec_fn(int) -> int,
)
    ensures
        thread_sum(0, threads, id, f) == 0,
        n as int % (threads as int) == id ==> thread_sum(n + 1, threads, id, f) == thread_sum(
            n,
            threads,
            id,
            f,
        ) + f(n as int),
        n as int % (threads as int) != id ==> thread_sum(n + 1, threads, id, f) == thread_sum(
            n,
            threads,
            id,
            f,
        ),
        block_sum(0, grid, b, f) == 0,
        n as int % (grid.grid_dim * grid.block_dim) / (grid.block_dim as int) == b ==> block_sum(
            n + 1,
            grid,
            b,
            f,
        ) == block_sum(n, grid, b, f) + f(n as int),
        n as int % (grid.grid_dim * grid.block_dim) / (grid.block_dim as int) != b ==> block_sum(
            n + 1,
            grid,
            b,
            f,
        ) == block_sum(n, grid, b, f),
{
    let g = |i: int|
        if i % (threads as int) == id {
            f(i)
        } else {
            0
        };
    let h = |i: int|
        if i % (grid.threads() as int) / (grid.block_dim as int) == b {
            f(i)
        } else {
            0
        };
    assert(sum(n + 1, g) == sum(n, g) + g(n as int));
    assert(sum(n + 1, h) == sum(n, h) + h(n as int));
}

/// One place more is stepped to without leaving a word where no step starts there, or where the
/// place `threads` above it is a word.
pub proof fn law_strides_of_one_place_more(n: nat, threads: nat)
    ensures
        strides_fit(0, threads),
        strides_fit(n + 1, threads) == (strides_fit(n, threads) && (n as int % (2 * threads as int)
            < threads ==> n + threads <= u32::MAX)),
{
    if strides_fit(n + 1, threads) {
        assert forall|i: int|
            0 <= i < n && #[trigger] (i % (2 * threads as int)) < threads implies i + threads
            <= u32::MAX by {
        }
        assert(n as int % (2 * threads as int) < threads ==> n + threads <= u32::MAX);
    }
}

/// The summands of the kernels: a base where its coefficient is not zero, nothing where it is,
/// and every input of a reduction.
pub proof fn law_kernel_terms<C: CurveAffine, T: Coefficient>(
    scalars: Seq<T>,
    bases: Seq<C>,
    inputs: Seq<C::Curve>,
    i: int,
    k: int,
)
    requires
        0 <= i < scalars.len(),
        0 <= i < inputs.len(),
    ensures
        scalars[i].vanishes() ==> binary_term(scalars, bases)(i) == 0,
        !scalars[i].vanishes() && bases[i].log() == Some(k) ==> binary_term(scalars, bases)(i)
            == k,
        inputs[i].log() == Some(k) ==> input_term::<C::Curve, C::Curve>(inputs)(i) == k,
{
    lemma_mul_basics(base_log(bases[i]));
}

/// What the kernels ask of the bases: those whose coefficient is not zero are points.
pub proof fn law_bases_that_count<C: CurveAffine, T: Coefficient>(scalars: Seq<T>, bases: Seq<C>)
    requires
        forall|i: int|
            0 <= i < scalars.len() && i < bases.len() && !scalars[i].vanishes() ==> (
            #[trigger] bases[i]).log() is Some,
    ensures
        binary_on_curve(scalars, bases),
{
    let points = paired(bases, scalars.len());
    assert forall|i: int|
        0 <= i < points.len() && binary_values(scalars)[i] != 0 implies (
    #[trigger] points[i]).log() is Some by {
        assert(bases[i].log() is Some);
    }
}

/// A product is defined by zero, and of a point by anything.
pub proof fn law_defined_products<C: CurveAffine>(scalar: C::Scalar, base: C)
    ensures
        scalar.value() == 0 ==> is_product_defined(scalar, base),
        base.log() is Some ==> is_product_defined(scalar, base),
{
}

} // verus!
