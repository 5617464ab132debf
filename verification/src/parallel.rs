//! Work that the thread pool of the crate `rayon` shares out.

use rayon::iter::{IndexedParallelIterator, ParallelIterator};
use rayon::slice::ParallelSlice;
use vstd::arithmetic::div_mod::*;
use vstd::arithmetic::mul::*;
use vstd::prelude::*;
use crate::curve::{
    base_log, is_msm, is_sum, msm_log, on_curve, point_log, CurveAffine, CurveGroup, SmallScalar,
};
use crate::sums::{lemma_sum_eq, lemma_sum_mod, lemma_sum_split, sum};

verus! {

/// `rayon::current_num_threads` is the size of a thread pool, which has at least one thread.
/// How many it has depends on the machine and on how the pool was set up.
pub assume_specification[ rayon::current_num_threads ]() -> (res: usize)
    ensures
        res >= 1,
;

/// How many pieces of at most `size` elements `len` elements make.
pub open spec fn chunk_count(len: nat, size: nat) -> nat {
    if len == 0 {
        0
    } else {
        ((len - 1) / size as int + 1) as nat
    }
}

/// Where the `j`-th piece of at most `size` elements ends.
pub open spec fn chunk_end(len: nat, size: nat, j: int) -> int {
    if (j + 1) * size < len {
        (j + 1) * size
    } else {
        len as int
    }
}

/// The `j`-th piece of at most `size` elements; all but the last one have `size`.
pub open spec fn chunk<A>(s: Seq<A>, size: nat, j: int) -> Seq<A> {
    s.subrange(j * size, chunk_end(s.len(), size, j))
}

/// `s` and `b` are the pieces in the same place of `scalars` and `bases`.
pub open spec fn are_pieces<A, B>(
    scalars: Seq<A>,
    bases: Seq<B>,
    size: nat,
    s: Seq<A>,
    b: Seq<B>,
) -> bool {
    exists|j: int|
        0 <= j < chunk_count(bases.len(), size) && s == #[trigger] chunk(scalars, size, j) && b
            == chunk(bases, size, j)
}

/// The function `f` may return `part` for the `j`-th pieces of `scalars` and `bases`.
pub open spec fn is_part<C: CurveAffine, T: SmallScalar, F: Fn(&[T], &[C]) -> C::Curve>(
    f: F,
    scalars: Seq<T>,
    bases: Seq<C>,
    size: nat,
    j: int,
    part: C::Curve,
) -> bool {
    exists|s: &[T], b: &[C]|
        s@ == chunk(scalars, size, j) && b@ == chunk(bases, size, j) && #[trigger] call_ensures(
            f,
            (s, b),
            part,
        )
}

/// The point `res` is the sum of what `f` returned, in one call each, for the pieces of
/// `scalars` and `bases`.
pub open spec fn is_chunked_sum<C: CurveAffine, T: SmallScalar, F: Fn(&[T], &[C]) -> C::Curve>(
    f: F,
    scalars: Seq<T>,
    bases: Seq<C>,
    size: nat,
    res: C::Curve,
) -> bool {
    exists|parts: Seq<C::Curve>|
        {
            &&& parts.len() == chunk_count(bases.len(), size)
            &&& forall|j: int|
                0 <= j < parts.len() ==> is_part(f, scalars, bases, size, j, #[trigger] parts[j])
            &&& #[trigger] is_sum(res, parts)
        }
}

/// Calls `par_chunks` on both slices, `zip`, `map` and `reduce` of `rayon`: the slices are
/// cut into pieces of at most `chunk_size` elements, `f` is called on each pair of pieces,
/// and the sum of what it returns is formed. The grouping of that sum is left open, which
/// makes no difference in a commutative group.
#[verifier::external_body]
pub(crate) fn par_chunks_sum<C: CurveAffine, T: SmallScalar, F>(
    scalars: &[T],
    bases: &[C],
    chunk_size: usize,
    f: F,
) -> (res: C::Curve) where F: Fn(&[T], &[C]) -> C::Curve + Sync + Send
    requires
        scalars@.len() == bases@.len(),
        chunk_size > 0,
        forall|s: &[T], b: &[C]|
            are_pieces(scalars@, bases@, chunk_size as nat, s@, b@) ==> #[trigger] call_requires(
                f,
                (s, b),
            ),
    ensures
        is_chunked_sum(f, scalars@, bases@, chunk_size as nat, res),
{
    scalars
        .par_chunks(chunk_size)
        .zip(bases.par_chunks(chunk_size))
        .map(|(scalars_chunk, bases_chunk)| f(scalars_chunk, bases_chunk))
        .reduce(C::Curve::identity, |sum, evl| sum.plus(evl))
}

/// Calls `par_chunks`, `map` and `reduce` of `rayon`: the sum of the points. The grouping of
/// that sum is left open, which makes no difference in a commutative group.
#[verifier::external_body]
pub(crate) fn par_sum<G: CurveGroup>(points: &[G]) -> (res: G)
    ensures
        is_sum(res, points@),
{
    points.par_chunks(1).map(|v| v[0]).reduce(G::identity, |s, evl| s.plus(evl))
}

/// Where the pieces lie: the first ones are full, and all of them together make the whole.
pub proof fn lemma_chunk_bounds(len: nat, size: nat, j: int)
    requires
        size > 0,
        0 <= j < chunk_count(len, size),
    ensures
        0 <= j * size < chunk_end(len, size, j) <= len,
        chunk_end(len, size, j) - j * size <= size,
        j + 1 < chunk_count(len, size) ==> chunk_end(len, size, j) == (j + 1) * size,
        j + 1 == chunk_count(len, size) ==> chunk_end(len, size, j) == len,
{
    let q = (len - 1) / size as int;
    lemma_fundamental_div_mod(len - 1, size as int);
    lemma_mul_is_commutative(size as int, q);
    lemma_mul_inequality(j, q, size as int);
    lemma_mul_nonnegative(j, size as int);
    assert((j + 1) * size == j * size + size) by (nonlinear_arith);
    if j + 1 < chunk_count(len, size) {
        lemma_mul_inequality(j + 1, q, size as int);
    } else {
        assert((q + 1) * size == q * size + size) by (nonlinear_arith);
    }
}

/// The sum over the first `m` pieces is the sum over the elements before the next one.
proof fn lemma_first_chunks(len: nat, size: nat, m: nat, f: spec_fn(int) -> int)
    requires
        size > 0,
        m <= chunk_count(len, size),
    ensures
        m == 0 ==> sum(m, |j: int| piece_sum(len, size, j, f)) == 0,
        m > 0 ==> sum(m, |j: int| piece_sum(len, size, j, f)) == sum(
            chunk_end(len, size, m - 1) as nat,
            f,
        ),
    decreases m,
{
    let g = |j: int| piece_sum(len, size, j, f);
    if m > 0 {
        let j = m - 1;
        lemma_first_chunks(len, size, j as nat, f);
        lemma_chunk_bounds(len, size, j);
        if j > 0 {
            lemma_chunk_bounds(len, size, j - 1);
        }
        let from = (j * size) as nat;
        let n = (chunk_end(len, size, j) - from) as nat;
        lemma_sum_split(from, n, f);
        lemma_sum_eq(n, |i: int| f(from + i), |i: int| f(j * size + i));
        assert(sum(m, g) == sum(j as nat, g) + g(j));
    }
}

/// The sum of `f` over the `j`-th piece.
spec fn piece_sum(len: nat, size: nat, j: int, f: spec_fn(int) -> int) -> int {
    sum((chunk_end(len, size, j) - j * size) as nat, |i: int| f(j * size + i))
}

/// The multi-scalar multiplications of the pieces add up to that of the whole.
pub proof fn law_msm_of_pieces<C: CurveAffine>(coeffs: Seq<nat>, bases: Seq<C>, size: nat)
    requires
        size > 0,
        coeffs.len() == bases.len(),
    ensures
        sum(
            chunk_count(bases.len(), size),
            |j: int| msm_log(chunk(coeffs, size, j), chunk(bases, size, j)),
        ) == msm_log(coeffs, bases),
{
    let len = bases.len();
    let count = chunk_count(len, size);
    let f = |i: int| coeffs[i] * base_log(bases[i]);
    let g = |j: int| msm_log(chunk(coeffs, size, j), chunk(bases, size, j));
    let h = |j: int| piece_sum(len, size, j, f);
    lemma_first_chunks(len, size, count, f);
    if count > 0 {
        lemma_fundamental_div_mod(len - 1, size as int);
        lemma_div_pos_is_pos(len - 1, size as int);
        lemma_chunk_bounds(len, size, count - 1);
    }
    assert forall|j: int| 0 <= j < count implies #[trigger] g(j) == h(j) by {
        lemma_chunk_bounds(len, size, j);
        let b = chunk(bases, size, j);
        let c = chunk(coeffs, size, j);
        lemma_sum_eq(b.len(), |i: int| c[i] * base_log(b[i]), |i: int| f(j * size + i));
    }
    lemma_sum_eq(count, g, h);
}

/// A sum of multi-scalar multiplications of the pieces is that of the whole.
pub proof fn lemma_sum_of_pieces<C: CurveAffine>(
    res: C::Curve,
    parts: Seq<C::Curve>,
    coeffs: Seq<nat>,
    bases: Seq<C>,
    size: nat,
)
    requires
        size > 0,
        coeffs.len() == bases.len(),
        parts.len() == chunk_count(bases.len(), size),
        forall|j: int|
            0 <= j < parts.len() ==> is_msm(
                #[trigger] parts[j],
                chunk(coeffs, size, j),
                chunk(bases, size, j),
            ),
        is_sum(res, parts),
    ensures
        is_msm(res, coeffs, bases),
{
    if on_curve(coeffs, bases) {
        let order = C::Curve::order();
        C::Curve::order_is_positive();
        let f = |j: int| point_log(parts[j]);
        let g = |j: int| msm_log(chunk(coeffs, size, j), chunk(bases, size, j));
        assert forall|j: int| 0 <= j < parts.len() implies (#[trigger] parts[j]).log() == Some(
            g(j) % order,
        ) by {
            lemma_chunk_bounds(bases.len(), size, j);
            assert(is_msm(parts[j], chunk(coeffs, size, j), chunk(bases, size, j)));
            assert forall|i: int|
                0 <= i < chunk(bases, size, j).len() && chunk(coeffs, size, j)[i] != 0 implies (
            #[trigger] chunk(bases, size, j)[i]).log() is Some by {
                assert(bases[j * size + i].log() is Some);
            }
        }
        assert forall|j: int| 0 <= j < parts.len() implies #[trigger] f(j) % order == g(j)
            % order by {
            assert(parts[j].log() == Some(g(j) % order));
            lemma_mod_twice(g(j), order);
        }
        lemma_sum_mod(parts.len(), f, g, order);
        law_msm_of_pieces(coeffs, bases, size);
    }
}

} // verus!
