//! Buckets of points, and the weighted sum of a row of them.
//!
//! A base whose digit is `d` goes into the bucket of weight `d`. The weighted sum of the
//! buckets then takes two additions for each of them: the running sum from the heaviest
//! bucket down, and the sum of all the running sums.

use vstd::arithmetic::div_mod::*;
use vstd::prelude::*;
use crate::curve::{add_points, denotes, stands_for, zero_point, CurveAffine, CurveGroup};
use crate::sums::{lemma_sum_add, lemma_sum_eq, lemma_sum_split, sum};

verus! {

/// A sum of bases that stays in stored form as long as it can.
#[derive(Clone, Copy)]
pub enum Bucket<C: CurveAffine> {
    /// The empty sum.
    Empty,
    /// One base.
    Affine(C),
    /// A sum of two or more.
    Projective(C::Curve),
}

impl<C: CurveAffine> Bucket<C> {
    /// The logarithm of the sum; `None` where some base was no point of the group.
    pub open spec fn log(self) -> Option<int> {
        match self {
            Bucket::Empty => Some(0int),
            Bucket::Affine(a) => a.log(),
            Bucket::Projective(a) => a.log(),
        }
    }

    /// The bucket holds the multiple of the generator by `x`.
    pub open spec fn holds(self, x: int) -> bool {
        self.log() == Some(x % C::Curve::order())
    }

    /// Adds a base to the bucket.
    pub fn add_assign(&mut self, other: &C)
        ensures
            old(self).log() matches Some(a) ==> other.log() matches Some(b) ==> final(self).log()
                == Some((a + b) % C::Curve::order()),
            match *old(self) {
                Bucket::Empty => *final(self) == Bucket::Affine(*other),
                _ => *final(self) is Projective,
            },
    {
        proof {
            other.log_is_reduced();
            if let Some(b) = other.log() {
                lemma_small_mod(b as nat, C::Curve::order() as nat);
            }
        }
        *self = match *self {
            Bucket::Empty => Bucket::Affine(*other),
            Bucket::Affine(a) => Bucket::Projective(a.plus(*other)),
            Bucket::Projective(a) => Bucket::Projective(other.add_to(a)),
        };
    }

    /// The sum of a point and the bucket.
    pub fn add(self, other: C::Curve) -> (res: C::Curve)
        ensures
            self is Empty ==> res == other,
            other.log() matches Some(a) ==> self.log() matches Some(b) ==> res.log() == Some(
                (a + b) % C::Curve::order(),
            ),
    {
        proof {
            other.log_is_reduced();
            if let Some(a) = other.log() {
                lemma_small_mod(a as nat, C::Curve::order() as nat);
            }
        }
        match self {
            Bucket::Empty => other,
            Bucket::Affine(a) => a.add_to(other),
            Bucket::Projective(a) => other.plus(a),
        }
    }
}

/// `b[t] + b[t + 1] + ..`
pub open spec fn tail(b: Seq<int>, t: int) -> int
    decreases b.len() - t,
{
    if t >= b.len() {
        0
    } else {
        b[t] + tail(b, t + 1)
    }
}

/// The sum of all the tails from `t` on, which is `1 * b[t] + 2 * b[t + 1] + ..`
pub open spec fn stacked(b: Seq<int>, t: int) -> int
    decreases b.len() - t,
{
    if t >= b.len() {
        0
    } else {
        stacked(b, t + 1) + tail(b, t)
    }
}

/// Summation by parts: the sum of the running sums gives the `j`-th bucket the weight
/// `j + 1`.
pub proof fn law_summation_by_parts(b: Seq<int>)
    ensures
        stacked(b, 0) == sum(b.len(), |j: int| (j + 1) * b[j]),
{
    lemma_stacked_weights(b, 0);
    lemma_sum_eq(b.len(), |j: int| (j + 1) * b[0 + j], |j: int| (j + 1) * b[j]);
}

proof fn lemma_tail_sum(b: Seq<int>, t: int)
    requires
        0 <= t <= b.len(),
    ensures
        tail(b, t) == sum((b.len() - t) as nat, |j: int| b[t + j]),
    decreases b.len() - t,
{
    if t < b.len() {
        lemma_tail_sum(b, t + 1);
        let f = |j: int| b[t + j];
        let rest = (b.len() - t - 1) as nat;
        lemma_sum_split(1, rest, f);
        assert(sum(1, f) == b[t]) by {
            reveal_with_fuel(sum, 2);
        }
        lemma_sum_eq(rest, |j: int| f(1 + j), |j: int| b[t + 1 + j]);
    }
}

proof fn lemma_stacked_weights(b: Seq<int>, t: int)
    requires
        0 <= t <= b.len(),
    ensures
        stacked(b, t) == sum((b.len() - t) as nat, |j: int| (j + 1) * b[t + j]),
    decreases b.len() - t,
{
    if t < b.len() {
        lemma_stacked_weights(b, t + 1);
        lemma_tail_sum(b, t);
        let n = (b.len() - t) as nat;
        let rest = (n - 1) as nat;
        let f = |j: int| (j + 1) * b[t + j];
        let plain = |j: int| b[t + j];
        let less = |j: int| j * b[t + j];
        lemma_sum_split(1, rest, less);
        assert(sum(1, less) == 0) by {
            reveal_with_fuel(sum, 2);
        }
        lemma_sum_eq(rest, |j: int| less(1 + j), |j: int| (j + 1) * b[t + 1 + j]);
        lemma_sum_add(n, less, plain);
        assert forall|j: int| 0 <= j < n implies #[trigger] f(j) == less(j) + plain(j) by {
            assert((j + 1) * b[t + j] == j * b[t + j] + b[t + j]) by (nonlinear_arith);
        }
        lemma_sum_eq(n, f, |j: int| less(j) + plain(j));
    }
}

/// Adding `k` to the bucket at `j` adds `j - t + 1` times `k` to the weighted sum from `t`.
pub proof fn lemma_stacked_update(b: Seq<int>, j: int, k: int, t: int)
    requires
        0 <= t,
        0 <= j < b.len(),
    ensures
        tail(b.update(j, b[j] + k), t) == tail(b, t) + (if t <= j {
            k
        } else {
            0
        }),
        stacked(b.update(j, b[j] + k), t) == stacked(b, t) + (if t <= j {
            (j - t + 1) * k
        } else {
            0
        }),
    decreases b.len() - t,
{
    if t < b.len() {
        lemma_stacked_update(b, j, k, t + 1);
        assert((j - t + 1) * k == (j - (t + 1) + 1) * k + k) by (nonlinear_arith);
        assert(1 * k == k);
    }
}

/// A row of empty buckets weighs nothing.
pub proof fn lemma_stacked_zero(b: Seq<int>, t: int)
    requires
        0 <= t,
        forall|j: int| 0 <= j < b.len() ==> b[j] == 0,
    ensures
        tail(b, t) == 0,
        stacked(b, t) == 0,
    decreases b.len() - t,
{
    if t < b.len() {
        lemma_stacked_zero(b, t + 1);
    }
}

/// The buckets hold the multiples `b` of the generator.
pub open spec fn buckets_hold<C: CurveAffine>(buckets: Seq<Bucket<C>>, b: Seq<int>) -> bool {
    &&& buckets.len() == b.len()
    &&& forall|j: int| 0 <= j < b.len() ==> (#[trigger] buckets[j]).holds(b[j])
}

/// The points are the multiples `b` of the generator.
pub open spec fn points_hold<G: CurveGroup>(points: Seq<G>, b: Seq<int>) -> bool {
    &&& points.len() == b.len()
    &&& forall|j: int| 0 <= j < b.len() ==> denotes(#[trigger] points[j], b[j])
}

/// A row of empty buckets.
pub(crate) fn empty_buckets<C: CurveAffine>(n: usize) -> (res: Vec<Bucket<C>>)
    ensures
        buckets_hold(res@, Seq::new(n as nat, |j: int| 0int)),
{
    proof {
        C::Curve::order_is_positive();
        lemma_small_mod(0, C::Curve::order() as nat);
    }
    let mut res: Vec<Bucket<C>> = Vec::new();
    let mut i: usize = 0;
    while i < n
        invariant
            i <= n,
            res@.len() == i,
            0int % C::Curve::order() == 0,
            forall|j: int| 0 <= j < i ==> (#[trigger] res@[j]).holds(0),
        decreases n - i,
    {
        res.push(Bucket::Empty);
        i += 1;
    }
    res
}

/// Adds a base to one of the buckets.
pub(crate) fn add_to_bucket<C: CurveAffine>(
    buckets: &mut Vec<Bucket<C>>,
    j: usize,
    base: &C,
    Ghost(ok): Ghost<bool>,
    Ghost(b): Ghost<Seq<int>>,
    Ghost(k): Ghost<int>,
)
    requires
        j < old(buckets)@.len(),
        ok ==> buckets_hold(old(buckets)@, b) && stands_for(*base, k),
    ensures
        final(buckets)@.len() == old(buckets)@.len(),
        ok ==> buckets_hold(final(buckets)@, b.update(j as int, b[j as int] + k)),
{
    let mut bucket = buckets[j];
    bucket.add_assign(base);
    proof {
        if ok {
            assert(buckets@[j as int].holds(b[j as int]));
            C::Curve::order_is_positive();
            lemma_add_mod_noop(b[j as int], k, C::Curve::order());
        }
    }
    buckets.set(j, bucket);
}

/// `acc`, and each bucket from `first` on as often as it weighs: that at `first` once, the
/// next one twice, and so on.
pub(crate) fn add_buckets<C: CurveAffine>(
    acc: C::Curve,
    buckets: &Vec<Bucket<C>>,
    first: usize,
    Ghost(ok): Ghost<bool>,
    Ghost(x): Ghost<int>,
    Ghost(b): Ghost<Seq<int>>,
) -> (res: C::Curve)
    requires
        first <= buckets@.len(),
        ok ==> denotes(acc, x) && buckets_hold(buckets@, b),
    ensures
        ok ==> denotes(res, x + stacked(b, first as int)),
{
    let mut running_sum: C::Curve = zero_point();
    let mut res = acc;
    let mut j: usize = buckets.len();
    while j > first
        invariant
            first <= j <= buckets@.len(),
            ok ==> buckets_hold(buckets@, b),
            ok ==> denotes(running_sum, tail(b, j as int)),
            ok ==> denotes(res, x + stacked(b, j as int)),
        decreases j,
    {
        j -= 1;
        running_sum = buckets[j].add(running_sum);
        proof {
            if ok {
                assert(buckets@[j as int].holds(b[j as int]));
                C::Curve::order_is_positive();
                lemma_add_mod_noop(tail(b, j + 1), b[j as int], C::Curve::order());
                assert(denotes(running_sum, tail(b, j as int)));
            }
        }
        res = add_points(res, running_sum);
        proof {
            if ok {
                assert(x + stacked(b, j + 1) + tail(b, j as int) == x + stacked(b, j as int));
            }
        }
    }
    res
}

/// `acc`, the first point once, the second one twice, and so on.
pub(crate) fn add_weighted<G: CurveGroup>(
    acc: G,
    points: &Vec<G>,
    Ghost(ok): Ghost<bool>,
    Ghost(x): Ghost<int>,
    Ghost(b): Ghost<Seq<int>>,
) -> (res: G)
    requires
        ok ==> denotes(acc, x) && points_hold(points@, b),
    ensures
        ok ==> denotes(res, x + stacked(b, 0)),
{
    let mut running_sum: G = zero_point();
    let mut res = acc;
    let mut j: usize = points.len();
    while j > 0
        invariant
            j <= points@.len(),
            ok ==> points_hold(points@, b),
            ok ==> denotes(running_sum, tail(b, j as int)),
            ok ==> denotes(res, x + stacked(b, j as int)),
        decreases j,
    {
        j -= 1;
        running_sum = add_points(running_sum, points[j]);
        proof {
            if ok {
                assert(denotes(points@[j as int], b[j as int]));
                assert(tail(b, j + 1) + b[j as int] == tail(b, j as int));
            }
        }
        res = add_points(res, running_sum);
        proof {
            if ok {
                assert(x + stacked(b, j + 1) + tail(b, j as int) == x + stacked(b, j as int));
            }
        }
    }
    res
}

/// An empty bucket holds the neutral point, and another one the point that was put in it.
pub proof fn law_buckets_keep_their_point<C: CurveAffine>(base: C, point: C::Curve)
    ensures
        Bucket::<C>::Empty.log() == Some(0int),
        Bucket::Affine(base).log() == base.log(),
        Bucket::<C>::Projective(point).log() == point.log(),
{
}

} // verus!
