//! The groups that a multi-scalar multiplication works in, and its coefficients.
//!
//! A point is known by its logarithm: the group is cyclic, so that every point is one
//! multiple `k * G` of the generator `G`, with one `k` below the order of the group. To add
//! points is to add logarithms modulo the order, and a multi-scalar multiplication has the
//! logarithm `s[0] * k[0] + .. + s[n - 1] * k[n - 1]` modulo the order.

use vstd::arithmetic::div_mod::*;
use vstd::arithmetic::power2::*;
use vstd::prelude::*;
use crate::bytes::le_value;
use crate::sums::sum;

verus! {

/// A whole number that can be told from zero.
pub trait Coefficient: Copy + Send + Sync {
    /// Whether the number is zero.
    spec fn vanishes(self) -> bool;

    /// Tells whether the number is zero.
    fn is_zero(self) -> (res: bool)
        ensures
            res == self.vanishes(),
    ;
}

/// An unsigned whole number of at most sixty-four bits.
pub trait SmallScalar: Coefficient {
    /// The number itself.
    spec fn value(self) -> u64;

    /// Zero is the one number that vanishes.
    proof fn vanishes_at_zero(self)
        ensures
            self.vanishes() == (self.value() == 0),
    ;

    /// Widens the number to sixty-four bits.
    fn to_u64(self) -> (res: u64)
        ensures
            res == self.value(),
    ;
}

/// An element of the scalar field of a curve. One element may have several representations,
/// and a comparison need not tell those of equal elements equal.
pub trait FieldScalar: Copy + Send + Sync {
    /// The least whole number that the field element is the residue of.
    spec fn value(self) -> nat;

    /// Whether this is told equal to the zero of the field.
    spec fn equals_zero(self) -> bool;

    /// Whether this is told equal to the one of the field.
    spec fn equals_one(self) -> bool;

    /// The number fits in thirty-two bytes.
    proof fn value_fits(self)
        ensures
            self.value() < pow2(256),
    ;

    /// Compares with the zero of the field: what is told equal is zero.
    fn is_zero(self) -> (res: bool)
        ensures
            res == self.equals_zero(),
            res ==> self.value() == 0,
    ;

    /// Compares with the one of the field: what is told equal is one.
    fn is_one(self) -> (res: bool)
        ensures
            res == self.equals_one(),
            res ==> self.value() == 1,
    ;

    /// The number in thirty-two bytes, the least significant byte first.
    fn to_repr(self) -> (res: [u8; 32])
        ensures
            le_value(res@) == self.value(),
    ;
}

/// A point of a cyclic group, in the coordinates that sums are computed in.
pub trait CurveGroup: Copy + Send + Sync {
    /// The number of points in the group.
    spec fn order() -> int;

    /// The logarithm of the point; `None` where the coordinates are those of no point.
    spec fn log(self) -> Option<int>;

    /// A group has at least one point.
    proof fn order_is_positive()
        ensures
            Self::order() > 0,
    ;

    /// Logarithms are below the order.
    proof fn log_is_reduced(self)
        ensures
            self.log() matches Some(k) ==> 0 <= k < Self::order(),
    ;

    /// The neutral point.
    fn identity() -> (res: Self)
        ensures
            res.log() == Some(0int),
    ;

    /// The sum of two points.
    fn plus(self, other: Self) -> (res: Self)
        ensures
            self.log() matches Some(a) ==> other.log() matches Some(b) ==> res.log() == Some(
                (a + b) % Self::order(),
            ),
    ;

    /// Twice the point.
    fn double(self) -> (res: Self)
        ensures
            self.log() matches Some(a) ==> res.log() == Some((a + a) % Self::order()),
    ;
}

/// A point of a cyclic group, in the two coordinates that it is stored in.
pub trait CurveAffine: Copy + Send + Sync {
    /// The form of the point that sums are computed in.
    type Curve: CurveGroup;

    /// The coefficients that a point can be multiplied by.
    type Scalar: FieldScalar;

    /// The logarithm of the point; `None` where the coordinates are those of no point.
    spec fn log(self) -> Option<int>;

    /// Logarithms are below the order.
    proof fn log_is_reduced(self)
        ensures
            self.log() matches Some(k) ==> 0 <= k < Self::Curve::order(),
    ;

    /// The neutral point.
    fn identity() -> (res: Self)
        ensures
            res.log() == Some(0int),
    ;

    /// The same point, in the form that sums are computed in.
    fn to_curve(self) -> (res: Self::Curve)
        ensures
            self.log() matches Some(a) ==> res.log() == Some(a),
    ;

    /// The sum of two points.
    fn plus(self, other: Self) -> (res: Self::Curve)
        ensures
            self.log() matches Some(a) ==> other.log() matches Some(b) ==> res.log() == Some(
                (a + b) % Self::Curve::order(),
            ),
    ;

    /// The sum of `acc` and this point.
    fn add_to(self, acc: Self::Curve) -> (res: Self::Curve)
        ensures
            acc.log() matches Some(a) ==> self.log() matches Some(b) ==> res.log() == Some(
                (a + b) % Self::Curve::order(),
            ),
    ;

    /// The multiple of this point by a scalar. By zero it is the neutral point, whatever the
    /// coordinates are.
    fn mul(self, scalar: Self::Scalar) -> (res: Self::Curve)
        ensures
            scalar.value() == 0 ==> res.log() == Some(0int),
            self.log() matches Some(a) ==> res.log() == Some(
                (a * scalar.value()) % Self::Curve::order(),
            ),
    ;
}

/// A point that can be added to another one of its kind, with a point of `G` for the sum.
pub trait Summand<G: CurveGroup>: Copy + Send + Sync {
    /// The logarithm of the point; `None` where the coordinates are those of no point.
    spec fn summand_log(self) -> Option<int>;

    /// Logarithms are below the order.
    proof fn summand_log_is_reduced(self)
        ensures
            self.summand_log() matches Some(k) ==> 0 <= k < G::order(),
    ;

    /// The sum of two points.
    fn sum_with(self, other: Self) -> (res: G)
        ensures
            self.summand_log() matches Some(a) ==> other.summand_log() matches Some(b) ==> res.log()
                == Some((a + b) % G::order()),
    ;

    /// The point itself.
    fn alone(self) -> (res: G)
        ensures
            self.summand_log() matches Some(a) ==> res.log() == Some(a),
    ;
}

impl<G: CurveGroup> Summand<G> for G {
    open spec fn summand_log(self) -> Option<int> {
        self.log()
    }

    proof fn summand_log_is_reduced(self) {
        self.log_is_reduced();
    }

    fn sum_with(self, other: Self) -> (res: G) {
        self.plus(other)
    }

    fn alone(self) -> (res: G) {
        self
    }
}

/// The point `p` is the multiple of the generator by `x`.
pub open spec fn denotes<G: CurveGroup>(p: G, x: int) -> bool {
    p.log() == Some(x % G::order())
}

/// The stored point `p` is the multiple of the generator by `x`.
pub open spec fn stands_for<C: CurveAffine>(p: C, x: int) -> bool {
    p.log() == Some(x % C::Curve::order())
}

/// Every base whose coefficient is not zero is a point of the group.
pub open spec fn on_curve<C: CurveAffine>(coeffs: Seq<nat>, bases: Seq<C>) -> bool {
    forall|i: int|
        0 <= i < bases.len() && coeffs[i] != 0 ==> (#[trigger] bases[i]).log() is Some
}

/// Every element of `inputs` is a point of the group.
pub open spec fn all_summands<G: CurveGroup, C: Summand<G>>(inputs: Seq<C>) -> bool {
    forall|i: int| 0 <= i < inputs.len() ==> (#[trigger] inputs[i]).summand_log() is Some
}

/// Every element of `points` is a point of the group.
pub open spec fn in_group<G: CurveGroup>(points: Seq<G>) -> bool {
    forall|i: int| 0 <= i < points.len() ==> (#[trigger] points[i]).log() is Some
}

/// The logarithm of a point that has one.
pub open spec fn base_log<C: CurveAffine>(p: C) -> int {
    p.log()->0
}

/// The logarithm of a point that has one.
pub open spec fn point_log<G: CurveGroup>(p: G) -> int {
    p.log()->0
}

/// `coeffs[0] * log(bases[0]) + coeffs[1] * log(bases[1]) + ..`, over all of `bases`.
pub open spec fn msm_log<C: CurveAffine>(coeffs: Seq<nat>, bases: Seq<C>) -> int {
    sum(bases.len(), |i: int| coeffs[i] * base_log(bases[i]))
}

/// The point `res` is the multi-scalar multiplication of `bases` by `coeffs`. What a base is
/// whose coefficient is zero does not matter; nothing is said where another one is no point of
/// the group.
pub open spec fn is_msm<C: CurveAffine>(res: C::Curve, coeffs: Seq<nat>, bases: Seq<C>) -> bool {
    on_curve(coeffs, bases) ==> denotes(res, msm_log(coeffs, bases))
}

/// The point `res` is the sum of `points`. Nothing is said where some of them is no point
/// of the group.
pub open spec fn is_sum<G: CurveGroup>(res: G, points: Seq<G>) -> bool {
    in_group(points) ==> denotes(res, sum(points.len(), |i: int| point_log(points[i])))
}

/// The bases that have one of `n` coefficients: the first `n` of them, or all where there are
/// fewer.
pub open spec fn paired<C: CurveAffine>(bases: Seq<C>, n: nat) -> Seq<C> {
    if n <= bases.len() {
        bases.take(n as int)
    } else {
        bases
    }
}

/// The coefficients that have none of `n` bases are zero.
pub open spec fn surplus_vanishes<T: Coefficient>(scalars: Seq<T>, n: nat) -> bool {
    forall|i: int| n <= i < scalars.len() ==> (#[trigger] scalars[i]).vanishes()
}

/// The numbers that `scalars` hold.
pub open spec fn small_values<T: SmallScalar>(scalars: Seq<T>) -> Seq<nat> {
    Seq::new(scalars.len(), |i: int| scalars[i].value() as nat)
}

/// One for each of `scalars` that is not zero, and zero for each that is.
pub open spec fn binary_values<T: Coefficient>(scalars: Seq<T>) -> Seq<nat> {
    Seq::new(
        scalars.len(),
        |i: int|
            if scalars[i].vanishes() {
                0nat
            } else {
                1nat
            },
    )
}

/// The numbers that the field elements `scalars` stand for.
pub open spec fn field_values<S: FieldScalar>(scalars: Seq<S>) -> Seq<nat> {
    Seq::new(scalars.len(), |i: int| scalars[i].value())
}

/// The neutral point.
pub(crate) fn zero_point<G: CurveGroup>() -> (res: G)
    ensures
        denotes(res, 0),
{
    proof {
        G::order_is_positive();
        lemma_small_mod(0, G::order() as nat);
    }
    G::identity()
}

/// A row of neutral points.
pub(crate) fn zero_points<G: CurveGroup>(n: usize) -> (res: Vec<G>)
    ensures
        res@.len() == n,
        forall|j: int| 0 <= j < n ==> denotes(#[trigger] res@[j], 0),
{
    let mut res: Vec<G> = Vec::new();
    let mut i: usize = 0;
    while i < n
        invariant
            i <= n,
            res@.len() == i,
            forall|j: int| 0 <= j < i ==> denotes(#[trigger] res@[j], 0),
        decreases n - i,
    {
        res.push(zero_point());
        i += 1;
    }
    res
}

/// The sum of two points.
pub(crate) fn add_points<G: CurveGroup>(a: G, b: G) -> (res: G)
    ensures
        forall|x: int, y: int|
            #![trigger denotes(a, x), denotes(b, y)]
            denotes(a, x) && denotes(b, y) ==> denotes(res, x + y),
{
    let res = a.plus(b);
    proof {
        G::order_is_positive();
        assert forall|x: int, y: int|
            #![trigger denotes(a, x), denotes(b, y)]
            denotes(a, x) && denotes(b, y) implies denotes(res, x + y) by {
            lemma_add_mod_noop(x, y, G::order());
        }
    }
    res
}

/// Twice a point.
pub(crate) fn double_point<G: CurveGroup>(a: G) -> (res: G)
    ensures
        forall|x: int| #![trigger denotes(a, x)] denotes(a, x) ==> denotes(res, 2 * x),
{
    let res = a.double();
    proof {
        G::order_is_positive();
        assert forall|x: int| #![trigger denotes(a, x)] denotes(a, x) implies denotes(
            res,
            2 * x,
        ) by {
            lemma_add_mod_noop(x, x, G::order());
        }
    }
    res
}

/// The sum of a point and a stored point.
pub(crate) fn add_base<C: CurveAffine>(acc: C::Curve, base: C) -> (res: C::Curve)
    ensures
        forall|x: int, y: int|
            #![trigger denotes(acc, x), stands_for(base, y)]
            denotes(acc, x) && stands_for(base, y) ==> denotes(res, x + y),
{
    let res = base.add_to(acc);
    proof {
        C::Curve::order_is_positive();
        assert forall|x: int, y: int|
            #![trigger denotes(acc, x), stands_for(base, y)]
            denotes(acc, x) && stands_for(base, y) implies denotes(res, x + y) by {
            lemma_add_mod_noop(x, y, C::Curve::order());
        }
    }
    res
}

/// The sum of two stored points.
pub(crate) fn add_bases<C: CurveAffine>(a: C, b: C) -> (res: C::Curve)
    ensures
        forall|x: int, y: int|
            #![trigger stands_for(a, x), stands_for(b, y)]
            stands_for(a, x) && stands_for(b, y) ==> denotes(res, x + y),
{
    let res = a.plus(b);
    proof {
        C::Curve::order_is_positive();
        assert forall|x: int, y: int|
            #![trigger stands_for(a, x), stands_for(b, y)]
            stands_for(a, x) && stands_for(b, y) implies denotes(res, x + y) by {
            lemma_add_mod_noop(x, y, C::Curve::order());
        }
    }
    res
}

/// A base on the curve stands for its logarithm.
pub proof fn lemma_base_stands<C: CurveAffine>(p: C)
    requires
        p.log() is Some,
    ensures
        stands_for(p, base_log(p)),
{
    p.log_is_reduced();
    lemma_small_mod(base_log(p) as nat, C::Curve::order() as nat);
}

/// A point of the group denotes its logarithm.
pub proof fn lemma_point_denotes<G: CurveGroup>(p: G)
    requires
        p.log() is Some,
    ensures
        denotes(p, point_log(p)),
{
    p.log_is_reduced();
    lemma_small_mod(point_log(p) as nat, G::order() as nat);
}

} // verus!
