//! The first group of the bn256 pairing, as the crate `halo2curves` computes in it.
//!
//! Its points are those of `y^2 = x^3 + 3` over the base field, a group of prime order, so
//! that every point is one multiple of the generator.

use ff::{Field, PrimeField};
use halo2curves::bn256::{Fr, G1Affine, G1};
use halo2curves::group::prime::PrimeCurveAffine;
use halo2curves::group::Group;
use vstd::arithmetic::div_mod::*;
use vstd::arithmetic::power2::*;
use vstd::prelude::*;
use crate::bytes::le_value;
use crate::curve::{CurveAffine, CurveGroup, FieldScalar, Summand};

verus! {

/// `halo2curves::bn256::G1`: three homogeneous coordinates.
#[verifier::external_type_specification]
#[verifier::external_body]
pub struct ExG1(G1);

/// `halo2curves::bn256::G1Affine`: two coordinates.
#[verifier::external_type_specification]
#[verifier::external_body]
pub struct ExG1Affine(G1Affine);

/// `halo2curves::bn256::Fr`: an element of the scalar field.
#[verifier::external_type_specification]
#[verifier::external_body]
pub struct ExFr(Fr);

/// The number of points, which is the modulus of the scalar field.
pub open spec fn group_order() -> int {
    0x30644e72e131a029b85045b68181585d2833e84879b9709143e1f593f0000001int
}

/// What a value of `G1` holds: `Some(k)`, with `0 <= k < group_order()`, where its
/// coordinates, all of them below the modulus of the base field, are those of `k` times the
/// generator, and `None` where they are not below it, or those of no point of the curve.
pub uninterp spec fn g1_log(p: G1) -> Option<int>;

/// What a value of `G1Affine` holds, in the same way.
pub uninterp spec fn g1_affine_log(p: G1Affine) -> Option<int>;

/// What a value of `Fr` holds: the number below `group_order()` that its limbs stand for in
/// Montgomery form. Limbs that are not below the modulus stand for the same number as those
/// that they are congruent to.
pub uninterp spec fn fr_value(s: Fr) -> nat;

/// Whether `Fr`'s `==` tells a value equal to `Field::ZERO`.
pub uninterp spec fn fr_equals_zero(s: Fr) -> bool;

/// Whether `Fr`'s `==` tells a value equal to `Field::ONE`.
pub uninterp spec fn fr_equals_one(s: Fr) -> bool;

/// Calls `Group::identity` of `G1`: the coordinates of the point at infinity, which is zero
/// times the generator.
#[verifier::external_body]
fn g1_identity() -> (res: G1)
    ensures
        g1_log(res) == Some(0int),
{
    <G1 as Group>::identity()
}

/// Calls `Add` of `G1` and `G1`: the sum of two points, by formulas without exceptional
/// cases. Off the curve nothing is claimed.
#[verifier::external_body]
fn g1_add(a: G1, b: G1) -> (res: G1)
    ensures
        g1_log(a) matches Some(x) ==> g1_log(b) matches Some(y) ==> g1_log(res) == Some(
            (x + y) % group_order(),
        ),
{
    a + b
}

/// Calls `Group::double` of `G1`: the sum of a point and itself. Off the curve nothing is
/// claimed.
#[verifier::external_body]
fn g1_double(a: G1) -> (res: G1)
    ensures
        g1_log(a) matches Some(x) ==> g1_log(res) == Some((x + x) % group_order()),
{
    <G1 as Group>::double(&a)
}

/// Calls `Add` of `G1` and `G1Affine`: the sum of two points in different coordinates. Off
/// the curve nothing is claimed.
#[verifier::external_body]
fn g1_add_affine(a: G1, b: G1Affine) -> (res: G1)
    ensures
        g1_log(a) matches Some(x) ==> g1_affine_log(b) matches Some(y) ==> g1_log(res) == Some(
            (x + y) % group_order(),
        ),
{
    a + b
}

/// Calls `PrimeCurveAffine::identity` of `G1Affine`: the coordinates that stand for the
/// point at infinity, which is zero times the generator.
#[verifier::external_body]
fn g1_affine_identity() -> (res: G1Affine)
    ensures
        g1_affine_log(res) == Some(0int),
{
    <G1Affine as PrimeCurveAffine>::identity()
}

/// Calls `From<G1Affine>` of `G1`: the same point in other coordinates. Off the curve
/// nothing is claimed.
#[verifier::external_body]
fn g1_from_affine(a: G1Affine) -> (res: G1)
    ensures
        g1_affine_log(a) matches Some(x) ==> g1_log(res) == Some(x),
{
    G1::from(a)
}

/// Calls `Add` of `G1Affine` and `G1Affine`: the sum of two points. Off the curve nothing
/// is claimed.
#[verifier::external_body]
fn g1_affine_add(a: G1Affine, b: G1Affine) -> (res: G1)
    ensures
        g1_affine_log(a) matches Some(x) ==> g1_affine_log(b) matches Some(y) ==> g1_log(res)
            == Some((x + y) % group_order()),
{
    a + b
}

/// Calls `Mul` of `G1Affine` and `Fr`: the point, doubled and added along the bits of the
/// scalar's bytes, from the point at infinity on. Where all the bits are zero, that is never
/// left, whatever the coordinates of `a` are. Off the curve nothing else is claimed.
#[verifier::external_body]
fn g1_affine_mul(a: G1Affine, s: Fr) -> (res: G1)
    ensures
        fr_value(s) % (group_order() as nat) == 0 ==> g1_log(res) == Some(0int),
        g1_affine_log(a) matches Some(x) ==> g1_log(res) == Some(
            (x * fr_value(s)) % group_order(),
        ),
{
    a * s
}

/// Calls `PrimeField::to_repr` of `Fr`: the residue below the modulus, in thirty-two bytes,
/// the least significant one first.
#[verifier::external_body]
fn fr_to_repr(s: Fr) -> (res: [u8; 32])
    ensures
        le_value(res@) == fr_value(s) % (group_order() as nat),
{
    <Fr as PrimeField>::to_repr(&s).into()
}

/// Calls `PartialEq` of `Fr` with `Field::ZERO`, which compares the limbs: what it tells equal
/// stands for zero. That limbs which are not below the modulus may stand for zero too, and are
/// told unequal, is why the converse is not claimed.
#[verifier::external_body]
fn fr_is_zero(s: Fr) -> (res: bool)
    ensures
        res == fr_equals_zero(s),
        res ==> fr_value(s) % (group_order() as nat) == 0,
{
    s == Fr::ZERO
}

/// Calls `PartialEq` of `Fr` with `Field::ONE`, which compares the limbs: what it tells equal
/// stands for one. That limbs which are not below the modulus may stand for one too, and are
/// told unequal, is why the converse is not claimed.
#[verifier::external_body]
fn fr_is_one(s: Fr) -> (res: bool)
    ensures
        res == fr_equals_one(s),
        res ==> fr_value(s) % (group_order() as nat) == 1,
{
    s == Fr::ONE
}

/// A logarithm, brought below the order.
pub open spec fn reduced(log: Option<int>) -> Option<int> {
    match log {
        Some(k) => Some(k % group_order()),
        None => None,
    }
}

impl FieldScalar for Fr {
    open spec fn value(self) -> nat {
        fr_value(self) % (group_order() as nat)
    }

    open spec fn equals_zero(self) -> bool {
        fr_equals_zero(self)
    }

    open spec fn equals_one(self) -> bool {
        fr_equals_one(self)
    }

    proof fn value_fits(self) {
        lemma2_to64_rest();
        lemma_pow2_adds(64, 64);
        lemma_pow2_adds(128, 128);
        assert(0x1_0000_0000_0000_0000int * 0x1_0000_0000_0000_0000int
            == 0x1_0000_0000_0000_0000_0000_0000_0000_0000int);
        assert(group_order() < 0x1_0000_0000_0000_0000_0000_0000_0000_0000int
            * 0x1_0000_0000_0000_0000_0000_0000_0000_0000int);
    }

    fn is_zero(self) -> (res: bool) {
        fr_is_zero(self)
    }

    fn is_one(self) -> (res: bool) {
        fr_is_one(self)
    }

    fn to_repr(self) -> (res: [u8; 32]) {
        fr_to_repr(self)
    }
}

impl CurveGroup for G1 {
    open spec fn order() -> int {
        group_order()
    }

    open spec fn log(self) -> Option<int> {
        reduced(g1_log(self))
    }

    proof fn order_is_positive() {
    }

    proof fn log_is_reduced(self) {
    }

    fn identity() -> (res: Self) {
        g1_identity()
    }

    fn plus(self, other: Self) -> (res: Self) {
        let res = g1_add(self, other);
        proof {
            if let (Some(x), Some(y)) = (g1_log(self), g1_log(other)) {
                lemma_add_mod_noop(x, y, group_order());
                lemma_mod_twice(x + y, group_order());
            }
        }
        res
    }

    fn double(self) -> (res: Self) {
        let res = g1_double(self);
        proof {
            if let Some(x) = g1_log(self) {
                lemma_add_mod_noop(x, x, group_order());
                lemma_mod_twice(x + x, group_order());
            }
        }
        res
    }
}

impl CurveAffine for G1Affine {
    type Curve = G1;

    type Scalar = Fr;

    open spec fn log(self) -> Option<int> {
        reduced(g1_affine_log(self))
    }

    proof fn log_is_reduced(self) {
    }

    fn identity() -> (res: Self) {
        g1_affine_identity()
    }

    fn to_curve(self) -> (res: G1) {
        g1_from_affine(self)
    }

    fn plus(self, other: Self) -> (res: G1) {
        let res = g1_affine_add(self, other);
        proof {
            if let (Some(x), Some(y)) = (g1_affine_log(self), g1_affine_log(other)) {
                lemma_add_mod_noop(x, y, group_order());
                lemma_mod_twice(x + y, group_order());
            }
        }
        res
    }

    fn add_to(self, acc: G1) -> (res: G1) {
        let res = g1_add_affine(acc, self);
        proof {
            if let (Some(x), Some(y)) = (g1_log(acc), g1_affine_log(self)) {
                lemma_add_mod_noop(x, y, group_order());
                lemma_mod_twice(x + y, group_order());
            }
        }
        res
    }

    fn mul(self, scalar: Fr) -> (res: G1) {
        let res = g1_affine_mul(self, scalar);
        proof {
            if let Some(x) = g1_affine_log(self) {
                let s = fr_value(scalar) as int;
                lemma_mul_mod_noop_general(x, s, group_order());
                lemma_mod_twice(x * s, group_order());
            }
        }
        res
    }
}

impl Summand<G1> for G1Affine {
    open spec fn summand_log(self) -> Option<int> {
        self.log()
    }

    proof fn summand_log_is_reduced(self) {
        self.log_is_reduced();
    }

    fn sum_with(self, other: Self) -> (res: G1) {
        self.plus(other)
    }

    fn alone(self) -> (res: G1) {
        g1_from_affine(self)
    }
}

} // verus!
