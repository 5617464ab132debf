//! What holds of multi-scalar multiplication, whichever algorithm computes it, and what the
//! words, field elements and points that it is made of stand for.

use halo2curves::bn256::{Fr, G1Affine, G1};
use vstd::arithmetic::div_mod::*;
use vstd::arithmetic::mul::*;
use vstd::prelude::*;
use crate::bn256::{
    fr_equals_one, fr_equals_zero, fr_value, g1_affine_log, g1_log, group_order,
};
use crate::curve::{
    all_summands, base_log, binary_values, denotes, field_values, in_group, is_msm, is_sum,
    msm_log, on_curve, paired, point_log, small_values, surplus_vanishes, Coefficient,
    CurveAffine, CurveGroup, FieldScalar, SmallScalar, Summand,
};
use crate::sums::{
    lemma_sum_add, lemma_sum_eq, lemma_sum_mod, lemma_sum_scale, lemma_sum_split, sum,
};
use crate::windows::lemma_msm_zero;

verus! {

/// Two algorithms that multiply the same bases by the same coefficients return the same
/// point.
pub proof fn law_algorithms_agree<C: CurveAffine>(
    a: C::Curve,
    b: C::Curve,
    coeffs: Seq<nat>,
    bases: Seq<C>,
)
    requires
        on_curve(coeffs, bases),
        is_msm(a, coeffs, bases),
        is_msm(b, coeffs, bases),
    ensures
        a.log() is Some,
        a.log() == b.log(),
{
}

/// A multiplication by machine words and one by the field elements of the same values return
/// the same point.
pub proof fn law_words_and_field_elements_agree<C: CurveAffine, T: SmallScalar>(
    a: C::Curve,
    b: C::Curve,
    words: Seq<T>,
    elements: Seq<C::Scalar>,
    bases: Seq<C>,
)
    requires
        on_curve(small_values(words), bases),
        words.len() == elements.len(),
        forall|i: int|
            0 <= i < words.len() ==> (#[trigger] words[i]).value() == elements[i].value(),
        is_msm(a, small_values(words), bases),
        is_msm(b, field_values(elements), bases),
    ensures
        a.log() is Some,
        a.log() == b.log(),
{
    assert(small_values(words) =~= field_values(elements));
}

/// A multiplication of no bases, or by coefficients that are all zero, returns the neutral
/// point.
pub proof fn law_zero_coefficients<C: CurveAffine>(res: C::Curve, coeffs: Seq<nat>, bases: Seq<C>)
    requires
        coeffs.len() == bases.len(),
        forall|i: int| 0 <= i < coeffs.len() ==> #[trigger] coeffs[i] == 0,
        is_msm(res, coeffs, bases),
    ensures
        res.log() == Some(0int),
{
    lemma_msm_zero(coeffs, bases);
    C::Curve::order_is_positive();
    lemma_small_mod(0, C::Curve::order() as nat);
}

/// Each pair of a coefficient and a base contributes its product, wherever it stands.
pub proof fn law_pair_contributes<C: CurveAffine>(coeffs: Seq<nat>, bases: Seq<C>, i: int)
    requires
        coeffs.len() == bases.len(),
        0 <= i < bases.len(),
    ensures
        msm_log(coeffs, bases) == msm_log(coeffs.remove(i), bases.remove(i)) + coeffs[i]
            * base_log(bases[i]),
{
    let n = bases.len();
    let f = |j: int| coeffs[j] * base_log(bases[j]);
    let c = coeffs.remove(i);
    let b = bases.remove(i);
    let g = |j: int| c[j] * base_log(b[j]);
    let above = (n - i - 1) as nat;
    lemma_sum_split(i as nat, above + 1, f);
    lemma_sum_split(1, above, |j: int| f(i + j));
    lemma_sum_split(i as nat, above, g);
    reveal_with_fuel(sum, 2);
    lemma_sum_eq(i as nat, f, g);
    lemma_sum_eq(above, |j: int| f(i + (1 + j)), |j: int| g(i + j));
    lemma_sum_eq(above, |j: int| (|k: int| f(i + k))(1 + j), |j: int| f(i + (1 + j)));
}

/// The coefficients of a row of pairs.
pub open spec fn coeffs_of<C: CurveAffine>(pairs: Seq<(nat, C)>) -> Seq<nat> {
    Seq::new(pairs.len(), |i: int| pairs[i].0)
}

/// The bases of a row of pairs.
pub open spec fn bases_of<C: CurveAffine>(pairs: Seq<(nat, C)>) -> Seq<C> {
    Seq::new(pairs.len(), |i: int| pairs[i].1)
}

/// The order of the pairs does not matter.
pub proof fn law_order_of_pairs<C: CurveAffine>(a: Seq<(nat, C)>, b: Seq<(nat, C)>)
    requires
        a.to_multiset() == b.to_multiset(),
    ensures
        msm_log(coeffs_of(a), bases_of(a)) == msm_log(coeffs_of(b), bases_of(b)),
    decreases a.len(),
{
    a.to_multiset_ensures();
    b.to_multiset_ensures();
    if a.len() > 0 {
        let i = a.len() - 1;
        assert(b.to_multiset().count(a[i]) > 0);
        assert(b.contains(a[i]));
        let j = choose|j: int| 0 <= j < b.len() && b[j] == a[i];
        law_order_of_pairs(a.remove(i), b.remove(j));
        law_pair_contributes(coeffs_of(a), bases_of(a), i);
        law_pair_contributes(coeffs_of(b), bases_of(b), j);
        assert(coeffs_of(a.remove(i)) =~= coeffs_of(a).remove(i));
        assert(bases_of(a.remove(i)) =~= bases_of(a).remove(i));
        assert(coeffs_of(b.remove(j)) =~= coeffs_of(b).remove(j));
        assert(bases_of(b.remove(j)) =~= bases_of(b).remove(j));
    } else {
        assert(coeffs_of(a) =~= coeffs_of(b));
        assert(bases_of(a) =~= bases_of(b));
    }
}

/// A base whose coefficient is zero can be left out.
pub proof fn law_zero_pair_drops<C: CurveAffine>(coeffs: Seq<nat>, bases: Seq<C>, i: int)
    requires
        coeffs.len() == bases.len(),
        0 <= i < bases.len(),
        coeffs[i] == 0,
    ensures
        msm_log(coeffs, bases) == msm_log(coeffs.remove(i), bases.remove(i)),
{
    law_pair_contributes(coeffs, bases, i);
    lemma_mul_basics(base_log(bases[i]));
}

/// The multiplication of two rows of bases, one after the other, is the sum of the two
/// multiplications.
pub proof fn law_rows_add<C: CurveAffine>(
    coeffs: Seq<nat>,
    bases: Seq<C>,
    more_coeffs: Seq<nat>,
    more_bases: Seq<C>,
)
    requires
        coeffs.len() == bases.len(),
        more_coeffs.len() == more_bases.len(),
    ensures
        msm_log(coeffs + more_coeffs, bases + more_bases) == msm_log(coeffs, bases) + msm_log(
            more_coeffs,
            more_bases,
        ),
{
    let c = coeffs + more_coeffs;
    let b = bases + more_bases;
    let f = |i: int| c[i] * base_log(b[i]);
    lemma_sum_split(bases.len(), more_bases.len(), f);
    lemma_sum_eq(bases.len(), f, |i: int| coeffs[i] * base_log(bases[i]));
    lemma_sum_eq(
        more_bases.len(),
        |i: int| f(bases.len() + i),
        |i: int| more_coeffs[i] * base_log(more_bases[i]),
    );
}

/// Multiplications of the same bases add up to that by the sums of the coefficients.
pub proof fn law_coefficients_add<C: CurveAffine>(
    coeffs: Seq<nat>,
    more_coeffs: Seq<nat>,
    bases: Seq<C>,
)
    requires
        coeffs.len() == bases.len(),
        more_coeffs.len() == bases.len(),
    ensures
        msm_log(Seq::new(bases.len(), |i: int| coeffs[i] + more_coeffs[i]), bases) == msm_log(
            coeffs,
            bases,
        ) + msm_log(more_coeffs, bases),
{
    let both = Seq::new(bases.len(), |i: int| coeffs[i] + more_coeffs[i]);
    let f = |i: int| coeffs[i] * base_log(bases[i]);
    let g = |i: int| more_coeffs[i] * base_log(bases[i]);
    let h = |i: int| both[i] * base_log(bases[i]);
    assert forall|i: int| 0 <= i < bases.len() implies #[trigger] h(i) == f(i) + g(i) by {
        lemma_mul_is_distributive_add_other_way(
            base_log(bases[i]),
            coeffs[i] as int,
            more_coeffs[i] as int,
        );
    }
    lemma_sum_eq(bases.len(), h, |i: int| f(i) + g(i));
    lemma_sum_add(bases.len(), f, g);
}

/// The multiplication by a multiple of the coefficients is that multiple of the
/// multiplication.
pub proof fn law_coefficients_scale<C: CurveAffine>(k: nat, coeffs: Seq<nat>, bases: Seq<C>)
    requires
        coeffs.len() == bases.len(),
    ensures
        msm_log(Seq::new(bases.len(), |i: int| k * coeffs[i]), bases) == k * msm_log(
            coeffs,
            bases,
        ),
{
    let multiple = Seq::new(bases.len(), |i: int| k * coeffs[i]);
    let f = |i: int| coeffs[i] * base_log(bases[i]);
    let g = |i: int| multiple[i] * base_log(bases[i]);
    assert forall|i: int| 0 <= i < bases.len() implies #[trigger] g(i) == k * f(i) by {
        lemma_mul_is_associative(k as int, coeffs[i] as int, base_log(bases[i]));
    }
    lemma_sum_eq(bases.len(), g, |i: int| k * f(i));
    lemma_sum_scale(bases.len(), k as int, f);
}

/// The numbers `x` and `y` agree modulo the order of the group.
pub open spec fn congruent<G: CurveGroup>(x: int, y: int) -> bool {
    x % G::order() == y % G::order()
}

/// Coefficients may be reduced modulo the order of the group: those that agree modulo the order
/// give the same point.
pub proof fn law_coefficients_reduce<C: CurveAffine>(a: Seq<nat>, b: Seq<nat>, bases: Seq<C>)
    requires
        forall|i: int|
            0 <= i < bases.len() ==> congruent::<C::Curve>(#[trigger] a[i] as int, b[i] as int),
    ensures
        congruent::<C::Curve>(msm_log(a, bases), msm_log(b, bases)),
{
    let order = C::Curve::order();
    let f = |i: int| a[i] * base_log(bases[i]);
    let g = |i: int| b[i] * base_log(bases[i]);
    C::Curve::order_is_positive();
    assert forall|i: int| 0 <= i < bases.len() implies #[trigger] f(i) % order == g(i)
        % order by {
        assert(congruent::<C::Curve>(a[i] as int, b[i] as int));
        lemma_mul_mod_noop_left(a[i] as int, base_log(bases[i]), order);
        lemma_mul_mod_noop_left(b[i] as int, base_log(bases[i]), order);
    }
    lemma_sum_mod(bases.len(), f, g, order);
}

/// Multi-scalar multiplication is linear in the coefficients: where each of `c` is `k` times
/// that of `a` and that of `b`, modulo the order, the point for `c` is `k` times that for `a`
/// and that for `b`.
pub proof fn law_linear<C: CurveAffine>(
    for_a: C::Curve,
    for_b: C::Curve,
    for_c: C::Curve,
    k: nat,
    a: Seq<nat>,
    b: Seq<nat>,
    c: Seq<nat>,
    bases: Seq<C>,
)
    requires
        on_curve(a, bases),
        on_curve(b, bases),
        on_curve(c, bases),
        a.len() == bases.len(),
        b.len() == bases.len(),
        forall|i: int|
            0 <= i < bases.len() ==> congruent::<C::Curve>(
                #[trigger] c[i] as int,
                (k * a[i] + b[i]) as int,
            ),
        is_msm(for_a, a, bases),
        is_msm(for_b, b, bases),
        is_msm(for_c, c, bases),
    ensures
        for_a.log() is Some,
        for_b.log() is Some,
        for_c.log() == Some((k * point_log(for_a) + point_log(for_b)) % C::Curve::order()),
{
    let order = C::Curve::order();
    let x = msm_log(a, bases);
    let y = msm_log(b, bases);
    let multiple = Seq::new(bases.len(), |i: int| k * a[i]);
    let whole = Seq::new(bases.len(), |i: int| multiple[i] + b[i]);
    C::Curve::order_is_positive();
    law_coefficients_scale(k, a, bases);
    law_coefficients_add(multiple, b, bases);
    assert forall|i: int| 0 <= i < bases.len() implies congruent::<C::Curve>(
        #[trigger] c[i] as int,
        whole[i] as int,
    ) by {
        assert(whole[i] == k * a[i] + b[i]);
    }
    law_coefficients_reduce(c, whole, bases);
    assert(msm_log(whole, bases) == k * x + y);
    lemma_mul_mod_noop_right(k as int, x, order);
    lemma_add_mod_noop(k * x, y, order);
    lemma_add_mod_noop(k * (x % order), y % order, order);
    lemma_mod_twice(y, order);
}

/// The same of field elements, which a point can be multiplied by.
pub proof fn law_field_elements_linear<C: CurveAffine>(
    for_a: C::Curve,
    for_b: C::Curve,
    for_c: C::Curve,
    k: C::Scalar,
    a: Seq<C::Scalar>,
    b: Seq<C::Scalar>,
    c: Seq<C::Scalar>,
    bases: Seq<C>,
)
    requires
        on_curve(field_values(a), bases),
        on_curve(field_values(b), bases),
        on_curve(field_values(c), bases),
        a.len() == bases.len(),
        b.len() == bases.len(),
        c.len() == bases.len(),
        forall|i: int|
            0 <= i < bases.len() ==> congruent::<C::Curve>(
                (#[trigger] c[i]).value() as int,
                (k.value() * a[i].value() + b[i].value()) as int,
            ),
        is_msm(for_a, field_values(a), bases),
        is_msm(for_b, field_values(b), bases),
        is_msm(for_c, field_values(c), bases),
    ensures
        for_a.log() is Some,
        for_b.log() is Some,
        for_c.log() == Some(
            (k.value() * point_log(for_a) + point_log(for_b)) % C::Curve::order(),
        ),
{
    assert forall|i: int| 0 <= i < bases.len() implies congruent::<C::Curve>(
        #[trigger] field_values(c)[i] as int,
        (k.value() * field_values(a)[i] + field_values(b)[i]) as int,
    ) by {
        assert(c[i].value() == field_values(c)[i]);
    }
    law_linear(
        for_a,
        for_b,
        for_c,
        k.value(),
        field_values(a),
        field_values(b),
        field_values(c),
        bases,
    );
}

/// A machine word stands for itself: widening it keeps the number.
pub proof fn law_words_keep_their_number(a: u8, b: u16, c: u32, d: u64)
    ensures
        a.value() as int == a as int,
        b.value() as int == b as int,
        c.value() as int == c as int,
        d.value() as int == d as int,
{
}

/// The coefficients of a row of words are these words, one for each.
pub proof fn law_words_are_the_coefficients(
    a: Seq<u8>,
    b: Seq<u16>,
    c: Seq<u32>,
    d: Seq<u64>,
)
    ensures
        small_values(a).len() == a.len(),
        small_values(b).len() == b.len(),
        small_values(c).len() == c.len(),
        small_values(d).len() == d.len(),
        forall|i: int| 0 <= i < a.len() ==> #[trigger] small_values(a)[i] == a[i] as int,
        forall|i: int| 0 <= i < b.len() ==> #[trigger] small_values(b)[i] == b[i] as int,
        forall|i: int| 0 <= i < c.len() ==> #[trigger] small_values(c)[i] == c[i] as int,
        forall|i: int| 0 <= i < d.len() ==> #[trigger] small_values(d)[i] == d[i] as int,
{
}

/// Of all the machine integers of a type, the number zero alone vanishes.
pub proof fn law_only_zero_vanishes(
    x_u8: u8,
    x_u16: u16,
    x_u32: u32,
    x_u64: u64,
    x_u128: u128,
    x_usize: usize,
    x_i8: i8,
    x_i16: i16,
    x_i32: i32,
    x_i64: i64,
    x_i128: i128,
    x_isize: isize,
)
    ensures
        x_u8.vanishes() == (x_u8 as int == 0),
        x_u16.vanishes() == (x_u16 as int == 0),
        x_u32.vanishes() == (x_u32 as int == 0),
        x_u64.vanishes() == (x_u64 as int == 0),
        x_u128.vanishes() == (x_u128 as int == 0),
        x_usize.vanishes() == (x_usize as int == 0),
        x_i8.vanishes() == (x_i8 as int == 0),
        x_i16.vanishes() == (x_i16 as int == 0),
        x_i32.vanishes() == (x_i32 as int == 0),
        x_i64.vanishes() == (x_i64 as int == 0),
        x_i128.vanishes() == (x_i128 as int == 0),
        x_isize.vanishes() == (x_isize as int == 0),
{
}

/// In the binary multiplication a coefficient counts as zero where it vanishes, and as one
/// elsewhere.
pub proof fn law_coefficients_count_as_bits<T: Coefficient>(scalars: Seq<T>, i: int)
    requires
        0 <= i < scalars.len(),
    ensures
        binary_values(scalars).len() == scalars.len(),
        scalars[i].vanishes() ==> binary_values(scalars)[i] == 0,
        !scalars[i].vanishes() ==> binary_values(scalars)[i] == 1,
{
}

/// A field element stands for its residue, and is compared as the field compares.
pub proof fn law_field_elements_keep_their_residue(s: Fr)
    ensures
        FieldScalar::value(s) as int == fr_value(s) as int % group_order(),
        FieldScalar::equals_zero(s) == fr_equals_zero(s),
        FieldScalar::equals_one(s) == fr_equals_one(s),
        group_order()
            == 0x30644e72e131a029b85045b68181585d2833e84879b9709143e1f593f0000001int,
{
}

/// The coefficients of a row of field elements are their residues, one for each.
pub proof fn law_residues_are_the_coefficients(scalars: Seq<Fr>)
    ensures
        field_values(scalars).len() == scalars.len(),
        forall|i: int|
            0 <= i < scalars.len() ==> #[trigger] field_values(scalars)[i] as int == fr_value(
                scalars[i],
            ) as int % group_order(),
{
}

/// A point, in whichever of the two forms, is known by the multiple of the generator that its
/// coordinates are those of.
pub proof fn law_points_keep_their_logarithm(p: G1, q: G1Affine, k: int)
    ensures
        <G1 as CurveGroup>::order() == group_order(),
        g1_log(p) == Some(k) ==> CurveGroup::log(p) == Some(k % group_order()),
        g1_log(p) is None ==> CurveGroup::log(p) is None,
        g1_affine_log(q) == Some(k) ==> CurveAffine::log(q) == Some(k % group_order()),
        g1_affine_log(q) is None ==> CurveAffine::log(q) is None,
        Summand::<G1>::summand_log(p) == CurveGroup::log(p),
        Summand::<G1>::summand_log(q) == CurveAffine::log(q),
{
}

/// To be the multiple of the generator by a number is to have that number, modulo the order,
/// for the logarithm.
pub proof fn law_multiples_of_the_generator<C: CurveAffine>(p: C::Curve, q: C, x: int, k: int)
    ensures
        denotes(p, x) ==> p.log() == Some(x % C::Curve::order()),
        p.log() == Some(x % C::Curve::order()) ==> denotes(p, x),
        p.log() == Some(k) ==> point_log(p) == k,
        q.log() == Some(k) ==> base_log(q) == k,
{
}

/// A multiplication of no bases returns the neutral point.
pub proof fn law_msm_of_nothing<C: CurveAffine>(res: C::Curve, coeffs: Seq<nat>)
    requires
        is_msm(res, coeffs, Seq::<C>::empty()),
    ensures
        res.log() == Some(0int),
{
    C::Curve::order_is_positive();
    lemma_small_mod(0, C::Curve::order() as nat);
}

/// One more pair adds its product: the multiplication of a row and of one base more is the
/// multiplication of the row, and that base as often as its coefficient says.
pub proof fn law_msm_of_one_pair_more<C: CurveAffine>(
    fewer: C::Curve,
    more: C::Curve,
    coeffs: Seq<nat>,
    bases: Seq<C>,
    coeff: nat,
    base: C,
    k: int,
)
    requires
        coeffs.len() == bases.len(),
        forall|i: int|
            0 <= i < bases.len() && coeffs[i] != 0 ==> (#[trigger] bases[i]).log() is Some,
        base.log() == Some(k),
        is_msm(fewer, coeffs, bases),
        is_msm(more, coeffs.push(coeff), bases.push(base)),
    ensures
        fewer.log() matches Some(x) && more.log() == Some(
            (x + coeff * k) % C::Curve::order(),
        ),
{
    let order = C::Curve::order();
    let n = bases.len();
    let f = |i: int| coeffs[i] * base_log(bases[i]);
    let c = coeffs.push(coeff);
    let b = bases.push(base);
    let g = |i: int| c[i] * base_log(b[i]);
    C::Curve::order_is_positive();
    assert(on_curve(coeffs, bases));
    assert forall|i: int| 0 <= i < b.len() && c[i] != 0 implies (#[trigger] b[i]).log() is Some by {
        if i < n {
            assert(bases[i].log() is Some);
        }
    }
    assert(on_curve(c, b));
    lemma_sum_eq(n, f, g);
    assert(sum(n + 1, g) == sum(n, g) + g(n as int));
    assert(msm_log(c, b) == msm_log(coeffs, bases) + coeff * k);
    lemma_add_mod_noop(msm_log(coeffs, bases), coeff * k, order);
    lemma_add_mod_noop(msm_log(coeffs, bases) % order, coeff * k, order);
    lemma_mod_twice(msm_log(coeffs, bases), order);
}

/// One more pair whose coefficient is zero adds nothing, whatever its base is.
pub proof fn law_msm_of_one_zero_more<C: CurveAffine>(
    fewer: C::Curve,
    more: C::Curve,
    coeffs: Seq<nat>,
    bases: Seq<C>,
    base: C,
)
    requires
        coeffs.len() == bases.len(),
        forall|i: int|
            0 <= i < bases.len() && coeffs[i] != 0 ==> (#[trigger] bases[i]).log() is Some,
        is_msm(fewer, coeffs, bases),
        is_msm(more, coeffs.push(0), bases.push(base)),
    ensures
        fewer.log() is Some,
        more.log() == fewer.log(),
{
    let n = bases.len();
    let f = |i: int| coeffs[i] * base_log(bases[i]);
    let c = coeffs.push(0);
    let b = bases.push(base);
    let g = |i: int| c[i] * base_log(b[i]);
    assert(on_curve(coeffs, bases));
    assert forall|i: int| 0 <= i < b.len() && c[i] != 0 implies (#[trigger] b[i]).log() is Some by {
        assert(bases[i].log() is Some);
    }
    assert(on_curve(c, b));
    lemma_sum_eq(n, f, g);
    lemma_mul_basics(base_log(base));
    assert(sum(n + 1, g) == sum(n, g) + g(n as int));
}

/// A sum of no points is the neutral point.
pub proof fn law_sum_of_nothing<G: CurveGroup>(res: G)
    requires
        is_sum(res, Seq::<G>::empty()),
    ensures
        res.log() == Some(0int),
{
    G::order_is_positive();
    lemma_small_mod(0, G::order() as nat);
}

/// One more point adds its logarithm to that of the sum.
pub proof fn law_sum_of_one_point_more<G: CurveGroup>(
    fewer: G,
    more: G,
    points: Seq<G>,
    point: G,
    k: int,
)
    requires
        forall|i: int| 0 <= i < points.len() ==> (#[trigger] points[i]).log() is Some,
        point.log() == Some(k),
        is_sum(fewer, points),
        is_sum(more, points.push(point)),
    ensures
        fewer.log() matches Some(x) && more.log() == Some((x + k) % G::order()),
{
    let order = G::order();
    let n = points.len();
    let all = points.push(point);
    let f = |i: int| point_log(points[i]);
    let g = |i: int| point_log(all[i]);
    G::order_is_positive();
    assert(in_group(points));
    assert forall|i: int| 0 <= i < all.len() implies (#[trigger] all[i]).log() is Some by {
        if i < n {
            assert(points[i].log() is Some);
        }
    }
    assert(in_group(all));
    lemma_sum_eq(n, f, g);
    assert(sum(n + 1, g) == sum(n, g) + g(n as int));
    lemma_add_mod_noop(sum(n, f), k, order);
    lemma_add_mod_noop(sum(n, f) % order, k, order);
    lemma_mod_twice(sum(n, f), order);
}

/// The bases that have one of `n` coefficients are the first ones, as many as there are both.
pub proof fn law_paired_bases<C: CurveAffine>(bases: Seq<C>, n: nat, i: int)
    ensures
        n <= bases.len() ==> paired(bases, n).len() == n,
        n >= bases.len() ==> paired(bases, n).len() == bases.len(),
        0 <= i < n && i < bases.len() ==> paired(bases, n)[i] == bases[i],
{
}

/// Surplus coefficients are accepted exactly where all of them are zero.
pub proof fn law_surplus<T: Coefficient>(scalars: Seq<T>, n: nat)
    ensures
        scalars.len() <= n ==> surplus_vanishes(scalars, n),
        n < scalars.len() ==> surplus_vanishes(scalars, n) == (surplus_vanishes(scalars, n + 1)
            && scalars[n as int].vanishes()),
{
    if n < scalars.len() && surplus_vanishes(scalars, n + 1) && scalars[n as int].vanishes() {
        assert forall|i: int| n <= i < scalars.len() implies (
        #[trigger] scalars[i]).vanishes() by {
            if i > n {
                assert(scalars[i].vanishes());
            }
        }
    }
}

/// A row of summands is one of points exactly where each of them is.
pub proof fn law_rows_of_summands<G: CurveGroup, C: Summand<G>>(inputs: Seq<C>, input: C)
    ensures
        all_summands::<G, C>(Seq::empty()),
        all_summands::<G, C>(inputs.push(input)) == (all_summands::<G, C>(inputs)
            && input.summand_log() is Some),
{
    let all = inputs.push(input);
    if all_summands::<G, C>(all) {
        assert(all[inputs.len() as int].summand_log() is Some);
        assert forall|i: int| 0 <= i < inputs.len() implies (
        #[trigger] inputs[i]).summand_log() is Some by {
            assert(all[i].summand_log() is Some);
        }
    }
    if all_summands::<G, C>(inputs) && input.summand_log() is Some {
        assert forall|i: int| 0 <= i < all.len() implies (
        #[trigger] all[i]).summand_log() is Some by {
            if i < inputs.len() {
                assert(inputs[i].summand_log() is Some);
            }
        }
    }
}

} // verus!
