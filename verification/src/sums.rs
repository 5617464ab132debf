//! Finite sums of integers, and the laws that the algorithms rest on.

use vstd::arithmetic::div_mod::*;
use vstd::prelude::*;

verus! {

/// `f(0) + f(1) + .. + f(n - 1)`.
pub open spec fn sum(n: nat, f: spec_fn(int) -> int) -> int
    decreases n,
{
    if n == 0 {
        0
    } else {
        sum((n - 1) as nat, f) + f(n - 1)
    }
}

/// Sums of functions that agree below `n` are equal.
pub proof fn lemma_sum_eq(n: nat, f: spec_fn(int) -> int, g: spec_fn(int) -> int)
    requires
        forall|i: int| 0 <= i < n ==> #[trigger] f(i) == g(i),
    ensures
        sum(n, f) == sum(n, g),
    decreases n,
{
    if n > 0 {
        lemma_sum_eq((n - 1) as nat, f, g);
    }
}

/// A sum of zeros is zero.
pub proof fn lemma_sum_zero(n: nat, f: spec_fn(int) -> int)
    requires
        forall|i: int| 0 <= i < n ==> #[trigger] f(i) == 0,
    ensures
        sum(n, f) == 0,
    decreases n,
{
    if n > 0 {
        lemma_sum_zero((n - 1) as nat, f);
    }
}

/// Addition goes under the sum.
pub proof fn lemma_sum_add(n: nat, f: spec_fn(int) -> int, g: spec_fn(int) -> int)
    ensures
        sum(n, |i: int| f(i) + g(i)) == sum(n, f) + sum(n, g),
    decreases n,
{
    if n > 0 {
        lemma_sum_add((n - 1) as nat, f, g);
    }
}

/// A constant factor goes under the sum.
pub proof fn lemma_sum_scale(n: nat, c: int, f: spec_fn(int) -> int)
    ensures
        sum(n, |i: int| c * f(i)) == c * sum(n, f),
    decreases n,
{
    if n > 0 {
        lemma_sum_scale((n - 1) as nat, c, f);
        let rest = sum((n - 1) as nat, f);
        let last = f(n - 1);
        assert(c * (rest + last) == c * rest + c * last) by (nonlinear_arith);
    } else {
        assert(c * 0 == 0) by (nonlinear_arith);
    }
}

/// A sum over `m + n` places is the sum over the first `m` and that over the rest.
pub proof fn lemma_sum_split(m: nat, n: nat, f: spec_fn(int) -> int)
    ensures
        sum(m + n, f) == sum(m, f) + sum(n, |i: int| f(m + i)),
    decreases n,
{
    if n > 0 {
        lemma_sum_split(m, (n - 1) as nat, f);
        assert((m + n - 1) as nat == m + (n - 1) as nat);
    }
}

/// A sum with at most one nonzero place is what stands there.
pub proof fn lemma_sum_single(n: nat, k: int, f: spec_fn(int) -> int)
    requires
        0 <= k < n,
        forall|i: int| 0 <= i < n && i != k ==> #[trigger] f(i) == 0,
    ensures
        sum(n, f) == f(k),
    decreases n,
{
    if k == n - 1 {
        lemma_sum_zero((n - 1) as nat, f);
    } else {
        assert(f(n - 1) == 0);
        lemma_sum_single((n - 1) as nat, k, f);
    }
}

/// Two sums may be taken in either order.
pub proof fn lemma_sum_swap(m: nat, n: nat, h: spec_fn(int, int) -> int)
    ensures
        sum(m, |a: int| sum(n, |b: int| h(a, b))) == sum(n, |b: int| sum(m, |a: int| h(a, b))),
    decreases m,
{
    let columns = |b: int| sum(m, |a: int| h(a, b));
    if m == 0 {
        lemma_sum_zero(n, columns);
    } else {
        let k = (m - 1) as nat;
        lemma_sum_swap(k, n, h);
        let head = |b: int| sum(k, |a: int| h(a, b));
        let last = |b: int| h(k as int, b);
        lemma_sum_add(n, head, last);
        lemma_sum_eq(n, columns, |b: int| head(b) + last(b));
        let rows = |a: int| sum(n, |b: int| h(a, b));
        assert(rows(k as int) == sum(n, |b: int| h(k as int, b)));
        assert(sum(m, rows) == sum(k, rows) + rows(k as int));
    }
}

/// Sums of functions that agree modulo `m` agree modulo `m`.
pub proof fn lemma_sum_mod(n: nat, f: spec_fn(int) -> int, g: spec_fn(int) -> int, m: int)
    requires
        m > 0,
        forall|i: int| 0 <= i < n ==> #[trigger] f(i) % m == g(i) % m,
    ensures
        sum(n, f) % m == sum(n, g) % m,
    decreases n,
{
    if n > 0 {
        let k = (n - 1) as nat;
        lemma_sum_mod(k, f, g, m);
        assert(f(k as int) % m == g(k as int) % m);
        lemma_add_mod_noop(sum(k, f), f(k as int), m);
        lemma_add_mod_noop(sum(k, g), g(k as int), m);
    }
}

/// A sum of one place more has what stands there more, and a sum of no places is zero.
pub proof fn law_sum_of_one_place_more(n: nat, f: spec_fn(int) -> int)
    ensures
        sum(0, f) == 0,
        sum(n + 1, f) == sum(n, f) + f(n as int),
{
}

} // verus!
