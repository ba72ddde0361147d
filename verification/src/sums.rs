//! Finite sums of integers and the facts about them that the proofs use.

use vstd::prelude::*;

verus! {

/// The sum of a sequence.
pub open spec fn sum(s: Seq<int>) -> int
    decreases s.len(),
{
    if s.len() == 0 {
        0
    } else {
        sum(s.drop_last()) + s.last()
    }
}

pub proof fn lemma_sum_step(s: Seq<int>, i: int)
    requires
        0 <= i < s.len(),
    ensures
        sum(s.take(i + 1)) == sum(s.take(i)) + s[i],
{
    assert(s.take(i + 1).drop_last() =~= s.take(i));
}

pub proof fn lemma_sum_push(s: Seq<int>, x: int)
    ensures
        sum(s.push(x)) == sum(s) + x,
{
    assert(s.push(x).drop_last() =~= s);
}

pub proof fn lemma_sum_nonneg(s: Seq<int>)
    requires
        forall|i: int| 0 <= i < s.len() ==> s[i] >= 0,
    ensures
        sum(s) >= 0,
    decreases s.len(),
{
    if s.len() > 0 {
        lemma_sum_nonneg(s.drop_last());
    }
}

pub proof fn lemma_sum_le(a: Seq<int>, b: Seq<int>)
    requires
        a.len() == b.len(),
        forall|i: int| 0 <= i < a.len() ==> a[i] <= b[i],
    ensures
        sum(a) <= sum(b),
    decreases a.len(),
{
    if a.len() > 0 {
        lemma_sum_le(a.drop_last(), b.drop_last());
    }
}

/// The sum of elementwise sums.
pub proof fn lemma_sum_add(a: Seq<int>, b: Seq<int>, c: Seq<int>)
    requires
        a.len() == b.len() == c.len(),
        forall|i: int| 0 <= i < a.len() ==> c[i] == a[i] + b[i],
    ensures
        sum(c) == sum(a) + sum(b),
    decreases a.len(),
{
    if a.len() > 0 {
        lemma_sum_add(a.drop_last(), b.drop_last(), c.drop_last());
    }
}

pub proof fn lemma_sum_scale(a: Seq<int>, k: int, c: Seq<int>)
    requires
        a.len() == c.len(),
        forall|i: int| 0 <= i < a.len() ==> c[i] == k * a[i],
    ensures
        sum(c) == k * sum(a),
    decreases a.len(),
{
    if a.len() > 0 {
        lemma_sum_scale(a.drop_last(), k, c.drop_last());
        assert(k * (sum(a.drop_last()) + a.last()) == k * sum(a.drop_last()) + k * a.last())
            by (nonlinear_arith);
    } else {
        assert(k * 0 == 0) by (nonlinear_arith);
    }
}

pub proof fn lemma_sum_zero(s: Seq<int>)
    requires
        forall|i: int| 0 <= i < s.len() ==> s[i] == 0,
    ensures
        sum(s) == 0,
    decreases s.len(),
{
    if s.len() > 0 {
        lemma_sum_zero(s.drop_last());
    }
}

/// No element of a sequence of non-negative numbers is over the sum.
pub proof fn lemma_sum_bounds_element(s: Seq<int>, i: int)
    requires
        0 <= i < s.len(),
        forall|j: int| 0 <= j < s.len() ==> s[j] >= 0,
    ensures
        s[i] <= sum(s),
    decreases s.len(),
{
    if i == s.len() - 1 {
        lemma_sum_nonneg(s.drop_last());
    } else {
        lemma_sum_bounds_element(s.drop_last(), i);
    }
}

/// Every prefix of a sequence of non-negative numbers sums to at most the whole.
pub proof fn lemma_sum_prefix(s: Seq<int>, i: int)
    requires
        0 <= i <= s.len(),
        forall|j: int| 0 <= j < s.len() ==> s[j] >= 0,
    ensures
        0 <= sum(s.take(i)) <= sum(s),
    decreases s.len() - i,
{
    lemma_sum_nonneg(s.take(i));
    if i < s.len() {
        lemma_sum_step(s, i);
        lemma_sum_prefix(s, i + 1);
    } else {
        assert(s.take(i) =~= s);
    }
}

pub proof fn lemma_sum_concat(a: Seq<int>, b: Seq<int>)
    ensures
        sum(a + b) == sum(a) + sum(b),
    decreases b.len(),
{
    if b.len() > 0 {
        assert((a + b).drop_last() =~= a + b.drop_last());
        lemma_sum_concat(a, b.drop_last());
    } else {
        assert(a + b =~= a);
    }
}

pub proof fn lemma_sum_update(s: Seq<int>, i: int, x: int)
    requires
        0 <= i < s.len(),
    ensures
        sum(s.update(i, x)) == sum(s) - s[i] + x,
    decreases s.len(),
{
    if i == s.len() - 1 {
        assert(s.update(i, x).drop_last() =~= s.drop_last());
    } else {
        assert(s.update(i, x).drop_last() =~= s.drop_last().update(i, x));
        lemma_sum_update(s.drop_last(), i, x);
    }
}

pub proof fn lemma_sum_multiple(s: Seq<int>, d: int)
    requires
        d > 0,
        forall|i: int| 0 <= i < s.len() ==> s[i] % d == 0,
    ensures
        sum(s) % d == 0,
    decreases s.len(),
{
    if s.len() > 0 {
        lemma_sum_multiple(s.drop_last(), d);
        lemma_multiples_add(sum(s.drop_last()), s.last(), d);
    } else {
        vstd::arithmetic::div_mod::lemma_small_mod(0, d as nat);
    }
}

pub proof fn lemma_multiples_add(a: int, b: int, d: int)
    requires
        d > 0,
        a % d == 0,
        b % d == 0,
    ensures
        (a + b) % d == 0,
        (a - b) % d == 0,
{
    vstd::arithmetic::div_mod::lemma_add_mod_noop(a, b, d);
    vstd::arithmetic::div_mod::lemma_sub_mod_noop(a, b, d);
    vstd::arithmetic::div_mod::lemma_small_mod(0, d as nat);
}

/// Two multiples of `d` that differ do so by at least `d`.
pub proof fn lemma_multiples_gap(a: int, b: int, d: int)
    requires
        d > 0,
        a % d == 0,
        b % d == 0,
        a < b,
    ensures
        b - a >= d,
{
    lemma_multiples_add(b, a, d);
    if b - a < d {
        vstd::arithmetic::div_mod::lemma_small_mod((b - a) as nat, d as nat);
    }
}

/// A sum of nothing is zero, and one more term adds itself.
pub proof fn sums_add_up(s: Seq<int>, x: int)
    ensures
        sum(Seq::empty()) == 0,
        sum(s.push(x)) == sum(s) + x,
{
    assert(s.push(x).drop_last() =~= s);
}

} // verus!
