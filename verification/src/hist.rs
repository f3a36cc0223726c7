//! The histogram model: spec-level sums over a sequence of bin counts, and
//! the lemmas the executable code needs about them.
//!
//! A histogram is a sequence of bin counts; bin `i` holds the number of
//! balls that came to rest in slot `i`. Three sums describe it:
//! the total number of balls, the index-weighted sum (the numerator of the
//! mean), and the squared-index-weighted sum (the numerator of the second
//! moment). Mean and variance of the empirical distribution are exact
//! rational functions of these three integers.

use vstd::prelude::*;
use vstd::arithmetic::mul::{
    lemma_mul_inequality, lemma_mul_is_distributive_add, lemma_mul_nonnegative,
};

verus! {

/// The total number of balls a histogram holds: the sum of its entries.
pub open spec fn total_of(s: Seq<usize>) -> int
    decreases s.len(),
{
    if s.len() == 0 {
        0
    } else {
        total_of(s.drop_last()) + s.last()
    }
}

/// The index-weighted sum of the entries: the sum of `i * s[i]`.
pub open spec fn weighted_of(s: Seq<usize>) -> int
    decreases s.len(),
{
    if s.len() == 0 {
        0
    } else {
        weighted_of(s.drop_last()) + (s.len() - 1) * s.last()
    }
}

/// The squared-index-weighted sum of the entries: the sum of `i * i * s[i]`.
pub open spec fn weighted_sq_of(s: Seq<usize>) -> int
    decreases s.len(),
{
    if s.len() == 0 {
        0
    } else {
        weighted_sq_of(s.drop_last()) + (s.len() - 1) * (s.len() - 1) * s.last()
    }
}

/// Every entry contributes non-negatively, so all three sums are non-negative.
pub proof fn lemma_sums_nonneg(s: Seq<usize>)
    ensures
        total_of(s) >= 0,
        weighted_of(s) >= 0,
        weighted_sq_of(s) >= 0,
    decreases s.len(),
{
    if s.len() > 0 {
        lemma_sums_nonneg(s.drop_last());
        lemma_mul_nonnegative(s.len() - 1, s.last() as int);
        lemma_mul_nonnegative((s.len() - 1) * (s.len() - 1), s.last() as int);
        lemma_mul_nonnegative(s.len() - 1, s.len() - 1);
    }
}

/// Extending a prefix by one entry adds that entry's contribution to each sum.
pub proof fn lemma_take_step(s: Seq<usize>, i: int)
    requires
        0 <= i < s.len(),
    ensures
        total_of(s.take(i + 1)) == total_of(s.take(i)) + s[i],
        weighted_of(s.take(i + 1)) == weighted_of(s.take(i)) + i * s[i],
        weighted_sq_of(s.take(i + 1)) == weighted_sq_of(s.take(i)) + i * i * s[i],
{
    let t = s.take(i + 1);
    assert(t.drop_last() =~= s.take(i));
    assert(t.last() == s[i]);
}

/// A prefix's sums never exceed the whole sequence's sums.
pub proof fn lemma_take_le(s: Seq<usize>, i: int)
    requires
        0 <= i <= s.len(),
    ensures
        total_of(s.take(i)) <= total_of(s),
        weighted_of(s.take(i)) <= weighted_of(s),
        weighted_sq_of(s.take(i)) <= weighted_sq_of(s),
    decreases s.len() - i,
{
    if i == s.len() {
        assert(s.take(i) =~= s);
    } else {
        lemma_take_step(s, i);
        lemma_take_le(s, i + 1);
        lemma_mul_nonnegative(i, s[i] as int);
        lemma_mul_nonnegative(i * i, s[i] as int);
        lemma_mul_nonnegative(i, i);
        assert(i * i * s[i] == (i * i) * s[i]);
    }
}

/// No single entry exceeds the total.
pub proof fn lemma_entry_le_total(s: Seq<usize>, i: int)
    requires
        0 <= i < s.len(),
    ensures
        s[i] <= total_of(s),
    decreases s.len(),
{
    if i == s.len() - 1 {
        lemma_sums_nonneg(s.drop_last());
    } else {
        lemma_entry_le_total(s.drop_last(), i);
    }
}

/// Replacing one entry changes the total by the difference of the entries.
pub proof fn lemma_total_update(s: Seq<usize>, i: int, v: usize)
    requires
        0 <= i < s.len(),
    ensures
        total_of(s.update(i, v)) == total_of(s) - s[i] + v,
    decreases s.len(),
{
    let u = s.update(i, v);
    if i == s.len() - 1 {
        assert(u.drop_last() =~= s.drop_last());
    } else {
        assert(u.drop_last() =~= s.drop_last().update(i, v));
        lemma_total_update(s.drop_last(), i, v);
    }
}

/// Appending an entry adds it to the total.
pub proof fn lemma_total_push(s: Seq<usize>, v: usize)
    ensures
        total_of(s.push(v)) == total_of(s) + v,
{
    assert(s.push(v).drop_last() =~= s);
}

/// A histogram whose total is zero holds no balls at all: every entry is
/// zero and both weighted sums vanish. This is why the statistics of an
/// empty run are all zero.
pub proof fn lemma_zero_total(s: Seq<usize>)
    requires
        total_of(s) == 0,
    ensures
        forall|i: int| 0 <= i < s.len() ==> s[i] == 0,
        weighted_of(s) == 0,
        weighted_sq_of(s) == 0,
    decreases s.len(),
{
    if s.len() > 0 {
        lemma_sums_nonneg(s.drop_last());
        lemma_zero_total(s.drop_last());
        assert(forall|i: int| 0 <= i < s.len() - 1 ==> s[i] == s.drop_last()[i]);
        assert((s.len() - 1) * s.last() == 0) by (nonlinear_arith)
            requires s.last() == 0;
        assert((s.len() - 1) * (s.len() - 1) * s.last() == 0) by (nonlinear_arith)
            requires s.last() == 0;
    }
}

/// The total is at most the length times the largest possible entry.
pub proof fn lemma_total_bound(s: Seq<usize>)
    ensures
        total_of(s) <= s.len() * (usize::MAX as int),
    decreases s.len(),
{
    if s.len() > 0 {
        lemma_total_bound(s.drop_last());
    }
}

/// The index-weighted sum is at most the largest index times the total.
pub proof fn lemma_weighted_bound(s: Seq<usize>)
    requires
        s.len() >= 1,
    ensures
        weighted_of(s) <= (s.len() - 1) * total_of(s),
    decreases s.len(),
{
    let n = s.len() as int;
    let d = s.drop_last();
    let last = s.last() as int;
    if s.len() == 1 {
        assert(d.len() == 0);
        assert(weighted_of(d) == 0);
        assert(weighted_of(s) == weighted_of(d) + (n - 1) * last);
        assert((n - 1) * last == 0 && (n - 1) * total_of(s) == 0) by (nonlinear_arith)
            requires n == 1;
    } else {
        lemma_weighted_bound(d);
        lemma_sums_nonneg(d);
        // weighted(d) <= (n-2)*total(d) <= (n-1)*total(d)
        lemma_mul_inequality(n - 2, n - 1, total_of(d));
        // (n-1)*total(d) + (n-1)*last == (n-1)*(total(d) + last)
        lemma_mul_is_distributive_add(n - 1, total_of(d), last);
    }
}

/// The squared-index-weighted sum is at most the square of the largest
/// index times the total.
pub proof fn lemma_weighted_sq_bound(s: Seq<usize>)
    requires
        s.len() >= 1,
    ensures
        weighted_sq_of(s) <= (s.len() - 1) * (s.len() - 1) * total_of(s),
    decreases s.len(),
{
    let n = s.len() as int;
    let d = s.drop_last();
    let last = s.last() as int;
    if s.len() == 1 {
        assert(d.len() == 0);
        assert(weighted_sq_of(d) == 0);
        assert(weighted_sq_of(s) == weighted_sq_of(d) + (n - 1) * (n - 1) * last);
        assert((n - 1) * (n - 1) * last == 0 && (n - 1) * (n - 1) * total_of(s) == 0)
            by (nonlinear_arith)
            requires n == 1;
    } else {
        lemma_weighted_sq_bound(d);
        lemma_sums_nonneg(d);
        // (n-2)^2 <= (n-1)^2 for n >= 2
        lemma_mul_inequality(n - 2, n - 1, n - 2);
        lemma_mul_inequality(n - 2, n - 1, n - 1);
        assert((n - 2) * (n - 2) <= (n - 1) * (n - 1)) by {
            assert((n - 2) * (n - 2) <= (n - 1) * (n - 2)) by {
                lemma_mul_inequality(n - 2, n - 1, n - 2);
                assert((n - 2) * (n - 2) == (n - 2) * (n - 2));
            }
            assert((n - 1) * (n - 2) <= (n - 1) * (n - 1)) by (nonlinear_arith)
                requires n >= 2;
        }
        // weighted_sq(d) <= (n-2)^2 * total(d) <= (n-1)^2 * total(d)
        lemma_mul_inequality((n - 2) * (n - 2), (n - 1) * (n - 1), total_of(d));
        // (n-1)^2 * total(d) + (n-1)^2 * last == (n-1)^2 * (total(d) + last)
        lemma_mul_is_distributive_add((n - 1) * (n - 1), total_of(d), last);
    }
}

} // verus!
