//! The statistics engine: the exact integer moments of a histogram.
//!
//! Mean and variance of a histogram, read as a discrete distribution over
//! bin indices, are rational functions of three integer sums: with
//! `t = total_of`, `w = weighted_of` and `q = weighted_sq_of`,
//!
//!   mean     = w / t
//!   variance = q / t - (w / t)^2
//!   std dev  = sqrt(variance)
//!
//! and all three are zero when `t` is zero. The library computes the three
//! sums exactly; the final divisions and the square root are left to the
//! caller, who alone works in inexact arithmetic.

use vstd::prelude::*;
use crate::hist::{
    lemma_take_le, lemma_take_step, lemma_total_bound, total_of, weighted_of, weighted_sq_of,
};
use vstd::arithmetic::mul::{lemma_mul_inequality, lemma_mul_nonnegative, lemma_mul_upper_bound};
use vstd::arithmetic::div_mod::{lemma_fundamental_div_mod, lemma_mod_bound};

verus! {

/// The exact integer moments of a histogram: the total count, the
/// index-weighted sum and the squared-index-weighted sum.
#[derive(Clone, Copy, Debug, PartialEq, Eq, Structural)]
pub struct Stats {
    pub total: u128,
    pub weighted: u128,
    pub weighted_sq: u128,
}

/// Both weighted sums of `s` fit in a `u128`. The plain total always does.
pub open spec fn moments_fit(s: Seq<usize>) -> bool {
    weighted_of(s) <= u128::MAX && weighted_sq_of(s) <= u128::MAX
}

/// `st` holds exactly the three moment sums of `s`.
pub open spec fn moments_of(s: Seq<usize>, st: Stats) -> bool {
    st.total == total_of(s) && st.weighted == weighted_of(s) && st.weighted_sq
        == weighted_sq_of(s)
}

/// The spread of the histogram about the index `j`: the sum of
/// `(i - j)^2 * s[i]`, a sum of squares weighted by the counts.
spec fn spread_about(s: Seq<usize>, j: int) -> int
    decreases s.len(),
{
    if s.len() == 0 {
        0
    } else {
        spread_about(s.drop_last(), j) + (s.len() - 1 - j) * (s.len() - 1 - j) * s.last()
    }
}

/// The spread about any index is a sum of squares, so it is non-negative.
proof fn lemma_spread_nonneg(s: Seq<usize>, j: int)
    ensures
        spread_about(s, j) >= 0,
    decreases s.len(),
{
    if s.len() > 0 {
        lemma_spread_nonneg(s.drop_last(), j);
        let k = s.len() - 1 - j;
        let c = s.last() as int;
        assert(k * k * c >= 0) by (nonlinear_arith)
            requires c >= 0;
    }
}

/// Expanding the square: the spread about `j` in terms of the three moment
/// sums.
#[verifier::rlimit(50)]
proof fn lemma_spread_expansion(s: Seq<usize>, j: int)
    ensures
        spread_about(s, j) == weighted_sq_of(s) - 2 * j * weighted_of(s) + j * j * total_of(s),
    decreases s.len(),
{
    if s.len() > 0 {
        let d = s.drop_last();
        lemma_spread_expansion(d, j);
        let k = s.len() - 1;
        let c = s.last() as int;
        let sp_s = spread_about(s, j);
        let sp_d = spread_about(d, j);
        let qd = weighted_sq_of(d);
        let wd = weighted_of(d);
        let td = total_of(d);
        let qs = weighted_sq_of(s);
        let ws = weighted_of(s);
        let ts = total_of(s);
        assert(sp_s == qs - 2 * j * ws + j * j * ts) by (nonlinear_arith)
            requires
                sp_s == sp_d + (k - j) * (k - j) * c,
                sp_d == qd - 2 * j * wd + j * j * td,
                qs == qd + k * k * c,
                ws == wd + k * c,
                ts == td + c,
        ;
    }
}

/// The counts-weighted sum of the spreads about every index, taken over
/// the first `m` indices.
spec fn paired_spread(s: Seq<usize>, m: int) -> int
    decreases m,
{
    if m <= 0 {
        0
    } else {
        paired_spread(s, m - 1) + s[m - 1] * spread_about(s, m - 1)
    }
}

/// The paired spread in terms of the moment sums of the prefix it ranges
/// over.
#[verifier::rlimit(50)]
proof fn lemma_paired_spread_expansion(s: Seq<usize>, m: int)
    requires
        0 <= m <= s.len(),
    ensures
        paired_spread(s, m) == total_of(s.take(m)) * weighted_sq_of(s) - 2 * weighted_of(s.take(m))
            * weighted_of(s) + weighted_sq_of(s.take(m)) * total_of(s),
    decreases m,
{
    let q = weighted_sq_of(s);
    let w = weighted_of(s);
    let t = total_of(s);
    if m == 0 {
        assert(s.take(0) =~= Seq::<usize>::empty());
        assert(total_of(s.take(0)) * q == 0 && weighted_of(s.take(0)) * w == 0
            && weighted_sq_of(s.take(0)) * t == 0) by (nonlinear_arith)
            requires
                total_of(s.take(0)) == 0,
                weighted_of(s.take(0)) == 0,
                weighted_sq_of(s.take(0)) == 0,
        ;
    } else {
        let k = m - 1;
        let c = s[k] as int;
        let tk = total_of(s.take(k));
        let wk = weighted_of(s.take(k));
        let qk = weighted_sq_of(s.take(k));
        lemma_paired_spread_expansion(s, k);
        lemma_spread_expansion(s, k);
        lemma_take_step(s, k);
        let ps_m = paired_spread(s, m);
        let ps_k = paired_spread(s, k);
        let sp = spread_about(s, k);
        let tm = total_of(s.take(m));
        let wm = weighted_of(s.take(m));
        let qm = weighted_sq_of(s.take(m));
        assert(c * sp == c * q - 2 * (k * c) * w + (k * k * c) * t) by (nonlinear_arith)
            requires
                sp == q - 2 * k * w + k * k * t,
        ;
        assert(tm * q == tk * q + c * q) by (nonlinear_arith)
            requires
                tm == tk + c,
        ;
        assert(2 * wm * w == 2 * wk * w + 2 * (k * c) * w) by (nonlinear_arith)
            requires
                wm == wk + k * c,
        ;
        assert(qm * t == qk * t + (k * k * c) * t) by (nonlinear_arith)
            requires
                qm == qk + k * k * c,
        ;
        assert(ps_m == tm * q - 2 * wm * w + qm * t);
    }
}

/// The paired spread is a sum of non-negative terms.
proof fn lemma_paired_spread_nonneg(s: Seq<usize>, m: int)
    requires
        0 <= m <= s.len(),
    ensures
        paired_spread(s, m) >= 0,
    decreases m,
{
    if m > 0 {
        lemma_paired_spread_nonneg(s, m - 1);
        lemma_spread_nonneg(s, m - 1);
        lemma_mul_nonnegative(s[m - 1] as int, spread_about(s, m - 1));
    }
}

/// The variance of the distribution a histogram describes is never
/// negative: with `t`, `w`, `q` the three moment sums, the variance is
/// `q / t - (w / t)^2`, and its numerator `q * t - w^2` is non-negative.
/// Twice that numerator is the counts-weighted sum of the squared index
/// differences over all pairs of bins.
pub proof fn lemma_variance_nonneg(s: Seq<usize>)
    ensures
        weighted_of(s) * weighted_of(s) <= weighted_sq_of(s) * total_of(s),
{
    let n = s.len() as int;
    lemma_paired_spread_expansion(s, n);
    lemma_paired_spread_nonneg(s, n);
    assert(s.take(n) =~= s);
    assert(weighted_of(s) * weighted_of(s) <= weighted_sq_of(s) * total_of(s))
        by (nonlinear_arith)
        requires
            0 <= total_of(s) * weighted_sq_of(s) - 2 * weighted_of(s) * weighted_of(s)
                + weighted_sq_of(s) * total_of(s),
    ;
}

/// The sum of two `u128` values, or `None` where it would not fit.
fn add_checked(a: u128, b: u128) -> (r: Option<u128>)
    ensures
        r == if a + b <= u128::MAX {
            Some((a + b) as u128)
        } else {
            None::<u128>
        },
{
    if a <= u128::MAX - b {
        Some(a + b)
    } else {
        None
    }
}

/// The product of two `u128` values, or `None` where it would not fit.
fn mul_checked(a: u128, b: u128) -> (r: Option<u128>)
    ensures
        r == if a * b <= u128::MAX {
            Some((a * b) as u128)
        } else {
            None::<u128>
        },
{
    if a == 0 {
        proof {
            assert(a * b == 0) by (nonlinear_arith)
                requires a == 0;
        }
        Some(0)
    } else if b <= u128::MAX / a {
        proof {
            let q = (u128::MAX as int) / (a as int);
            lemma_fundamental_div_mod(u128::MAX as int, a as int);
            lemma_mod_bound(u128::MAX as int, a as int);
            // b <= q, so a * b <= a * q <= a * q + MAX % a == MAX
            lemma_mul_inequality(b as int, q, a as int);
        }
        Some(a * b)
    } else {
        proof {
            let q = (u128::MAX as int) / (a as int);
            lemma_fundamental_div_mod(u128::MAX as int, a as int);
            lemma_mod_bound(u128::MAX as int, a as int);
            // b >= q + 1, so a * b >= a * (q + 1) == a * q + a > a * q + MAX % a == MAX
            lemma_mul_inequality(q + 1, b as int, a as int);
            assert((q + 1) * (a as int) == q * (a as int) + a) by (nonlinear_arith);
        }
        None
    }
}

/// Compute the exact moment sums of a histogram.
///
/// Returns `Some` exactly when both weighted sums fit in a `u128` — the
/// total always does — and then the three fields are exactly `total_of`,
/// `weighted_of` and `weighted_sq_of` of the histogram. A histogram whose
/// total is zero yields all-zero statistics.
pub fn statistics(distribution: &Vec<usize>) -> (r: Option<Stats>)
    ensures
        r is Some <==> moments_fit(distribution@),
        r is Some ==> moments_of(distribution@, r->Some_0),
{
    let s = Ghost(distribution@);
    let n = distribution.len();
    let mut total: u128 = 0;
    let mut weighted: u128 = 0;
    let mut weighted_sq: u128 = 0;
    let mut i: usize = 0;
    proof {
        assert(s@.take(0) =~= Seq::<usize>::empty());
    }
    while i < n
        invariant
            n == s@.len(),
            s@ == distribution@,
            0 <= i <= n,
            total == total_of(s@.take(i as int)),
            weighted == weighted_of(s@.take(i as int)),
            weighted_sq == weighted_sq_of(s@.take(i as int)),
        decreases n - i,
    {
        let c = distribution[i];
        proof {
            lemma_take_step(s@, i as int);
            lemma_take_le(s@, i + 1);
            lemma_total_bound(s@);
            assert(usize::MAX as int <= u64::MAX as int);
            lemma_mul_upper_bound(
                s@.len() as int,
                u64::MAX as int,
                usize::MAX as int,
                u64::MAX as int,
            );
            lemma_mul_upper_bound(i as int, u64::MAX as int, c as int, u64::MAX as int);
            lemma_mul_upper_bound(i as int, u64::MAX as int, i as int, u64::MAX as int);
        }
        let term_w = (i as u128) * (c as u128);
        total = total + (c as u128);
        match add_checked(weighted, term_w) {
            Some(w) => {
                weighted = w;
            },
            None => {
                proof {
                    lemma_take_le(s@, i + 1);
                }
                return None;
            },
        }
        let isq = (i as u128) * (i as u128);
        proof {
            assert(isq as int == (i as int) * (i as int));
            assert((i as int) * (i as int) * (c as int) == (isq as int) * (c as int));
        }
        let term_q = match mul_checked(isq, c as u128) {
            Some(t) => t,
            None => {
                proof {
                    lemma_take_le(s@, i + 1);
                }
                return None;
            },
        };
        match add_checked(weighted_sq, term_q) {
            Some(q) => {
                weighted_sq = q;
            },
            None => {
                proof {
                    lemma_take_le(s@, i + 1);
                }
                return None;
            },
        }
        i = i + 1;
    }
    proof {
        assert(s@.take(n as int) =~= s@);
    }
    Some(Stats { total, weighted, weighted_sq })
}

} // verus!
