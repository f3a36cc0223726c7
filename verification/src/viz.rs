//! The visualizer: lay out a histogram as horizontal bars.
//!
//! Each bin becomes a bar whose length scales its count against the largest
//! count, up to a fixed maximum width, and a flag that marks the bin as an
//! outlier when its index lies more than one and a half standard deviations
//! from the mean. Turning the layout into console lines is left to the
//! caller; everything that decides how long a bar is and how it is flagged
//! is here.

use vstd::prelude::*;
use crate::hist::{
    lemma_sums_nonneg, lemma_weighted_bound, lemma_weighted_sq_bound, total_of, weighted_of,
    weighted_sq_of,
};
use crate::stats::{statistics, Stats};
use vstd::arithmetic::div_mod::{lemma_div_is_ordered, lemma_fundamental_div_mod_converse};
use vstd::arithmetic::mul::{lemma_mul_inequality, lemma_mul_upper_bound};

verus! {

/// A bar never grows past this many glyphs.
pub const BAR_WIDTH_LIMIT: usize = 40;

/// The most bins a histogram may have for the outlier arithmetic to stay
/// exact in 128-bit integers.
pub const MAX_BINS: usize = 0x20_0000;

/// The most balls a histogram may hold in total for the outlier arithmetic
/// to stay exact in 128-bit integers.
pub const MAX_TOTAL: u128 = 0x100_0000_0000;

/// The layout of one bin: how many glyphs its bar gets, and whether the bin
/// is an outlier.
#[derive(Clone, Copy, Debug, PartialEq, Eq, Structural)]
pub struct Bar {
    pub width: usize,
    pub outlier: bool,
}

/// The length of the bar for a count of `count` when the largest count is
/// `max`: `count / max` scaled to the maximum bar width and rounded to the
/// nearest integer, halves up; zero when every count is zero.
pub open spec fn bar_len(count: int, max: int) -> int {
    if max <= 0 {
        0
    } else {
        (80 * count + max) / (2 * max)
    }
}

/// Whether bin `i` is an outlier: its index lies more than one and a half
/// standard deviations from the mean, `i < mean - 1.5 * sd` or
/// `i > mean + 1.5 * sd`.
///
/// With `t`, `w`, `q` the three moment sums, the mean is `w / t` and the
/// variance `q / t - (w / t)^2`, so the two-sided condition is
/// `(i - mean)^2 > (1.5 * sd)^2`; multiplying through by `4 * t^2 > 0` and
/// moving the negative term across turns it into the integer comparison
/// below. When the histogram is empty of balls, mean and standard deviation
/// are taken as zero, and every bin but bin 0 lies outside the band.
pub open spec fn is_outlier(i: int, s: Seq<usize>) -> bool {
    let t = total_of(s);
    let w = weighted_of(s);
    let q = weighted_sq_of(s);
    if t == 0 {
        i != 0
    } else {
        4 * ((i * t - w) * (i * t - w)) + 9 * (w * w) > 9 * (q * t)
    }
}

/// The largest entry of a histogram; zero when it has no bins.
pub open spec fn max_of(s: Seq<usize>) -> int
    decreases s.len(),
{
    if s.len() == 0 {
        0
    } else if max_of(s.drop_last()) >= s.last() {
        max_of(s.drop_last())
    } else {
        s.last() as int
    }
}

/// No entry exceeds the largest entry.
pub proof fn lemma_entry_le_max(s: Seq<usize>, i: int)
    requires
        0 <= i < s.len(),
    ensures
        s[i] <= max_of(s),
    decreases s.len(),
{
    if i < s.len() - 1 {
        lemma_entry_le_max(s.drop_last(), i);
    }
}

/// The largest entry of a histogram; zero when it has no bins.
pub fn max_count(distribution: &Vec<usize>) -> (m: usize)
    ensures
        m == max_of(distribution@),
{
    let s = Ghost(distribution@);
    let mut m: usize = 0;
    let mut i: usize = 0;
    proof {
        assert(s@.take(0) =~= Seq::<usize>::empty());
    }
    while i < distribution.len()
        invariant
            s@ == distribution@,
            0 <= i <= s@.len(),
            m == max_of(s@.take(i as int)),
        decreases s@.len() - i,
    {
        proof {
            assert(s@.take(i + 1).drop_last() =~= s@.take(i as int));
        }
        let c = distribution[i];
        if c > m {
            m = c;
        }
        i = i + 1;
    }
    proof {
        assert(s@.take(s@.len() as int) =~= s@);
    }
    m
}

/// The bar length for a count of `count` when the largest count is `max`.
pub fn bar_width(count: usize, max: usize) -> (w: usize)
    requires
        count <= max,
    ensures
        w == bar_len(count as int, max as int),
        w <= BAR_WIDTH_LIMIT,
{
    if max == 0 {
        0
    } else {
        let num: u128 = 80 * (count as u128) + (max as u128);
        let den: u128 = 2 * (max as u128);
        let w128 = num / den;
        proof {
            let c = count as int;
            let m = max as int;
            // 80c + m <= 81m, so the quotient is at most 81m / 2m == 40.
            lemma_div_is_ordered(80 * c + m, 81 * m, 2 * m);
            lemma_fundamental_div_mod_converse(81 * m, 2 * m, 40, m);
        }
        w128 as usize
    }
}

/// Whether bin `i` of the histogram behind the given moment sums is an
/// outlier. The bounds on bin count and total keep every intermediate
/// product inside a `u128`.
fn outlier_flag(
    i: usize,
    total: u128,
    weighted: u128,
    weighted_sq: u128,
    Ghost(s): Ghost<Seq<usize>>,
) -> (r: bool)
    requires
        total == total_of(s),
        weighted == weighted_of(s),
        weighted_sq == weighted_sq_of(s),
        i < s.len(),
        s.len() <= MAX_BINS,
        total <= MAX_TOTAL,
    ensures
        r == is_outlier(i as int, s),
{
    if total == 0 {
        i != 0
    } else {
        proof {
            lemma_weighted_bound(s);
            lemma_weighted_sq_bound(s);
            // weighted <= (len - 1) * total and weighted_sq <= (len - 1)^2 * total
            lemma_mul_upper_bound(s.len() - 1, MAX_BINS as int, total as int, MAX_TOTAL as int);
            lemma_mul_upper_bound(i as int, MAX_BINS as int, total as int, MAX_TOTAL as int);
            lemma_mul_upper_bound(s.len() - 1, MAX_BINS as int, s.len() - 1, MAX_BINS as int);
            lemma_mul_upper_bound(
                (s.len() - 1) * (s.len() - 1),
                (MAX_BINS as int) * (MAX_BINS as int),
                total as int,
                MAX_TOTAL as int,
            );
            lemma_mul_inequality(
                (s.len() - 1) * (s.len() - 1),
                (MAX_BINS as int) * (MAX_BINS as int),
                total as int,
            );
        }
        let it = (i as u128) * total;
        let diff = if it >= weighted {
            it - weighted
        } else {
            weighted - it
        };
        proof {
            let bound = (MAX_BINS as int) * (MAX_TOTAL as int);
            lemma_mul_upper_bound(diff as int, bound, diff as int, bound);
            lemma_mul_upper_bound(weighted as int, bound, weighted as int, bound);
            lemma_mul_upper_bound(
                weighted_sq as int,
                (MAX_BINS as int) * (MAX_BINS as int) * (MAX_TOTAL as int),
                total as int,
                MAX_TOTAL as int,
            );
            let d = (i as int) * (total as int) - (weighted as int);
            assert(d * d == (diff as int) * (diff as int)) by (nonlinear_arith)
                requires
                    d == (i as int) * (total as int) - (weighted as int),
                    diff as int == if d >= 0 {
                        d
                    } else {
                        -d
                    },
            ;
        }
        let lhs = 4 * (diff * diff) + 9 * (weighted * weighted);
        let rhs = 9 * (weighted_sq * total);
        lhs > rhs
    }
}

/// Lay the histogram out as bars: one `Bar` per bin, its width the bin's
/// count scaled against the largest count, its flag set exactly when the
/// bin's index lies more than one and a half standard deviations from the
/// mean of the distribution the histogram describes.
pub fn visualize(distribution: &Vec<usize>) -> (r: Vec<Bar>)
    requires
        distribution@.len() <= MAX_BINS,
        total_of(distribution@) <= MAX_TOTAL,
    ensures
        r@.len() == distribution@.len(),
        forall|i: int|
            0 <= i < r@.len() ==> (#[trigger] r@[i]).width == bar_len(
                distribution@[i] as int,
                max_of(distribution@),
            ),
        forall|i: int| 0 <= i < r@.len() ==> (#[trigger] r@[i]).outlier == is_outlier(i, distribution@),
{
    let s = Ghost(distribution@);
    let m = max_count(distribution);
    proof {
        if s@.len() > 0 {
            lemma_sums_nonneg(s@);
            lemma_weighted_bound(s@);
            lemma_weighted_sq_bound(s@);
            lemma_mul_upper_bound(s@.len() - 1, MAX_BINS as int, total_of(s@), MAX_TOTAL as int);
            lemma_mul_upper_bound(s@.len() - 1, MAX_BINS as int, s@.len() - 1, MAX_BINS as int);
            lemma_mul_upper_bound(
                (s@.len() - 1) * (s@.len() - 1),
                (MAX_BINS as int) * (MAX_BINS as int),
                total_of(s@),
                MAX_TOTAL as int,
            );
            lemma_mul_inequality(
                (s@.len() - 1) * (s@.len() - 1),
                (MAX_BINS as int) * (MAX_BINS as int),
                total_of(s@),
            );
        }
    }
    let st = match statistics(distribution) {
        Some(st) => st,
        None => {
            return vstd::pervasive::unreached();
        },
    };
    let mut bars: Vec<Bar> = Vec::new();
    let mut i: usize = 0;
    while i < distribution.len()
        invariant
            s@ == distribution@,
            s@.len() <= MAX_BINS,
            total_of(s@) <= MAX_TOTAL,
            m == max_of(s@),
            st.total == total_of(s@),
            st.weighted == weighted_of(s@),
            st.weighted_sq == weighted_sq_of(s@),
            0 <= i <= s@.len(),
            bars@.len() == i,
            forall|j: int|
                0 <= j < i ==> (#[trigger] bars@[j]).width == bar_len(s@[j] as int, max_of(s@)),
            forall|j: int| 0 <= j < i ==> (#[trigger] bars@[j]).outlier == is_outlier(j, s@),
        decreases s@.len() - i,
    {
        let c = distribution[i];
        proof {
            lemma_entry_le_max(s@, i as int);
        }
        let w = bar_width(c, m);
        let o = outlier_flag(i, st.total, st.weighted, st.weighted_sq, Ghost(s@));
        let ghost prev = bars@;
        bars.push(Bar { width: w, outlier: o });
        proof {
            assert forall|j: int|
                0 <= j < i + 1 implies (#[trigger] bars@[j]).width == bar_len(
                s@[j] as int,
                max_of(s@),
            ) && bars@[j].outlier == is_outlier(j, s@) by {
                if j < i {
                    assert(bars@[j] == prev[j]);
                } else {
                    assert(bars@[j] == (Bar { width: w, outlier: o }));
                }
            }
        }
        i = i + 1;
    }
    bars
}

/// The glyph a bar is drawn with: a distinct marker for outlier bins.
pub open spec fn glyph_of(outlier: bool) -> char {
    if outlier {
        '~'
    } else {
        '#'
    }
}

/// Draw a bar: the glyph for its kind, repeated `width` times.
pub fn bar_string(width: usize, outlier: bool) -> (r: String)
    ensures
        r@.len() == width,
        forall|k: int| 0 <= k < r@.len() ==> r@[k] == glyph_of(outlier),
{
    proof {
        reveal_strlit("~");
        reveal_strlit("#");
    }
    let mut r = String::new();
    let mut k: usize = 0;
    while k < width
        invariant
            0 <= k <= width,
            r@.len() == k,
            forall|j: int| 0 <= j < r@.len() ==> r@[j] == glyph_of(outlier),
        decreases width - k,
    {
        proof {
            reveal_strlit("~");
            reveal_strlit("#");
        }
        if outlier {
            r.append("~");
        } else {
            r.append("#");
        }
        k = k + 1;
    }
    r
}

} // verus!
