//! The simulator: balls fall through a triangular peg board, deflecting
//! right with equal probability at each of `rows` pegs, and land in the bin
//! indexed by the number of right deflections.

use vstd::prelude::*;
use crate::hist::{
    lemma_entry_le_total, lemma_total_push, lemma_total_update, total_of,
};

verus! {

/// Relies on rand::random: a fresh value drawn from the thread-local
/// generator. Nothing can be promised of the outcome.
pub assume_specification<T>[ rand::random::<T> ]() -> (r: T)
    where
        rand::distributions::Standard: rand::distributions::Distribution<T>,
;

/// Drop one ball: count how many of `rows` independent fair coin flips come
/// up true. The result is the ball's bin index, somewhere in `0 ..= rows`.
fn drop_ball(rows: usize) -> (bin: usize)
    ensures
        bin <= rows,
{
    let mut bin: usize = 0;
    let mut flip: usize = 0;
    while flip < rows
        invariant
            flip <= rows,
            bin <= flip,
        decreases rows - flip,
    {
        if rand::random::<bool>() {
            bin = bin + 1;
        }
        flip = flip + 1;
    }
    bin
}

/// Simulate a Galton board with `rows` rows of pegs and `balls` balls.
///
/// The histogram that comes back has one bin per possible landing slot,
/// `rows + 1` in all, and its entries sum to exactly `balls`: every ball
/// lands in exactly one bin. Which bin each ball lands in is random.
pub fn simulate(rows: usize, balls: usize) -> (r: Vec<usize>)
    requires
        rows < usize::MAX,
    ensures
        r@.len() == rows + 1,
        total_of(r@) == balls,
{
    let mut distribution: Vec<usize> = Vec::new();
    let mut i: usize = 0;
    while i < rows + 1
        invariant
            rows < usize::MAX,
            i <= rows + 1,
            distribution@.len() == i,
            total_of(distribution@) == 0,
        decreases rows + 1 - i,
    {
        proof {
            lemma_total_push(distribution@, 0);
        }
        distribution.push(0);
        i = i + 1;
    }
    let mut ball: usize = 0;
    while ball < balls
        invariant
            rows < usize::MAX,
            ball <= balls,
            distribution@.len() == rows + 1,
            total_of(distribution@) == ball,
        decreases balls - ball,
    {
        let bin = drop_ball(rows);
        proof {
            lemma_entry_le_total(distribution@, bin as int);
        }
        let count = distribution[bin];
        proof {
            lemma_total_update(distribution@, bin as int, (count + 1) as usize);
        }
        distribution.set(bin, count + 1);
        ball = ball + 1;
    }
    distribution
}

} // verus!
