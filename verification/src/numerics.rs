//! The floating-point arithmetic that the observer leaves to its caller.
//!
//! The library decides with numbers but does not compute them. An implementation of [`Numerics`] is
//! asked for each one, and a contract that speaks of a result says which question it answers.

use crate::backend::Token;
use crate::number::F32;
use crate::stats::Welford;
use vstd::prelude::*;

verus! {

/// The numbers behind scoring, firing, sampling and the comparison of asides.
pub trait Numerics {
    /// `-ln P(tok)` under the distribution of `row`.
    fn surprisal(&self, row: &Vec<F32>, tok: Token) -> F32
        requires
            0 <= tok.0 < row@.len(),
    ;

    /// The entropy of the distribution of `row`, in nats.
    fn entropy(&self, row: &Vec<F32>) -> F32;

    /// The entropy of the distribution of `row`, in nats, where a token without any probability adds
    /// nothing.
    fn spread(&self, row: &Vec<F32>) -> F32;

    /// The probability of token `id` under the distribution of `row`.
    fn share(&self, row: &Vec<F32>, id: usize) -> F32
        requires
            id < row@.len(),
    ;

    /// The z-score of `x` against a baseline.
    fn z(&self, stats: &Welford, x: F32) -> F32;

    /// The mean and the spread of a baseline that has taken in `x` too.
    fn moments(&self, stats: &Welford, x: F32) -> (F32, F32);

    /// The probability with which a z-score fires when the threshold is softened.
    fn chance(&self, z: F32, z_threshold: F32, softness: F32) -> F32;

    /// The weight of a logit at a temperature above zero, where `max` is the greatest of its row: the
    /// exponential of their difference over the temperature.
    fn weight(&self, logit: F32, max: F32, temp: F32) -> F32;

    /// The sum of two numbers.
    fn plus(&self, a: F32, b: F32) -> F32;

    /// The product of two numbers.
    fn times(&self, a: F32, b: F32) -> F32;

    /// The quotient of two numbers.
    fn over(&self, a: F32, b: F32) -> F32;

    /// The threshold `z` moved by `by`, kept between zero and twelve.
    fn nudged(&self, z: F32, by: F32) -> F32;

    /// The threshold `z` raised by a quarter, to twelve at most.
    fn raised(&self, z: F32) -> F32;

    /// The threshold `z` lowered by a quarter, to zero at least.
    fn lowered(&self, z: F32) -> F32;

    /// The height of a surprisal in a chart: tenths of a nat as a whole number, kept between zero and
    /// a thousand.
    fn height(&self, surprisal: F32) -> u64;

    /// The quotient of two counts.
    fn ratio(&self, part: usize, whole: usize) -> F32
        requires
            whole > 0,
    ;
}

} // verus!
