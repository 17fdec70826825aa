//! NSGA-II: an elitist multi-objective evolutionary optimizer.
//!
//! A population of candidate solutions is evolved towards the trade-off
//! surface of several objectives, all of them minimised. Objective values
//! are fixed-point integers. Candidates are supplied by the caller through
//! the [`solution::Solution`] trait.
//!
//! - [`dominance`]: Pareto dominance between objective vectors.
//! - [`sorting`]: the partition of a population into Pareto fronts.
//! - [`ordering`]: stable ordering by an integer key.
//! - [`crowding`]: crowding distances within a front.
//! - [`selection`]: constrained binary tournaments.
//! - [`replacement`]: the choice of the members that survive a generation.
//! - [`nsga2`]: the optimizer and its generational loop.
//! - [`random`]: the optimizer's source of random numbers.

pub mod crowding;
pub mod dominance;
pub mod nsga2;
pub mod ordering;
pub mod random;
pub mod replacement;
pub mod selection;
pub mod solution;
pub mod sorting;
