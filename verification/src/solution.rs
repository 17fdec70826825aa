//! The contract between the optimizer and a problem's candidate solutions.

use crate::dominance::pareto_dominates;
use vstd::prelude::*;

verus! {

/// A candidate solution of one optimization problem.
///
/// The optimizer never looks inside a candidate. It creates, varies and
/// compares candidates through these operations only, and it copies them
/// with `clone`, which must yield an independent value.
///
/// Objective values are fixed-point integers: the implementor chooses the
/// scale, and every objective is minimised.
///
/// The three evaluations are pure: what they return depends on the candidate
/// alone. The functions `objectives`, `is_feasible` and `within_bounds` give
/// those results, and the problem's bounds, a name in contracts, and
/// `mutated_from` names what `mutate` can make of a candidate. They are left
/// open here: a verified implementation defines them, and for any other they
/// stand for what `fitness` and `feasible` return, for the bounds that the
/// problem has and for the outcomes of `mutate`. The clauses on the
/// operations are the implementor's promise.
pub trait Solution: Clone {
    /// The objective vector of this candidate.
    open spec fn objectives(&self) -> Seq<i64> {
        arbitrary()
    }

    /// Whether this candidate satisfies the problem's constraints.
    open spec fn is_feasible(&self) -> bool {
        arbitrary()
    }

    /// Whether the decision variables lie within the problem's bounds.
    open spec fn within_bounds(&self) -> bool {
        arbitrary()
    }

    /// Whether this candidate is one that `mutate` can make of `base`.
    open spec fn mutated_from(&self, base: &Self) -> bool {
        arbitrary()
    }

    /// Number of objectives of the problem, the same for every candidate.
    open spec fn objective_count() -> nat {
        arbitrary()
    }

    /// Draws a random candidate within the problem's bounds.
    fn random() -> (made: Self)
        ensures
            made.within_bounds(),
    ;

    /// Perturbs the decision variables in place, staying within bounds.
    fn mutate(&mut self)
        ensures
            final(self).mutated_from(old(self)),
            old(self).within_bounds() ==> final(self).within_bounds(),
    ;

    /// Combines two parents into one child within bounds, leaving both
    /// parents untouched.
    fn crossover(&self, other: &Self) -> (child: Self)
        ensures
            child.within_bounds(),
    ;

    /// Evaluates the objectives, one value per objective.
    fn fitness(&self) -> (values: Vec<i64>)
        ensures
            values@ == self.objectives(),
            values@.len() == Self::objective_count(),
    ;

    /// Whether this candidate Pareto-dominates `other`, as its objectives say.
    fn dominates(&self, other: &Self) -> (result: bool)
        ensures
            result == pareto_dominates(self.objectives(), other.objectives()),
    ;

    /// Whether the problem's constraints hold, independent of the objectives.
    fn feasible(&self) -> (result: bool)
        ensures
            result == self.is_feasible(),
    ;
}

/// A copy of a candidate within bounds lies within bounds too.
pub open spec fn copies_keep_bounds<S: Solution>() -> bool {
    forall|source: S, copy: S| #[trigger]
        cloned(source, copy) && source.within_bounds() ==> copy.within_bounds()
}

/// A copy of a candidate has the objectives of the candidate.
pub open spec fn copies_keep_objectives<S: Solution>() -> bool {
    forall|source: S, copy: S| #[trigger]
        cloned(source, copy) ==> copy.objectives() == source.objectives()
}

/// Every candidate of the sequence lies within the problem's bounds.
pub open spec fn all_within_bounds<S: Solution>(candidates: Seq<S>) -> bool {
    forall|i: int| 0 <= i < candidates.len() ==> (#[trigger] candidates[i]).within_bounds()
}

} // verus!
