//! Pareto dominance between objective vectors.

use vstd::prelude::*;

verus! {

/// `a` dominates `b`: both have one value per objective, `a` is no worse on
/// every objective and strictly better on at least one (smaller is better).
pub open spec fn pareto_dominates(a: Seq<i64>, b: Seq<i64>) -> bool {
    &&& a.len() == b.len()
    &&& forall|i: int| 0 <= i < a.len() ==> a[i] <= b[i]
    &&& exists|i: int| 0 <= i < a.len() && a[i] < b[i]
}

/// No objective vector dominates itself.
pub proof fn lemma_dominance_irreflexive(a: Seq<i64>)
    ensures
        !pareto_dominates(a, a),
{
}

/// Two objective vectors never dominate each other.
pub proof fn lemma_dominance_asymmetric(a: Seq<i64>, b: Seq<i64>)
    requires
        pareto_dominates(a, b),
    ensures
        !pareto_dominates(b, a),
{
}

/// Dominance passes along a chain.
pub proof fn lemma_dominance_transitive(a: Seq<i64>, b: Seq<i64>, c: Seq<i64>)
    requires
        pareto_dominates(a, b),
        pareto_dominates(b, c),
    ensures
        pareto_dominates(a, c),
{
}

/// Decides Pareto dominance of `a` over `b`. Vectors of different lengths
/// never dominate each other.
pub fn objectives_dominate(a: &[i64], b: &[i64]) -> (result: bool)
    ensures
        result == pareto_dominates(a@, b@),
{
    if a.len() != b.len() {
        return false;
    }
    let mut better_in_any = false;
    let mut i: usize = 0;
    while i < a.len()
        invariant
            i <= a.len(),
            a.len() == b.len(),
            forall|k: int| 0 <= k < i ==> a[k] <= b[k],
            better_in_any == (exists|k: int| 0 <= k < i && a[k] < b[k]),
        decreases a.len() - i,
    {
        if a[i] > b[i] {
            return false;
        }
        if a[i] < b[i] {
            better_in_any = true;
        }
        i += 1;
    }
    better_in_any
}

} // verus!
