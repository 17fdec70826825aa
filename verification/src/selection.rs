//! Constrained binary tournaments.

use crate::crowding::Crowding;
use crate::solution::Solution;
use crate::sorting::front_of;
use crate::sorting::front_view;
use crate::sorting::is_partition;
use crate::sorting::lemma_front_of;
use crate::sorting::slot;
use vstd::prelude::*;

verus! {

/// Whether the first of two contenders wins their tournament. A feasible
/// contender beats an infeasible one. Between two of a kind the lower front
/// wins, and within one front the greater crowding distance. Where all three
/// are equal the second contender wins.
pub open spec fn first_prevails(
    feasible1: bool,
    front1: int,
    distance1: Crowding,
    feasible2: bool,
    front2: int,
    distance2: Crowding,
) -> bool {
    if feasible1 != feasible2 {
        feasible1
    } else if front1 != front2 {
        front1 < front2
    } else {
        distance1.magnitude() > distance2.magnitude()
    }
}

/// Feasibility decides before front and distance are looked at: a feasible
/// contender is never passed over for an infeasible one.
pub proof fn lemma_feasible_beats_infeasible(
    front1: int,
    distance1: Crowding,
    front2: int,
    distance2: Crowding,
)
    ensures
        first_prevails(true, front1, distance1, false, front2, distance2),
        !first_prevails(false, front1, distance1, true, front2, distance2),
{
}

/// Decides a tournament between two contenders, each given by its
/// feasibility, the front it stands in and its crowding distance.
pub fn first_wins(
    feasible1: bool,
    front1: usize,
    distance1: Crowding,
    feasible2: bool,
    front2: usize,
    distance2: Crowding,
) -> (result: bool)
    ensures
        result == first_prevails(
            feasible1,
            front1 as int,
            distance1,
            feasible2,
            front2 as int,
            distance2,
        ),
{
    if feasible1 && !feasible2 {
        true
    } else if !feasible1 && feasible2 {
        false
    } else if front1 < front2 {
        true
    } else if front1 > front2 {
        false
    } else {
        distance1.exceeds(&distance2)
    }
}

/// The member that wins the tournament between members `a` and `b`.
pub open spec fn tournament_pick<S: Solution>(
    population: Seq<S>,
    fronts: Seq<Seq<usize>>,
    distances: Seq<Crowding>,
    a: int,
    b: int,
) -> int {
    if first_prevails(
        population[a].is_feasible(),
        front_of(fronts, a),
        distances[a],
        population[b].is_feasible(),
        front_of(fronts, b),
        distances[b],
    ) {
        a
    } else {
        b
    }
}

/// A tournament never picks an infeasible member over a feasible one: where
/// the winner is infeasible, so is the loser.
pub proof fn lemma_pick_prefers_feasible<S: Solution>(
    population: Seq<S>,
    fronts: Seq<Seq<usize>>,
    distances: Seq<Crowding>,
    a: int,
    b: int,
)
    ensures
        ({
            let winner = tournament_pick(population, fronts, distances, a, b);
            &&& winner == a || winner == b
            &&& !population[winner].is_feasible() ==> !population[a].is_feasible()
                && !population[b].is_feasible()
        }),
{
}

/// Looks up, for every member, the front that it stands in.
pub fn ranks_by_member(fronts: &Vec<Vec<usize>>, members: usize) -> (ranks: Vec<usize>)
    requires
        is_partition(front_view(fronts@), members as nat),
    ensures
        ranks.len() == members,
        forall|p: int| 0 <= p < members ==> (#[trigger] ranks[p]) == front_of(front_view(fronts@), p),
{
    let ghost layers = front_view(fronts@);
    let mut ranks: Vec<usize> = Vec::new();
    let mut filled: usize = 0;
    while filled < members
        invariant
            filled <= members,
            ranks.len() == filled,
        decreases members - filled,
    {
        ranks.push(0);
        filled += 1;
    }
    let mut k: usize = 0;
    while k < fronts.len()
        invariant
            k <= fronts.len(),
            layers == front_view(fronts@),
            is_partition(layers, members as nat),
            ranks.len() == members,
            forall|k0: int, j0: int|
                #![trigger slot(layers, k0, j0)]
                slot(layers, k0, j0) && k0 < k ==> ranks[layers[k0][j0] as int] == k0,
        decreases fronts.len() - k,
    {
        let mut j: usize = 0;
        while j < fronts[k].len()
            invariant
                k < fronts.len(),
                j <= fronts[k as int].len(),
                layers == front_view(fronts@),
                is_partition(layers, members as nat),
                ranks.len() == members,
                forall|k0: int, j0: int|
                    #![trigger slot(layers, k0, j0)]
                    slot(layers, k0, j0) && (k0 < k || (k0 == k && j0 < j)) ==> ranks[layers[k0][j0] as int]
                        == k0,
            decreases fronts[k as int].len() - j,
        {
            let member = fronts[k][j];
            proof {
                assert(slot(layers, k as int, j as int));
            }
            ranks.set(member, k);
            j += 1;
        }
        k += 1;
    }
    proof {
        assert forall|p: int| 0 <= p < members implies (#[trigger] ranks[p]) == front_of(layers, p) by {
            assert(crate::sorting::is_placed(layers, p));
            let (k0, j0) = choose|k0: int, j0: int| #[trigger]
                slot(layers, k0, j0) && layers[k0][j0] == p;
            lemma_front_of(layers, members as nat, k0, j0);
        }
    }
    ranks
}

} // verus!
