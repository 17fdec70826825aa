//! Elitist replacement: who survives into the next generation.

use crate::crowding::front_crowding;
use crate::crowding::front_distances;
use crate::crowding::has_axes;
use crate::crowding::rows_view;
use crate::ordering::is_stable_order;
use crate::ordering::lemma_stable_order_exists;
use crate::ordering::sort_keys;
use crate::ordering::stable_order;
use crate::ordering::stable_order_of;
use crate::sorting::front_view;
use crate::sorting::slot;
use crate::sorting::total_members;
use vstd::prelude::*;

verus! {

/// The members of a front by falling crowding distance, members of equal
/// distance in front order.
pub open spec fn by_falling_distance(rows: Seq<Seq<i64>>, front: Seq<usize>, axes: nat) -> Seq<
    usize,
> {
    let order = stable_order_of(sort_keys(front_distances(rows, front, axes), true));
    Seq::new(front.len(), |j: int| front[order[j] as int])
}

/// The survivors taken from front `k` onwards while `capacity` places are
/// left: whole fronts as long as they fit, then the most isolated members of
/// the first front that does not.
pub open spec fn survivors_from(
    rows: Seq<Seq<i64>>,
    fronts: Seq<Seq<usize>>,
    axes: nat,
    k: int,
    capacity: nat,
) -> Seq<usize>
    decreases fronts.len() - k,
{
    if k < 0 || k >= fronts.len() {
        Seq::empty()
    } else if fronts[k].len() <= capacity {
        fronts[k] + survivors_from(rows, fronts, axes, k + 1, (capacity - fronts[k].len()) as nat)
    } else {
        by_falling_distance(rows, fronts[k], axes).take(capacity as int)
    }
}

/// The members that survive when a population with the objective vectors
/// `rows`, sorted into `fronts`, is cut down to `capacity` members.
pub open spec fn survivors(
    rows: Seq<Seq<i64>>,
    fronts: Seq<Seq<usize>>,
    axes: nat,
    capacity: nat,
) -> Seq<usize> {
    survivors_from(rows, fronts, axes, 0, capacity)
}

/// The number of members in front `k` and the fronts behind it.
spec fn members_from(fronts: Seq<Seq<usize>>, k: int) -> nat
    decreases fronts.len() - k,
{
    if k < 0 || k >= fronts.len() {
        0
    } else {
        fronts[k].len() + members_from(fronts, k + 1)
    }
}

proof fn lemma_members_from(fronts: Seq<Seq<usize>>, k: int)
    requires
        0 <= k <= fronts.len(),
    ensures
        total_members(fronts.take(k)) + members_from(fronts, k) == members_from(fronts, 0),
    decreases k,
{
    if k == 0 {
    } else {
        lemma_members_from(fronts, k - 1);
        assert(fronts.take(k).drop_last() =~= fronts.take(k - 1));
    }
}

proof fn lemma_survivors_from_len(
    rows: Seq<Seq<i64>>,
    fronts: Seq<Seq<usize>>,
    axes: nat,
    k: int,
    capacity: nat,
)
    requires
        0 <= k <= fronts.len(),
    ensures
        survivors_from(rows, fronts, axes, k, capacity).len() == if capacity <= members_from(
            fronts,
            k,
        ) {
            capacity
        } else {
            members_from(fronts, k)
        },
    decreases fronts.len() - k,
{
    if k < fronts.len() && fronts[k].len() <= capacity {
        lemma_survivors_from_len(rows, fronts, axes, k + 1, (capacity - fronts[k].len()) as nat);
    }
}

/// As many members survive as there is capacity, or all where there are
/// fewer.
pub proof fn lemma_survivors_len(
    rows: Seq<Seq<i64>>,
    fronts: Seq<Seq<usize>>,
    axes: nat,
    capacity: nat,
)
    ensures
        survivors(rows, fronts, axes, capacity).len() == if capacity <= total_members(fronts) {
            capacity
        } else {
            total_members(fronts)
        },
{
    lemma_survivors_from_len(rows, fronts, axes, 0, capacity);
    lemma_members_from(fronts, fronts.len() as int);
    assert(fronts.take(fronts.len() as int) =~= fronts);
}

/// Where anybody survives, the first survivor comes from the first front:
/// the best members are never all lost.
pub proof fn lemma_first_survivor_is_of_first_front(
    rows: Seq<Seq<i64>>,
    fronts: Seq<Seq<usize>>,
    axes: nat,
    capacity: nat,
)
    requires
        capacity >= 1,
        fronts.len() >= 1,
        1 <= fronts[0].len() <= usize::MAX,
    ensures
        survivors(rows, fronts, axes, capacity).len() >= 1,
        fronts[0].contains(survivors(rows, fronts, axes, capacity)[0]),
{
    let first = fronts[0];
    if first.len() <= capacity {
    } else {
        let keys = sort_keys(front_distances(rows, first, axes), true);
        lemma_stable_order_exists(keys);
    }
}

/// Chooses the members of the next generation from a population sorted into
/// fronts: whole fronts in rank order while they fit into `capacity`, then,
/// from the first front that does not fit, the members of greatest crowding
/// distance until the capacity is used up.
pub fn select_survivors(
    rows: &Vec<Vec<i64>>,
    fronts: &Vec<Vec<usize>>,
    objective_count: usize,
    capacity: usize,
) -> (chosen: Vec<usize>)
    requires
        has_axes(rows_view(rows@), objective_count as nat),
        forall|k: int, j: int| #[trigger]
            slot(front_view(fronts@), k, j) ==> fronts[k][j] < rows.len(),
    ensures
        chosen@ == survivors(
            rows_view(rows@),
            front_view(fronts@),
            objective_count as nat,
            capacity as nat,
        ),
        forall|i: int| 0 <= i < chosen.len() ==> (#[trigger] chosen[i]) < rows.len(),
{
    let ghost r = rows_view(rows@);
    let ghost layers = front_view(fronts@);
    let ghost axes = objective_count as nat;
    let mut chosen: Vec<usize> = Vec::new();
    let mut k: usize = 0;
    let mut full = false;
    while k < fronts.len() && !full
        invariant
            k <= fronts.len(),
            r == rows_view(rows@),
            layers == front_view(fronts@),
            axes == objective_count as nat,
            has_axes(r, axes),
            forall|k0: int, j0: int| #[trigger] slot(layers, k0, j0) ==> layers[k0][j0] < rows.len(),
            chosen.len() <= capacity,
            forall|i: int| 0 <= i < chosen.len() ==> (#[trigger] chosen[i]) < rows.len(),
            !full ==> survivors(r, layers, axes, capacity as nat) == chosen@ + survivors_from(
                r,
                layers,
                axes,
                k as int,
                (capacity - chosen.len()) as nat,
            ),
            full ==> survivors(r, layers, axes, capacity as nat) == chosen@,
        decreases
                fronts.len() - k,
                (if full {
                    0int
                } else {
                    1int
                }),
    {
        let front = &fronts[k];
        let room = capacity - chosen.len();
        let ghost taken = chosen@;
        proof {
            assert forall|j: int| 0 <= j < front.len() implies (#[trigger] front[j]) < rows.len() by {
                assert(slot(layers, k as int, j));
            }
        }
        if front.len() <= room {
            let mut j: usize = 0;
            while j < front.len()
                invariant
                    j <= front.len(),
                    chosen@ == taken + front@.take(j as int),
                    forall|i: int| 0 <= i < front.len() ==> (#[trigger] front[i]) < rows.len(),
                    forall|i: int| 0 <= i < chosen.len() ==> (#[trigger] chosen[i]) < rows.len(),
                decreases front.len() - j,
            {
                chosen.push(front[j]);
                j += 1;
            }
            k += 1;
        } else {
            let distances = front_crowding(rows, front, objective_count);
            let order = stable_order(&distances, true);
            let ghost ranked = by_falling_distance(r, front@, axes);
            let mut j: usize = 0;
            while j < room
                invariant
                    j <= room,
                    room < front.len(),
                    order.len() == front.len(),
                    is_stable_order(sort_keys(distances@, true), order@),
                    ranked.len() == front.len(),
                    forall|i: int| 0 <= i < front.len() ==> ranked[i] == front[order[i] as int],
                    chosen@ == taken + ranked.take(j as int),
                    forall|i: int| 0 <= i < front.len() ==> (#[trigger] front[i]) < rows.len(),
                    forall|i: int| 0 <= i < chosen.len() ==> (#[trigger] chosen[i]) < rows.len(),
                decreases room - j,
            {
                chosen.push(front[order[j]]);
                j += 1;
            }
            full = true;
        }
    }
    chosen
}

} // verus!
