//! Crowding distance: how isolated a member is among the members of its front.

use crate::ordering::comes_before;
use crate::ordering::is_stable_order;
use crate::ordering::lemma_stable_order_exists;
use crate::ordering::occurs;
use crate::ordering::sort_keys;
use crate::ordering::stable_order;
use crate::ordering::stable_order_of;
use crate::ordering::SortKey;
use crate::solution::Solution;
use crate::sorting::front_of;
use crate::sorting::front_view;
use crate::sorting::is_placed;
use crate::sorting::is_partition;
use crate::sorting::lemma_front_of;
use crate::sorting::objective_rows;
use crate::sorting::slot;
use vstd::prelude::*;

verus! {

/// The distance that stands for 1.0: the whole range of one objective.
pub const CROWDING_UNIT: u128 = 1_000_000_000;

/// A crowding distance: a fixed-point number of `CROWDING_UNIT`s, or the
/// infinite distance of a member at the edge of its front.
#[derive(Clone, Copy, Debug, PartialEq, Eq)]
pub enum Crowding {
    Finite(u128),
    Infinite,
}

impl Crowding {
    /// The distance as a number: the infinite one lies above every finite one.
    pub open spec fn magnitude(&self) -> int {
        match self {
            Crowding::Finite(units) => *units as int,
            Crowding::Infinite => u128::MAX + 1,
        }
    }

    /// Whether this distance is strictly greater than `other`.
    pub fn exceeds(&self, other: &Crowding) -> (result: bool)
        ensures
            result == (self.magnitude() > other.magnitude()),
    {
        match (self, other) {
            (Crowding::Infinite, Crowding::Finite(_)) => true,
            (Crowding::Finite(mine), Crowding::Finite(theirs)) => *mine > *theirs,
            (_, Crowding::Infinite) => false,
        }
    }
}

impl SortKey for Crowding {
    open spec fn sort_key(&self) -> int {
        self.magnitude()
    }

    fn sorts_before(&self, other: &Self) -> (result: bool) {
        other.exceeds(self)
    }
}

/// Objective vectors as nested sequences.
pub open spec fn rows_view(rows: Seq<Vec<i64>>) -> Seq<Seq<i64>> {
    Seq::new(rows.len(), |i: int| rows[i]@)
}

/// The number of objectives, as the first member has it.
pub open spec fn axes_of(rows: Seq<Seq<i64>>) -> nat {
    if rows.len() > 0 {
        rows[0].len()
    } else {
        0
    }
}

/// Every member has a value on each of the first `axes` objectives.
pub open spec fn has_axes(rows: Seq<Seq<i64>>, axes: nat) -> bool {
    forall|i: int| 0 <= i < rows.len() ==> (#[trigger] rows[i]).len() >= axes
}

/// The values of all members on objective `axis`.
pub open spec fn axis_values(rows: Seq<Seq<i64>>, axis: int) -> Seq<int> {
    Seq::new(rows.len(), |i: int| rows[i][axis] as int)
}

/// The members ordered by their value on objective `axis`, equal values in
/// front order.
pub open spec fn axis_order(rows: Seq<Seq<i64>>, axis: int) -> Seq<usize> {
    stable_order_of(axis_values(rows, axis))
}

/// The place of member `i` in `order`.
pub open spec fn place_of(order: Seq<usize>, i: int) -> int {
    choose|k: int| 0 <= k < order.len() && order[k] == i
}

/// Member `i` is the first or the last of `order`.
pub open spec fn is_extreme(order: Seq<usize>, i: int) -> bool {
    order.len() > 0 && (order[0] == i || order[order.len() - 1] == i)
}

/// Member `i` has the lowest or the highest value on objective `axis`.
pub open spec fn is_extreme_on_axis(rows: Seq<Seq<i64>>, axis: int, i: int) -> bool {
    is_extreme(axis_order(rows, axis), i)
}

/// The gap between the neighbours `previous` and `next` of a member, as a
/// share of the range from `low` to `high`, rounded down.
pub open spec fn gap_share(previous: int, next: int, low: int, high: int) -> int {
    (next - previous) * CROWDING_UNIT / (high - low)
}

/// What objective `axis` adds to the distance of member `i`: the normalized
/// gap between its two neighbours in `order`, and nothing for a member at
/// either end or where all values are equal.
pub open spec fn axis_share(values: Seq<int>, order: Seq<usize>, i: int) -> int {
    let k = place_of(order, i);
    let low = values[order[0] as int];
    let high = values[order[order.len() - 1] as int];
    if 0 < k < order.len() - 1 && low < high {
        gap_share(values[order[k - 1] as int], values[order[k + 1] as int], low, high)
    } else {
        0
    }
}

/// The sum of the shares of member `i` over the first `axes` objectives.
pub open spec fn total_share(rows: Seq<Seq<i64>>, axes: nat, i: int) -> int
    decreases axes,
{
    if axes == 0 {
        0
    } else {
        total_share(rows, (axes - 1) as nat, i) + axis_share(
            axis_values(rows, axes - 1),
            axis_order(rows, axes - 1),
            i,
        )
    }
}

/// Member `i` is extreme on one of the first `axes` objectives.
pub open spec fn is_extreme_on_some_axis(rows: Seq<Seq<i64>>, axes: nat, i: int) -> bool {
    exists|axis: int| 0 <= axis < axes && #[trigger] is_extreme_on_axis(rows, axis, i)
}

/// The crowding distance of member `i` of a front over the first `axes`
/// objectives: infinite where the member is extreme on any of them,
/// otherwise the sum of its shares.
pub open spec fn crowding_of(rows: Seq<Seq<i64>>, axes: nat, i: int) -> Crowding {
    if is_extreme_on_some_axis(rows, axes, i) {
        Crowding::Infinite
    } else {
        Crowding::Finite(total_share(rows, axes, i) as u128)
    }
}

/// A distance after one more objective has added `share` to it.
spec fn raised(distance: Crowding, share: int) -> Crowding {
    match distance {
        Crowding::Finite(units) => Crowding::Finite((units + share) as u128),
        Crowding::Infinite => Crowding::Infinite,
    }
}

/// In a stable order every member has its own place.
proof fn lemma_place_of(keys: Seq<int>, order: Seq<usize>, k: int)
    requires
        is_stable_order(keys, order),
        0 <= k < order.len(),
    ensures
        place_of(order, order[k] as int) == k,
{
    let found = place_of(order, order[k] as int);
    if found < k {
        assert(comes_before(keys, order[found] as int, order[k] as int));
    }
    if k < found {
        assert(comes_before(keys, order[k] as int, order[found] as int));
    }
}

/// The values rise along a stable order.
proof fn lemma_order_rises(keys: Seq<int>, order: Seq<usize>, a: int, b: int)
    requires
        is_stable_order(keys, order),
        0 <= a <= b < order.len(),
    ensures
        keys[order[a] as int] <= keys[order[b] as int],
{
    if a < b {
        assert(comes_before(keys, order[a] as int, order[b] as int));
    }
}

proof fn lemma_gap_share_bounds(previous: int, next: int, low: int, high: int)
    requires
        low <= previous <= next <= high,
        low < high,
    ensures
        0 <= gap_share(previous, next, low, high) <= CROWDING_UNIT,
{
    let gap = next - previous;
    let range = high - low;
    let unit = CROWDING_UNIT as int;
    assert(0 <= gap * unit / range <= unit) by (nonlinear_arith)
        requires
            0 <= gap <= range,
            0 < range,
            0 <= unit,
    ;
}

/// A share lies between nothing and one unit.
proof fn lemma_axis_share_bounds(values: Seq<int>, order: Seq<usize>, i: int)
    requires
        is_stable_order(values, order),
        0 <= i < values.len(),
    ensures
        0 <= axis_share(values, order, i) <= CROWDING_UNIT,
{
    let k = place_of(order, i);
    let last = order.len() - 1;
    if 0 < k < last && values[order[0] as int] < values[order[last] as int] {
        lemma_order_rises(values, order, 0, k - 1);
        lemma_order_rises(values, order, k - 1, k + 1);
        lemma_order_rises(values, order, k + 1, last);
        lemma_gap_share_bounds(
            values[order[k - 1] as int],
            values[order[k + 1] as int],
            values[order[0] as int],
            values[order[last] as int],
        );
    }
}

/// One more objective: a member extreme on it gets the infinite distance,
/// any other has its share added.
proof fn lemma_crowding_step(rows: Seq<Seq<i64>>, axes: nat, i: int)
    ensures
        crowding_of(rows, axes + 1, i) == (if is_extreme_on_axis(rows, axes as int, i) {
            Crowding::Infinite
        } else {
            match crowding_of(rows, axes, i) {
                Crowding::Infinite => Crowding::Infinite,
                Crowding::Finite(_) => Crowding::Finite(
                    (total_share(rows, axes, i) + axis_share(
                        axis_values(rows, axes as int),
                        axis_order(rows, axes as int),
                        i,
                    )) as u128,
                ),
            }
        }),
{
    if is_extreme_on_some_axis(rows, axes, i) {
        assert(is_extreme_on_some_axis(rows, axes + 1, i));
    }
}

/// Computes the share of a gap in exact integer arithmetic.
fn share_of_gap(previous: i64, next: i64, low: i64, high: i64) -> (share: u128)
    requires
        low <= previous <= next <= high,
        low < high,
    ensures
        share == gap_share(previous as int, next as int, low as int, high as int),
        share <= CROWDING_UNIT,
{
    let gap: u128 = (next as i128 - previous as i128) as u128;
    let range: u128 = (high as i128 - low as i128) as u128;
    proof {
        lemma_gap_share_bounds(previous as int, next as int, low as int, high as int);
    }
    gap * CROWDING_UNIT / range
}

/// Collects the values of all members on one objective.
fn axis_column(rows: &Vec<Vec<i64>>, axis: usize) -> (column: Vec<i64>)
    requires
        forall|i: int| 0 <= i < rows.len() ==> axis < (#[trigger] rows[i]).len(),
    ensures
        column.len() == rows.len(),
        forall|i: int| 0 <= i < rows.len() ==> (#[trigger] column[i]) == rows[i][axis as int],
{
    let mut column: Vec<i64> = Vec::new();
    let mut i: usize = 0;
    while i < rows.len()
        invariant
            i <= rows.len(),
            column.len() == i,
            forall|k: int| 0 <= k < rows.len() ==> axis < (#[trigger] rows[k]).len(),
            forall|k: int| 0 <= k < i ==> (#[trigger] column[k]) == rows[k][axis as int],
        decreases rows.len() - i,
    {
        column.push(rows[i][axis]);
        i += 1;
    }
    column
}

/// The distances while one objective is worked in: the two ends are set,
/// and the members at places `1..upto` of `order` have their share.
spec fn distance_during(
    before: Crowding,
    values: Seq<int>,
    order: Seq<usize>,
    upto: int,
    i: int,
) -> Crowding {
    if is_extreme(order, i) {
        Crowding::Infinite
    } else if place_of(order, i) < upto {
        raised(before, axis_share(values, order, i))
    } else {
        before
    }
}

/// Computes the crowding distance of every member of a front from the
/// members' objective vectors, over the first `objective_count` objectives.
///
/// On each objective the members are ordered by value, equal values in front
/// order. The first and the last get the infinite distance. Every member
/// between them gets the gap between its two neighbours, as a share of the
/// whole range, added to its distance, unless all values are equal.
pub fn crowding_distances(rows: &Vec<Vec<i64>>, objective_count: usize) -> (distances: Vec<
    Crowding,
>)
    requires
        has_axes(rows_view(rows@), objective_count as nat),
    ensures
        distances.len() == rows.len(),
        forall|i: int|
            0 <= i < rows.len() ==> (#[trigger] distances[i]) == crowding_of(
                rows_view(rows@),
                objective_count as nat,
                i,
            ),
{
    let n = rows.len();
    let ghost r = rows_view(rows@);
    let mut distances: Vec<Crowding> = Vec::new();
    let mut filled: usize = 0;
    while filled < n
        invariant
            filled <= n,
            distances.len() == filled,
            forall|i: int| 0 <= i < filled ==> (#[trigger] distances[i]) == Crowding::Finite(0),
        decreases n - filled,
    {
        distances.push(Crowding::Finite(0));
        filled += 1;
    }
    if n == 0 {
        return distances;
    }
    let mut axis: usize = 0;
    while axis < objective_count
        invariant
            axis <= objective_count,
            n == rows.len(),
            n > 0,
            r == rows_view(rows@),
            has_axes(r, objective_count as nat),
            distances.len() == n,
            forall|i: int| 0 <= i < n ==> (#[trigger] distances[i]) == crowding_of(r, axis as nat, i),
            forall|i: int|
                0 <= i < n ==> 0 <= #[trigger] total_share(r, axis as nat, i) <= axis
                    * CROWDING_UNIT,
        decreases objective_count - axis,
    {
        proof {
            assert forall|i: int| 0 <= i < rows.len() implies axis < (#[trigger] rows[i]).len() by {
                assert(r[i].len() >= objective_count);
            }
        }
        let column = axis_column(rows, axis);
        let order = stable_order(&column, false);
        let ghost values = axis_values(r, axis as int);
        let ghost before = distances@;
        proof {
            assert(sort_keys(column@, false) =~= values);
        }
        let lowest = order[0];
        let highest = order[n - 1];
        let low = column[lowest];
        let high = column[highest];
        distances.set(lowest, Crowding::Infinite);
        distances.set(highest, Crowding::Infinite);
        let mut k: usize = 1;
        if low < high {
            while k < n - 1
                invariant
                    1 <= k,
                    n == rows.len(),
                    n > 0,
                    order.len() == n,
                    column.len() == n,
                    distances.len() == n,
                    before.len() == n,
                    is_stable_order(values, order@),
                    values.len() == n,
                    forall|i: int| 0 <= i < n ==> (#[trigger] column[i]) as int == values[i],
                    low == column[order[0] as int],
                    high == column[order[n - 1] as int],
                    low < high,
                    axis < objective_count,
                    forall|i: int|
                        0 <= i < n ==> (#[trigger] before[i]) == crowding_of(r, axis as nat, i),
                    forall|i: int|
                        0 <= i < n ==> 0 <= #[trigger] total_share(r, axis as nat, i) <= axis
                            * CROWDING_UNIT,
                    forall|i: int|
                        0 <= i < n ==> (#[trigger] distances[i]) == distance_during(
                            before[i],
                            values,
                            order@,
                            k as int,
                            i,
                        ),
                decreases n - k,
            {
                let member = order[k];
                proof {
                    lemma_order_rises(values, order@, 0, k - 1);
                    lemma_order_rises(values, order@, k - 1, k + 1);
                    lemma_order_rises(values, order@, k + 1, n - 1);
                    lemma_place_of(values, order@, k as int);
                }
                let share = share_of_gap(column[order[k - 1]], column[order[k + 1]], low, high);
                let current = distances[member];
                match current {
                    Crowding::Finite(units) => {
                        distances.set(member, Crowding::Finite(units + share));
                    },
                    Crowding::Infinite => {},
                }
                k += 1;
                proof {
                    assert forall|i: int| 0 <= i < n implies (#[trigger] distances[i])
                        == distance_during(before[i], values, order@, k as int, i) by {
                        if i != member {
                            if !is_extreme(order@, i) {
                                assert(occurs(order@, i));
                            }
                        }
                    }
                }
            }
        }
        proof {
            assert forall|i: int| 0 <= i < n implies (#[trigger] distances[i]) == crowding_of(
                r,
                (axis + 1) as nat,
                i,
            ) by {
                lemma_crowding_step(r, axis as nat, i);
                lemma_axis_share_bounds(values, order@, i);
            }
            assert forall|i: int| 0 <= i < n implies 0 <= #[trigger] total_share(
                r,
                (axis + 1) as nat,
                i,
            ) <= (axis + 1) * CROWDING_UNIT by {
                lemma_axis_share_bounds(values, order@, i);
                assert(total_share(r, axis as nat, i) <= axis * CROWDING_UNIT);
            }
        }
        axis += 1;
    }
    distances
}

/// Evaluates the objectives of every member.
pub fn objective_table<S: Solution>(members: &[S]) -> (rows: Vec<Vec<i64>>)
    ensures
        rows.len() == members.len(),
        rows_view(rows@) == objective_rows(members@),
        forall|i: int| 0 <= i < rows.len() ==> (#[trigger] rows[i]).len() == S::objective_count(),
        has_axes(rows_view(rows@), S::objective_count()),
{
    let mut rows: Vec<Vec<i64>> = Vec::new();
    let mut i: usize = 0;
    while i < members.len()
        invariant
            i <= members.len(),
            rows.len() == i,
            forall|k: int| 0 <= k < i ==> (#[trigger] rows[k])@ == members[k].objectives(),
            forall|k: int| 0 <= k < i ==> (#[trigger] rows[k]).len() == S::objective_count(),
        decreases members.len() - i,
    {
        rows.push(members[i].fitness());
        i += 1;
    }
    rows
}

/// Computes the crowding distance of every member of a front, over the
/// first `objective_count` objectives of the problem.
pub fn crowding_distance<S: Solution>(front: &[S], objective_count: usize) -> (distances: Vec<
    Crowding,
>)
    requires
        objective_count <= S::objective_count(),
    ensures
        distances.len() == front.len(),
        forall|i: int|
            0 <= i < front.len() ==> (#[trigger] distances[i]) == crowding_of(
                objective_rows(front@),
                objective_count as nat,
                i,
            ),
{
    let rows = objective_table(front);
    crowding_distances(&rows, objective_count)
}

/// On each objective, the front's lowest and its highest member are two
/// different members once the front has two, both get the infinite distance,
/// and no third member is extreme on that objective.
pub proof fn lemma_extremes_are_infinite(rows: Seq<Seq<i64>>, axes: nat, axis: int)
    requires
        2 <= rows.len() <= usize::MAX,
        0 <= axis < axes,
    ensures
        ({
            let order = axis_order(rows, axis);
            let lowest = order[0] as int;
            let highest = order[rows.len() - 1] as int;
            &&& order.len() == rows.len()
            &&& 0 <= lowest < rows.len()
            &&& 0 <= highest < rows.len()
            &&& lowest != highest
            &&& crowding_of(rows, axes, lowest) == Crowding::Infinite
            &&& crowding_of(rows, axes, highest) == Crowding::Infinite
            &&& forall|i: int| #[trigger]
                is_extreme_on_axis(rows, axis, i) ==> i == lowest || i == highest
        }),
{
    let values = axis_values(rows, axis);
    lemma_stable_order_exists(values);
    let order = axis_order(rows, axis);
    assert(comes_before(values, order[0] as int, order[rows.len() - 1] as int));
    assert(is_extreme_on_axis(rows, axis, order[0] as int));
    assert(is_extreme_on_axis(rows, axis, order[rows.len() - 1] as int));
}

/// A member that is extreme on no objective has a finite distance: the sum
/// of its shares, each between nothing and one unit.
pub proof fn lemma_interior_is_finite(rows: Seq<Seq<i64>>, axes: nat, i: int)
    requires
        rows.len() <= usize::MAX,
        0 <= i < rows.len(),
        !is_extreme_on_some_axis(rows, axes, i),
    ensures
        crowding_of(rows, axes, i) == Crowding::Finite(total_share(rows, axes, i) as u128),
        0 <= total_share(rows, axes, i) <= axes * CROWDING_UNIT,
    decreases axes,
{
    if axes > 0 {
        let before = (axes - 1) as nat;
        lemma_interior_is_finite(rows, before, i);
        let values = axis_values(rows, axes - 1);
        lemma_stable_order_exists(values);
        lemma_axis_share_bounds(values, axis_order(rows, axes - 1), i);
    }
}

/// The objective vectors of the members of one front, in front order.
pub open spec fn front_rows(rows: Seq<Seq<i64>>, front: Seq<usize>) -> Seq<Seq<i64>> {
    Seq::new(front.len(), |j: int| rows[front[j] as int])
}

/// The crowding distances of the members of one front, in front order.
pub open spec fn front_distances(rows: Seq<Seq<i64>>, front: Seq<usize>, axes: nat) -> Seq<
    Crowding,
> {
    Seq::new(front.len(), |j: int| crowding_of(front_rows(rows, front), axes, j))
}

/// The place of member `p` within its front.
pub open spec fn place_in_front(fronts: Seq<Seq<usize>>, p: int) -> int {
    choose|j: int| #[trigger] slot(fronts, front_of(fronts, p), j) && fronts[front_of(fronts, p)][j] == p
}

/// The crowding distance of every member within its own front, listed by
/// member.
pub open spec fn member_distances(rows: Seq<Seq<i64>>, fronts: Seq<Seq<usize>>, axes: nat) -> Seq<
    Crowding,
> {
    Seq::new(
        rows.len(),
        |p: int| front_distances(rows, fronts[front_of(fronts, p)], axes)[place_in_front(fronts, p)],
    )
}

/// In a partition, a member stands where it is found.
pub proof fn lemma_place_in_front(fronts: Seq<Seq<usize>>, members: nat, k: int, j: int)
    requires
        is_partition(fronts, members),
        slot(fronts, k, j),
    ensures
        front_of(fronts, fronts[k][j] as int) == k,
        place_in_front(fronts, fronts[k][j] as int) == j,
{
    lemma_front_of(fronts, members, k, j);
    let found = place_in_front(fronts, fronts[k][j] as int);
    assert(slot(fronts, k, found) && slot(fronts, k, j));
}

fn copy_row(row: &Vec<i64>) -> (copy: Vec<i64>)
    ensures
        copy@ == row@,
{
    let mut copy: Vec<i64> = Vec::new();
    let mut i: usize = 0;
    while i < row.len()
        invariant
            i <= row.len(),
            copy.len() == i,
            forall|k: int| 0 <= k < i ==> copy[k] == row[k],
        decreases row.len() - i,
    {
        copy.push(row[i]);
        i += 1;
    }
    copy
}

/// Computes the crowding distances within one front of a population whose
/// objective vectors are `rows`.
pub fn front_crowding(rows: &Vec<Vec<i64>>, front: &Vec<usize>, objective_count: usize) -> (distances:
    Vec<Crowding>)
    requires
        has_axes(rows_view(rows@), objective_count as nat),
        forall|j: int| 0 <= j < front.len() ==> (#[trigger] front[j]) < rows.len(),
    ensures
        distances@ == front_distances(rows_view(rows@), front@, objective_count as nat),
{
    let mut gathered: Vec<Vec<i64>> = Vec::new();
    let mut j: usize = 0;
    while j < front.len()
        invariant
            j <= front.len(),
            gathered.len() == j,
            forall|k: int| 0 <= k < front.len() ==> (#[trigger] front[k]) < rows.len(),
            forall|k: int| 0 <= k < j ==> (#[trigger] gathered[k])@ == rows[front[k] as int]@,
        decreases front.len() - j,
    {
        gathered.push(copy_row(&rows[front[j]]));
        j += 1;
    }
    proof {
        assert(rows_view(gathered@) =~= front_rows(rows_view(rows@), front@));
    }
    let distances = crowding_distances(&gathered, objective_count);
    distances
}

/// Computes the crowding distance of every member within its own front,
/// listed by member.
pub fn distances_by_member(
    rows: &Vec<Vec<i64>>,
    fronts: &Vec<Vec<usize>>,
    objective_count: usize,
) -> (distances: Vec<Crowding>)
    requires
        has_axes(rows_view(rows@), objective_count as nat),
        is_partition(front_view(fronts@), rows.len() as nat),
    ensures
        distances.len() == rows.len(),
        forall|k: int, j: int|
            #![trigger slot(front_view(fronts@), k, j)]
            slot(front_view(fronts@), k, j) ==> distances[fronts[k][j] as int] == front_distances(
                rows_view(rows@),
                fronts[k]@,
                objective_count as nat,
            )[j],
        distances@ == member_distances(
            rows_view(rows@),
            front_view(fronts@),
            objective_count as nat,
        ),
{
    let n = rows.len();
    let ghost layers = front_view(fronts@);
    let ghost r = rows_view(rows@);
    let mut distances: Vec<Crowding> = Vec::new();
    let mut filled: usize = 0;
    while filled < n
        invariant
            filled <= n,
            distances.len() == filled,
        decreases n - filled,
    {
        distances.push(Crowding::Finite(0));
        filled += 1;
    }
    let mut k: usize = 0;
    while k < fronts.len()
        invariant
            k <= fronts.len(),
            n == rows.len(),
            layers == front_view(fronts@),
            r == rows_view(rows@),
            has_axes(r, objective_count as nat),
            is_partition(layers, n as nat),
            distances.len() == n,
            forall|k0: int, j0: int|
                #![trigger slot(layers, k0, j0)]
                slot(layers, k0, j0) && k0 < k ==> distances[layers[k0][j0] as int]
                    == front_distances(r, layers[k0], objective_count as nat)[j0],
        decreases fronts.len() - k,
    {
        proof {
            assert forall|j: int| 0 <= j < fronts[k as int].len() implies (
            #[trigger] fronts[k as int][j]) < rows.len() by {
                assert(slot(layers, k as int, j));
            }
        }
        let within = front_crowding(rows, &fronts[k], objective_count);
        let mut j: usize = 0;
        while j < fronts[k].len()
            invariant
                k < fronts.len(),
                j <= fronts[k as int].len(),
                n == rows.len(),
                layers == front_view(fronts@),
                is_partition(layers, n as nat),
                distances.len() == n,
                within@ == front_distances(r, layers[k as int], objective_count as nat),
                forall|k0: int, j0: int|
                    #![trigger slot(layers, k0, j0)]
                    slot(layers, k0, j0) && (k0 < k || (k0 == k && j0 < j)) ==> distances[layers[k0][j0] as int]
                        == front_distances(r, layers[k0], objective_count as nat)[j0],
            decreases fronts[k as int].len() - j,
        {
            let member = fronts[k][j];
            proof {
                assert(slot(layers, k as int, j as int));
            }
            distances.set(member, within[j]);
            j += 1;
        }
        k += 1;
    }
    proof {
        let expected = member_distances(r, layers, objective_count as nat);
        assert forall|p: int| 0 <= p < n implies distances@[p] == expected[p] by {
            assert(is_placed(layers, p));
            let (k0, j0) = choose|k0: int, j0: int| #[trigger]
                slot(layers, k0, j0) && layers[k0][j0] == p;
            lemma_place_in_front(layers, n as nat, k0, j0);
        }
        assert(distances@ =~= expected);
    }
    distances
}

} // verus!
