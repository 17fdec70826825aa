//! Non-dominated sorting: the partition of a population into Pareto fronts.

use crate::dominance::pareto_dominates;
use crate::solution::Solution;
use vstd::prelude::*;
use vstd::set_lib::*;

verus! {

/// The objective vectors of a population, one row per member.
pub open spec fn objective_rows<S: Solution>(population: Seq<S>) -> Seq<Seq<i64>> {
    Seq::new(population.len(), |i: int| population[i].objectives())
}

/// Who dominates whom among the members with these objective vectors:
/// entry `[p][q]` says that `p` dominates `q`.
pub open spec fn dominance_table(rows: Seq<Seq<i64>>) -> Seq<Seq<bool>> {
    Seq::new(
        rows.len(),
        |p: int| Seq::new(rows.len(), |q: int| p != q && pareto_dominates(rows[p], rows[q])),
    )
}

/// A table of booleans as nested sequences.
pub open spec fn table_view(table: Seq<Vec<bool>>) -> Seq<Seq<bool>> {
    Seq::new(table.len(), |p: int| table[p]@)
}

/// The fronts as sequences of member indices.
pub open spec fn front_view(fronts: Seq<Vec<usize>>) -> Seq<Seq<usize>> {
    Seq::new(fronts.len(), |k: int| fronts[k]@)
}

/// The table is square and its relation irreflexive and transitive, as any
/// dominance relation is.
pub open spec fn is_strict_order(table: Seq<Seq<bool>>) -> bool {
    &&& forall|p: int| 0 <= p < table.len() ==> (#[trigger] table[p]).len() == table.len()
    &&& forall|p: int| 0 <= p < table.len() ==> !(#[trigger] table[p])[p]
    &&& forall|a: int, b: int, c: int|
        #![trigger table[a][b], table[b][c]]
        0 <= a < table.len() && 0 <= b < table.len() && 0 <= c < table.len() && table[a][b]
            && table[b][c] ==> table[a][c]
}

/// `(k, j)` addresses an entry of `fronts`.
pub open spec fn slot(fronts: Seq<Seq<usize>>, k: int, j: int) -> bool {
    0 <= k < fronts.len() && 0 <= j < fronts[k].len()
}

/// Member `p` stands in one of the fronts.
pub open spec fn is_placed(fronts: Seq<Seq<usize>>, p: int) -> bool {
    exists|k: int, j: int| #[trigger] slot(fronts, k, j) && fronts[k][j] == p
}

/// No member dominates `p`.
pub open spec fn is_undominated(table: Seq<Seq<bool>>, p: int) -> bool {
    forall|d: int| 0 <= d < table.len() ==> !(#[trigger] table[d])[p]
}

/// `fronts` partitions the indices below `members`: every entry is such an
/// index, and every such index stands at exactly one place.
pub open spec fn is_partition(fronts: Seq<Seq<usize>>, members: nat) -> bool {
    &&& forall|k: int, j: int| #[trigger] slot(fronts, k, j) ==> fronts[k][j] < members
    &&& forall|p: int| 0 <= p < members ==> #[trigger] is_placed(fronts, p)
    &&& forall|k1: int, j1: int, k2: int, j2: int|
        #![trigger slot(fronts, k1, j1), slot(fronts, k2, j2)]
        slot(fronts, k1, j1) && slot(fronts, k2, j2) && fronts[k1][j1] == fronts[k2][j2] ==> k1
            == k2 && j1 == j2
}

/// `fronts` ranks the members of `table`: every member stands in exactly one
/// front, whoever dominates a member stands in an earlier front, and every
/// member beyond the first front is dominated by one of the front before.
pub open spec fn is_front_ranking(table: Seq<Seq<bool>>, fronts: Seq<Seq<usize>>) -> bool {
    &&& is_partition(fronts, table.len())
    &&& forall|k1: int, j1: int, k2: int, j2: int|
        #![trigger slot(fronts, k1, j1), slot(fronts, k2, j2)]
        slot(fronts, k1, j1) && slot(fronts, k2, j2) && table[fronts[k1][j1] as int][fronts[k2][j2] as int]
            ==> k1 < k2
    &&& forall|k: int, j: int|
        #![trigger slot(fronts, k, j)]
        slot(fronts, k, j) && k > 0 ==> exists|k0: int, j0: int| #[trigger]
            slot(fronts, k0, j0) && k0 + 1 == k && table[fronts[k0][j0] as int][fronts[k][j] as int]
}

/// Member `p` stands in front `k`.
pub open spec fn stands_in(fronts: Seq<Seq<usize>>, k: int, p: int) -> bool {
    exists|j: int| #[trigger] slot(fronts, k, j) && fronts[k][j] == p
}

/// The front that member `p` stands in.
pub open spec fn front_of(fronts: Seq<Seq<usize>>, p: int) -> int {
    choose|k: int| #[trigger] stands_in(fronts, k, p)
}

/// In a partition, a member that stands in front `k` stands in no other.
pub proof fn lemma_front_of(fronts: Seq<Seq<usize>>, members: nat, k: int, j: int)
    requires
        is_partition(fronts, members),
        slot(fronts, k, j),
    ensures
        front_of(fronts, fronts[k][j] as int) == k,
{
    let p = fronts[k][j] as int;
    assert(stands_in(fronts, k, p));
}

/// The place in `front` of the last member that dominates `q`, or -1 where
/// no member of `front` does.
pub open spec fn last_dominator_place(table: Seq<Seq<bool>>, front: Seq<usize>, q: int) -> int
    decreases front.len(),
{
    if front.len() == 0 {
        -1
    } else if table[front.last() as int][q] {
        front.len() - 1
    } else {
        last_dominator_place(table, front.drop_last(), q)
    }
}

/// The front `previous` sets member `a` free before member `b`: the last
/// dominator of `a` stands before that of `b`, or they have the same and
/// `a` is the lower index.
pub open spec fn released_before(table: Seq<Seq<bool>>, previous: Seq<usize>, a: int, b: int) -> bool {
    let place_a = last_dominator_place(table, previous, a);
    let place_b = last_dominator_place(table, previous, b);
    place_a < place_b || (place_a == place_b && a < b)
}

/// The order of the members within the fronts: the first front lists its
/// members by rising index, and every later front in the order in which the
/// front before it sets them free.
pub open spec fn is_release_order(table: Seq<Seq<bool>>, fronts: Seq<Seq<usize>>) -> bool {
    &&& forall|a: int, b: int|
        fronts.len() > 0 && 0 <= a < b < fronts[0].len() ==> fronts[0][a] < fronts[0][b]
    &&& forall|k: int, a: int, b: int|
        #![trigger fronts[k][a], fronts[k][b]]
        1 <= k < fronts.len() && 0 <= a < b < fronts[k].len() ==> released_before(
            table,
            fronts[k - 1],
            fronts[k][a] as int,
            fronts[k][b] as int,
        )
}

/// The number of members that stand in the fronts.
pub open spec fn total_members(fronts: Seq<Seq<usize>>) -> nat
    decreases fronts.len(),
{
    if fronts.len() == 0 {
        0
    } else {
        total_members(fronts.drop_last()) + fronts.last().len()
    }
}

/// The members that dominate `q`.
pub open spec fn dominators(table: Seq<Seq<bool>>, q: int) -> Set<int> {
    Set::new(|d: int| 0 <= d < table.len() && table[d][q])
}

/// The dominators of `q` that are not in `done`.
spec fn remaining(table: Seq<Seq<bool>>, q: int, done: Set<int>) -> Set<int> {
    Set::new(|d: int| 0 <= d < table.len() && table[d][q] && !done.contains(d))
}

spec fn dominators_below(table: Seq<Seq<bool>>, q: int, bound: int) -> Set<int> {
    Set::new(|d: int| 0 <= d < bound && table[d][q])
}

/// `list` holds, in ascending order, exactly the members that `p` dominates.
spec fn lists_dominated(table: Seq<Seq<bool>>, p: int, list: Seq<usize>) -> bool {
    &&& forall|t: int|
        0 <= t < list.len() ==> (#[trigger] list[t]) < table.len() && table[p][list[t] as int]
    &&& forall|s: int, t: int| 0 <= s < t < list.len() ==> list[s] < list[t]
    &&& forall|q: int| 0 <= q < table.len() && #[trigger] table[p][q] ==> list.contains(q as usize)
}

proof fn lemma_remaining_finite(table: Seq<Seq<bool>>, q: int, done: Set<int>)
    ensures
        remaining(table, q, done).finite(),
        remaining(table, q, done).len() <= table.len(),
{
    lemma_int_range(0, table.len() as int);
    lemma_len_subset(remaining(table, q, done), set_int_range(0, table.len() as int));
}

/// Taking a dominator of `q` out of play lowers what remains by one.
proof fn lemma_release_dominated(table: Seq<Seq<bool>>, done: Set<int>, p: int, q: int)
    requires
        0 <= p < table.len(),
        table[p][q],
        !done.contains(p),
    ensures
        remaining(table, q, done).len() >= 1,
        remaining(table, q, done.insert(p)).len() == remaining(table, q, done).len() - 1,
{
    lemma_remaining_finite(table, q, done);
    assert(remaining(table, q, done.insert(p)) =~= remaining(table, q, done).remove(p));
}

/// Taking out a member that does not dominate `q` changes nothing for `q`.
proof fn lemma_release_other(table: Seq<Seq<bool>>, done: Set<int>, p: int, q: int)
    requires
        !table[p][q],
    ensures
        remaining(table, q, done.insert(p)) == remaining(table, q, done),
{
}

/// Nothing remains exactly when every dominator is done.
proof fn lemma_none_remaining(table: Seq<Seq<bool>>, q: int, done: Set<int>)
    ensures
        remaining(table, q, done).len() == 0 <==> (forall|d: int|
            0 <= d < table.len() && #[trigger] table[d][q] ==> done.contains(d)),
{
    lemma_remaining_finite(table, q, done);
    let r = remaining(table, q, done);
    if r.len() == 0 {
        assert forall|d: int| 0 <= d < table.len() && #[trigger] table[d][q] implies done.contains(
            d,
        ) by {
            if !done.contains(d) {
                assert(r.contains(d));
            }
        }
    }
    if forall|d: int| 0 <= d < table.len() && #[trigger] table[d][q] ==> done.contains(d) {
        assert(r =~= Set::empty());
    }
}

/// Some member of `among` dominates `u`.
spec fn has_dominator_among(table: Seq<Seq<bool>>, among: Set<int>, u: int) -> bool {
    exists|d: int| among.contains(d) && #[trigger] table[d][u]
}

/// In a strict order on finitely many members, a non-empty set cannot hold a
/// dominator for each of its members.
proof fn lemma_some_member_is_free(table: Seq<Seq<bool>>, stuck: Set<int>)
    requires
        is_strict_order(table),
        stuck.finite(),
        forall|u: int| stuck.contains(u) ==> 0 <= u < table.len(),
        forall|u: int| stuck.contains(u) ==> #[trigger] has_dominator_among(table, stuck, u),
    ensures
        stuck.len() == 0,
    decreases stuck.len(),
{
    if stuck.len() != 0 {
        let u = stuck.choose();
        let above = stuck.filter(|x: int| table[x][u]);
        lemma_len_subset(above, stuck.remove(u));
        assert(has_dominator_among(table, stuck, u));
        let d0 = choose|d: int| stuck.contains(d) && #[trigger] table[d][u];
        assert(above.contains(d0));
        assert forall|x: int| above.contains(x) implies #[trigger] has_dominator_among(
            table,
            above,
            x,
        ) by {
            assert(has_dominator_among(table, stuck, x));
        }
        lemma_some_member_is_free(table, above);
    }
}

/// Counts the members that dominate `p` and lists those that `p` dominates.
fn relations_of(table: &Vec<Vec<bool>>, p: usize) -> (found: (usize, Vec<usize>))
    requires
        is_strict_order(table_view(table@)),
        p < table.len(),
    ensures
        found.0 == dominators(table_view(table@), p as int).len(),
        lists_dominated(table_view(table@), p as int, found.1@),
{
    let n = table.len();
    let ghost t = table_view(table@);
    let mut count: usize = 0;
    let mut list: Vec<usize> = Vec::new();
    let mut q: usize = 0;
    proof {
        assert(dominators_below(t, p as int, 0) =~= Set::empty());
    }
    while q < n
        invariant
            q <= n,
            p < n,
            n == table.len(),
            t == table_view(table@),
            is_strict_order(t),
            count <= q,
            dominators_below(t, p as int, q as int).finite(),
            count == dominators_below(t, p as int, q as int).len(),
            forall|s: int| 0 <= s < list.len() ==> (#[trigger] list[s]) < q && t[p as int][list[s] as int],
            forall|r: int, s: int| 0 <= r < s < list.len() ==> list[r] < list[s],
            forall|x: int| 0 <= x < q && #[trigger] t[p as int][x] ==> list@.contains(x as usize),
        decreases n - q,
    {
        let ghost before = dominators_below(t, p as int, q as int);
        let ghost after = dominators_below(t, p as int, q + 1);
        let ghost old_list = list@;
        assert(t[p as int].len() == n && t[q as int].len() == n);
        if p == q {
            proof {
                assert(after =~= before);
            }
        } else if table[p][q] {
            list.push(q);
            proof {
                assert(after =~= before);
                assert forall|x: int| 0 <= x < q + 1 && #[trigger] t[p as int][x] implies list@.contains(
                    x as usize,
                ) by {
                    if x < q {
                        let w = choose|w: int| 0 <= w < old_list.len() && old_list[w] == x as usize;
                        assert(list@[w] == x as usize);
                    } else {
                        assert(list@[list.len() - 1] == x as usize);
                    }
                }
            }
        } else if table[q][p] {
            count += 1;
            proof {
                assert(after =~= before.insert(q as int));
            }
        } else {
            proof {
                assert(after =~= before);
            }
        }
        q += 1;
    }
    (count, list)
}

/// Ghost bookkeeping of the peeling: `rank[q]` is the front that member
/// `q` stands in and `pos[q]` its place there, or -1 while `q` waits.
spec fn placement_ok(
    table: Seq<Seq<bool>>,
    layers: Seq<Seq<usize>>,
    rank: Seq<int>,
    pos: Seq<int>,
) -> bool {
    &&& rank.len() == table.len()
    &&& pos.len() == table.len()
    &&& forall|k: int, j: int| #[trigger]
        slot(layers, k, j) ==> layers[k][j] < table.len() && rank[layers[k][j] as int] == k
            && pos[layers[k][j] as int] == j
    &&& forall|q: int|
        0 <= q < table.len() && (#[trigger] rank[q]) >= 0 ==> slot(layers, rank[q], pos[q])
            && layers[rank[q]][pos[q]] == q
    &&& forall|d: int, q: int|
        #![trigger table[d][q]]
        0 <= d < table.len() && 0 <= q < table.len() && rank[q] >= 0 && table[d][q] ==> 0
            <= rank[d] < rank[q]
    &&& forall|q: int|
        0 <= q < table.len() && (#[trigger] rank[q]) >= 1 ==> has_dominator_of_rank(
            table,
            rank,
            q,
            rank[q] - 1,
        )
}

spec fn has_dominator_of_rank(table: Seq<Seq<bool>>, rank: Seq<int>, q: int, r: int) -> bool {
    exists|d: int| 0 <= d < table.len() && #[trigger] table[d][q] && rank[d] == r
}

/// Each count is the number of dominators that are not done yet.
spec fn counts_ok(table: Seq<Seq<bool>>, counts: Seq<usize>, done: Set<int>) -> bool {
    &&& counts.len() == table.len()
    &&& forall|q: int|
        0 <= q < table.len() ==> (#[trigger] counts[q]) == remaining(table, q, done).len()
}

/// While `p` releases the members it dominates, in ascending order: those
/// below `bound` have been released already.
spec fn counts_mid(
    table: Seq<Seq<bool>>,
    counts: Seq<usize>,
    done: Set<int>,
    p: int,
    bound: int,
) -> bool {
    &&& counts.len() == table.len()
    &&& forall|q: int|
        0 <= q < table.len() ==> (#[trigger] counts[q]) == (if table[p][q] && q < bound {
            remaining(table, q, done.insert(p)).len()
        } else {
            remaining(table, q, done).len()
        })
}

spec fn release_bound(list: Seq<usize>, s: int, n: int) -> int {
    if s < list.len() {
        list[s] as int
    } else {
        n
    }
}

spec fn zero_iff_placed(counts: Seq<usize>, rank: Seq<int>) -> bool {
    forall|q: int| 0 <= q < counts.len() ==> ((#[trigger] counts[q]) == 0 <==> rank[q] >= 0)
}

/// The members that stand before place `j` of front `i`.
spec fn done_upto(rank: Seq<int>, pos: Seq<int>, i: int, j: int) -> Set<int> {
    Set::new(
        |d: int|
            0 <= d < rank.len() && 0 <= rank[d] && (rank[d] < i || (rank[d] == i && pos[d] < j)),
    )
}

spec fn waiting_below(counts: Seq<usize>, bound: int) -> Set<int> {
    Set::new(|q: int| 0 <= q < bound && counts[q] != 0)
}

spec fn unplaced(rank: Seq<int>) -> Set<int> {
    Set::new(|q: int| 0 <= q < rank.len() && rank[q] < 0)
}

proof fn lemma_unplaced_finite(rank: Seq<int>)
    ensures
        unplaced(rank).finite(),
{
    lemma_int_range(0, rank.len() as int);
    lemma_len_subset(unplaced(rank), set_int_range(0, rank.len() as int));
}

/// Placing a waiting member `q`, released by `p`, at the end of the last layer.
proof fn lemma_place(
    table: Seq<Seq<bool>>,
    layers: Seq<Seq<usize>>,
    rank: Seq<int>,
    pos: Seq<int>,
    p: int,
    q: usize,
)
    requires
        is_strict_order(table),
        placement_ok(table, layers, rank, pos),
        layers.len() >= 2,
        q < table.len(),
        rank[q as int] < 0,
        0 <= p < table.len(),
        rank[p] == layers.len() - 2,
        table[p][q as int],
        forall|d: int|
            0 <= d < table.len() && #[trigger] table[d][q as int] ==> 0 <= rank[d] <= layers.len()
                - 2,
    ensures
        placement_ok(
            table,
            layers.update(layers.len() - 1, layers.last().push(q)),
            rank.update(q as int, layers.len() - 1),
            pos.update(q as int, layers.last().len() as int),
        ),
{
    let top = layers.len() - 1;
    let layers2 = layers.update(top, layers.last().push(q));
    let rank2 = rank.update(q as int, top);
    let pos2 = pos.update(q as int, layers.last().len() as int);
    assert forall|k: int, j: int| #[trigger] slot(layers2, k, j) implies layers2[k][j]
        < table.len() && rank2[layers2[k][j] as int] == k && pos2[layers2[k][j] as int] == j by {
        if k == top && j == layers.last().len() {
        } else {
            assert(slot(layers, k, j));
        }
    }
}

/// Once every member is placed, the bookkeeping is a ranking.
proof fn lemma_ranking_from_placement(
    table: Seq<Seq<bool>>,
    layers: Seq<Seq<usize>>,
    rank: Seq<int>,
    pos: Seq<int>,
)
    requires
        placement_ok(table, layers, rank, pos),
        forall|q: int| 0 <= q < table.len() ==> rank[q] >= 0,
    ensures
        is_front_ranking(table, layers),
{
    assert forall|p: int| 0 <= p < table.len() implies #[trigger] is_placed(layers, p) by {
        assert(rank[p] >= 0);
    }
}

/// While the front `previous` sets the members of `next` free:
/// `releaser[t]`, a place below `upto`, is that of the last member of
/// `previous` to dominate `next[t]`, and `next` is in the order of release.
spec fn release_ok(
    table: Seq<Seq<bool>>,
    previous: Seq<usize>,
    next: Seq<usize>,
    releaser: Seq<int>,
    upto: int,
) -> bool {
    &&& releaser.len() == next.len()
    &&& upto <= previous.len()
    &&& forall|s: int| 0 <= s < next.len() ==> 0 <= (#[trigger] releaser[s]) < upto
    &&& forall|s: int|
        0 <= s < next.len() ==> table[previous[#[trigger] releaser[s]] as int][next[s] as int]
    &&& forall|s: int, place: int|
        #![trigger releaser[s], previous[place]]
        0 <= s < next.len() && releaser[s] < place < previous.len()
            ==> !table[previous[place] as int][next[s] as int]
    &&& forall|r: int, s: int|
        #![trigger releaser[r], releaser[s]]
        0 <= r < s < next.len() ==> releaser[r] < releaser[s] || (releaser[r] == releaser[s]
            && next[r] < next[s])
}

/// The member at `place`, with nobody behind it dominating `q`, is the last
/// dominator of `q`.
proof fn lemma_last_dominator_place(table: Seq<Seq<bool>>, front: Seq<usize>, q: int, place: int)
    requires
        0 <= place < front.len(),
        table[front[place] as int][q],
        forall|behind: int| place < behind < front.len() ==> !table[(#[trigger] front[behind]) as int][q],
    ensures
        last_dominator_place(table, front, q) == place,
    decreases front.len(),
{
    if place < front.len() - 1 {
        lemma_last_dominator_place(table, front.drop_last(), q, place);
    }
}

/// Once a front has set its members free, they stand in the order of
/// release.
proof fn lemma_release_finish(
    table: Seq<Seq<bool>>,
    previous: Seq<usize>,
    next: Seq<usize>,
    releaser: Seq<int>,
)
    requires
        release_ok(table, previous, next, releaser, previous.len() as int),
    ensures
        forall|a: int, b: int|
            #![trigger next[a], next[b]]
            0 <= a < b < next.len() ==> released_before(
                table,
                previous,
                next[a] as int,
                next[b] as int,
            ),
{
    assert forall|a: int, b: int|
        #![trigger next[a], next[b]]
        0 <= a < b < next.len() implies released_before(
        table,
        previous,
        next[a] as int,
        next[b] as int,
    ) by {
        lemma_last_dominator_place(table, previous, next[a] as int, releaser[a]);
        lemma_last_dominator_place(table, previous, next[b] as int, releaser[b]);
    }
}

/// When every placed member is done and counts are exact, nobody waits.
proof fn lemma_peeling_complete(
    table: Seq<Seq<bool>>,
    counts: Seq<usize>,
    rank: Seq<int>,
    done: Set<int>,
)
    requires
        is_strict_order(table),
        rank.len() == table.len(),
        counts_ok(table, counts, done),
        zero_iff_placed(counts, rank),
        forall|q: int| 0 <= q < table.len() && rank[q] >= 0 ==> done.contains(q),
        forall|q: int| done.contains(q) ==> 0 <= q < table.len() && rank[q] >= 0,
    ensures
        forall|q: int| 0 <= q < table.len() ==> rank[q] >= 0,
{
    let stuck = unplaced(rank);
    lemma_unplaced_finite(rank);
    assert forall|u: int| stuck.contains(u) implies #[trigger] has_dominator_among(
        table,
        stuck,
        u,
    ) by {
        assert(counts[u] != 0);
        lemma_none_remaining(table, u, done);
    }
    lemma_some_member_is_free(table, stuck);
    assert forall|q: int| 0 <= q < table.len() implies rank[q] >= 0 by {
        if rank[q] < 0 {
            assert(stuck.contains(q));
        }
    }
}

/// Sorts the members of a dominance table into Pareto fronts, best first.
///
/// The first front holds the members that nobody dominates, by rising index.
/// Each later front holds the members that become free once the fronts
/// before it are set aside, in the order in which the front before it sets
/// them free. No front is empty, except the single front of an empty table.
pub fn rank_fronts(table: &Vec<Vec<bool>>) -> (fronts: Vec<Vec<usize>>)
    requires
        is_strict_order(table_view(table@)),
    ensures
        is_sorting(table_view(table@), front_view(fronts@)),
        front_view(fronts@) == sorting_of(table_view(table@)),
        total_members(front_view(fronts@)) == table.len(),
        forall|p: int|
            0 <= p < table.len() ==> (fronts[0]@.contains(p as usize) <==> #[trigger] is_undominated(
                table_view(table@),
                p,
            )),
{
    let n = table.len();
    let ghost t = table_view(table@);
    let mut counts: Vec<usize> = Vec::new();
    let mut dominated: Vec<Vec<usize>> = Vec::new();
    let mut first: Vec<usize> = Vec::new();
    let mut p: usize = 0;
    proof {
        assert(waiting_below(counts@, 0) =~= Set::empty());
    }
    while p < n
        invariant
            p <= n,
            n == table.len(),
            t == table_view(table@),
            is_strict_order(t),
            counts.len() == p,
            dominated.len() == p,
            forall|q: int| 0 <= q < p ==> (#[trigger] counts[q]) == dominators(t, q).len(),
            forall|q: int| 0 <= q < p ==> lists_dominated(t, q, (#[trigger] dominated[q])@),
            forall|j: int|
                0 <= j < first.len() ==> (#[trigger] first[j]) < p && counts[first[j] as int] == 0,
            forall|a: int, b: int| 0 <= a < b < first.len() ==> first[a] < first[b],
            forall|q: int| 0 <= q < p && (#[trigger] counts[q]) == 0 ==> first@.contains(q as usize),
            waiting_below(counts@, p as int).finite(),
            first.len() + waiting_below(counts@, p as int).len() == p,
        decreases n - p,
    {
        let ghost old_first = first@;
        let ghost old_counts = counts@;
        let found = relations_of(table, p);
        let count = found.0;
        counts.push(count);
        dominated.push(found.1);
        if count == 0 {
            first.push(p);
        }
        proof {
            if count == 0 {
                assert(waiting_below(counts@, p + 1) =~= waiting_below(old_counts, p as int));
            } else {
                assert(waiting_below(counts@, p + 1) =~= waiting_below(old_counts, p as int).insert(
                    p as int,
                ));
            }
            assert forall|q: int| 0 <= q < p + 1 && (#[trigger] counts[q]) == 0 implies first@.contains(
                q as usize,
            ) by {
                if q < p {
                    let w = choose|w: int| 0 <= w < old_first.len() && old_first[w] == q as usize;
                    assert(first@[w] == q as usize);
                } else {
                    assert(first@[first.len() - 1] == q as usize);
                }
            }
        }
        p += 1;
    }
    let ghost first_view = first@;
    let ghost counts0 = counts@;
    let ghost mut rank: Seq<int> = Seq::new(
        n as nat,
        |q: int|
            if counts0[q] == 0 {
                0int
            } else {
                -1int
            },
    );
    let ghost mut pos: Seq<int> = Seq::new(
        n as nat,
        |q: int|
            if counts0[q] == 0 {
                choose|j: int| 0 <= j < first_view.len() && first_view[j] == q
            } else {
                -1int
            },
    );
    let ghost mut done: Set<int> = Set::empty();
    let mut fronts: Vec<Vec<usize>> = Vec::new();
    let mut growing = first.len() > 0;
    fronts.push(first);
    proof {
        let layers = front_view(fronts@);
        assert forall|q: int| 0 <= q < n implies remaining(t, q, done) == dominators(t, q) by {}
        assert forall|d: int, q: int|
            #![trigger t[d][q]]
            0 <= d < n && 0 <= q < n && rank[q] >= 0 && t[d][q] implies 0 <= rank[d] < rank[q] by {
            lemma_none_remaining(t, q, done);
        }
        assert(unplaced(rank) =~= waiting_below(counts0, n as int));
        assert(total_members(layers) == first_view.len()) by {
            assert(total_members(layers.drop_last()) == 0);
        }
        assert forall|x: int| 0 <= x < n implies (first_view.contains(x as usize)
            <==> #[trigger] is_undominated(t, x)) by {
            lemma_none_remaining(t, x, done);
            if is_undominated(t, x) {
                assert(counts0[x] == 0);
            }
        }
        if !growing {
            lemma_peeling_complete(t, counts@, rank, done);
            if n > 0 {
                assert(rank[0] >= 0);
            }
        }
    }
    let mut i: usize = 0;
    while growing
        invariant
            n == table.len(),
            t == table_view(table@),
            is_strict_order(t),
            counts.len() == n,
            dominated.len() == n,
            forall|q: int| 0 <= q < n ==> lists_dominated(t, q, (#[trigger] dominated[q])@),
            fronts.len() >= 1,
            fronts[0]@ == first_view,
            forall|x: int|
                0 <= x < n ==> (first_view.contains(x as usize) <==> #[trigger] is_undominated(t, x)),
            forall|k: int| 0 <= k < fronts.len() ==> (#[trigger] fronts[k]).len() > 0 || n == 0,
            n == 0 ==> fronts.len() == 1,
            placement_ok(t, front_view(fronts@), rank, pos),
            is_release_order(t, front_view(fronts@)),
            total_members(front_view(fronts@)) + unplaced(rank).len() == n,
            growing ==> {
                &&& i == fronts.len() - 1
                &&& counts_ok(t, counts@, done)
                &&& zero_iff_placed(counts@, rank)
                &&& done == done_upto(rank, pos, i as int, 0)
            },
            !growing ==> forall|q: int| 0 <= q < n ==> rank[q] >= 0,
        decreases
                unplaced(rank).len(),
                (if growing {
                    1int
                } else {
                    0int
                }),
    {
        let ghost rank0 = rank;
        let ghost layers0 = front_view(fronts@);
        let mut next: Vec<usize> = Vec::new();
        let ghost mut releaser: Seq<int> = Seq::empty();
        let mut j: usize = 0;
        proof {
            let layers = front_view(fronts@).push(next@);
            assert forall|k: int, j: int| #[trigger] slot(layers, k, j) implies slot(layers0, k, j)
                && layers[k][j] == layers0[k][j] by {}
        }
        while j < fronts[i].len()
            invariant
                n == table.len(),
                t == table_view(table@),
                is_strict_order(t),
                counts.len() == n,
                dominated.len() == n,
                forall|q: int| 0 <= q < n ==> lists_dominated(t, q, (#[trigger] dominated[q])@),
                i == fronts.len() - 1,
                j <= fronts[i as int].len(),
                placement_ok(t, front_view(fronts@).push(next@), rank, pos),
                counts_ok(t, counts@, done),
                zero_iff_placed(counts@, rank),
                done == done_upto(rank, pos, i as int, j as int),
                release_ok(t, fronts[i as int]@, next@, releaser, j as int),
                total_members(front_view(fronts@)) + next.len() + unplaced(rank).len() == n,
                rank0.len() == n,
                forall|q: int| 0 <= q < n ==> (#[trigger] rank0[q]) <= i,
                forall|q: int| 0 <= q < n && (#[trigger] rank0[q]) >= 0 ==> rank[q] == rank0[q],
            decreases fronts[i as int].len() - j,
        {
            let p = fronts[i][j];
            proof {
                let layers = front_view(fronts@).push(next@);
                assert(slot(layers, i as int, j as int));
            }
            let mut s: usize = 0;
            while s < dominated[p].len()
                invariant
                    n == table.len(),
                    t == table_view(table@),
                    is_strict_order(t),
                    counts.len() == n,
                    dominated.len() == n,
                    lists_dominated(t, p as int, dominated[p as int]@),
                    i == fronts.len() - 1,
                    p < n,
                    rank[p as int] == i,
                    pos[p as int] == j,
                    !done.contains(p as int),
                    s <= dominated[p as int].len(),
                    placement_ok(t, front_view(fronts@).push(next@), rank, pos),
                    counts_mid(
                        t,
                        counts@,
                        done,
                        p as int,
                        release_bound(dominated[p as int]@, s as int, n as int),
                    ),
                    zero_iff_placed(counts@, rank),
                    done == done_upto(rank, pos, i as int, j as int),
                    j < fronts[i as int].len(),
                    fronts[i as int][j as int] == p,
                    release_ok(t, fronts[i as int]@, next@, releaser, j + 1),
                    forall|r: int|
                        0 <= r < next.len() && (#[trigger] releaser[r]) == j ==> next[r]
                            < release_bound(dominated[p as int]@, s as int, n as int),
                    total_members(front_view(fronts@)) + next.len() + unplaced(rank).len() == n,
                    rank0.len() == n,
                    forall|q: int| 0 <= q < n && (#[trigger] rank0[q]) >= 0 ==> rank[q] == rank0[q],
                decreases dominated[p as int].len() - s,
            {
                let q = dominated[p][s];
                let ghost layers = front_view(fronts@).push(next@);
                proof {
                    lemma_release_dominated(t, done, p as int, q as int);
                }
                let c = counts[q] - 1;
                counts.set(q, c);
                if c == 0 {
                    proof {
                        lemma_none_remaining(t, q as int, done.insert(p as int));
                        lemma_place(t, layers, rank, pos, p as int, q);
                        let front = fronts[i as int]@;
                        assert forall|place: int| j < place < front.len() implies !t[(
                        #[trigger] front[place]) as int][q as int] by {
                            assert(slot(layers, i as int, place));
                        }
                        releaser = releaser.push(j as int);
                    }
                    next.push(q);
                    proof {
                        let top = layers.len() - 1;
                        let layers2 = layers.update(top, layers.last().push(q));
                        assert(front_view(fronts@).push(next@) =~= layers2);
                        lemma_unplaced_finite(rank);
                        assert(unplaced(rank.update(q as int, top)) =~= unplaced(rank).remove(
                            q as int,
                        ));
                        rank = rank.update(q as int, top);
                        pos = pos.update(q as int, layers.last().len() as int);
                    }
                }
                s += 1;
            }
            proof {
                assert forall|x: int| 0 <= x < n implies (#[trigger] counts[x]) == remaining(
                    t,
                    x,
                    done.insert(p as int),
                ).len() by {
                    if !t[p as int][x] {
                        lemma_release_other(t, done, p as int, x);
                    }
                }
                done = done.insert(p as int);
            }
            j += 1;
        }
        if next.len() > 0 {
            proof {
                lemma_release_finish(t, fronts[i as int]@, next@, releaser);
            }
            fronts.push(next);
            i += 1;
            proof {
                let layers = front_view(fronts@);
                assert(layers =~= layers0.push(fronts@[i as int]@));
                assert(layers.drop_last() =~= layers0);
            }
        } else {
            growing = false;
            proof {
                lemma_peeling_complete(t, counts@, rank, done);
            }
        }
    }
    proof {
        lemma_ranking_from_placement(t, front_view(fronts@), rank, pos);
        assert(unplaced(rank) =~= Set::empty());
        assert(is_sorting(t, front_view(fronts@)));
        lemma_sorting_is_unique(t, front_view(fronts@), sorting_of(t));
    }
    fronts
}

/// `fronts` is the non-dominated sorting of `table`: a ranking in the order
/// of release, with at least one front and no empty front but the single
/// front of an empty table.
pub open spec fn is_sorting(table: Seq<Seq<bool>>, fronts: Seq<Seq<usize>>) -> bool {
    &&& is_front_ranking(table, fronts)
    &&& is_release_order(table, fronts)
    &&& fronts.len() >= 1
    &&& forall|k: int| 0 <= k < fronts.len() ==> (#[trigger] fronts[k]).len() > 0 || table.len() == 0
    &&& table.len() == 0 ==> fronts.len() == 1
}

/// Where no member dominates another, the sorting has one front, and that
/// front holds every member.
pub proof fn lemma_no_dominance_one_front(table: Seq<Seq<bool>>, fronts: Seq<Seq<usize>>)
    requires
        is_sorting(table, fronts),
        forall|p: int| 0 <= p < table.len() ==> #[trigger] is_undominated(table, p),
    ensures
        fronts.len() == 1,
        forall|p: int| 0 <= p < table.len() ==> #[trigger] stands_in(fronts, 0, p),
{
    assert forall|k: int, j: int| #[trigger] slot(fronts, k, j) implies k == 0 by {
        if k > 0 {
            assert(is_undominated(table, fronts[k][j] as int));
        }
    }
    if fronts.len() > 1 && table.len() > 0 {
        assert(slot(fronts, 1, 0));
    }
    assert forall|p: int| 0 <= p < table.len() implies #[trigger] stands_in(fronts, 0, p) by {
        assert(is_placed(fronts, p));
    }
}

/// The non-dominated sorting of `table`.
pub open spec fn sorting_of(table: Seq<Seq<bool>>) -> Seq<Seq<usize>> {
    choose|fronts: Seq<Seq<usize>>| is_sorting(table, fronts)
}

/// In a ranking, whoever dominates a member stands in an earlier front.
proof fn lemma_dominator_is_earlier(table: Seq<Seq<bool>>, fronts: Seq<Seq<usize>>, d: int, p: int)
    requires
        is_front_ranking(table, fronts),
        0 <= d < table.len(),
        0 <= p < table.len(),
        table[d][p],
    ensures
        0 <= front_of(fronts, d) < front_of(fronts, p) < fronts.len(),
{
    assert(is_placed(fronts, d) && is_placed(fronts, p));
    let (kd, jd) = choose|k: int, j: int| #[trigger] slot(fronts, k, j) && fronts[k][j] == d;
    let (kp, jp) = choose|k: int, j: int| #[trigger] slot(fronts, k, j) && fronts[k][j] == p;
    lemma_front_of(fronts, table.len(), kd, jd);
    lemma_front_of(fronts, table.len(), kp, jp);
}

/// In a ranking, a member beyond the first front has a dominator in the
/// front before its own.
proof fn lemma_has_dominator_before(table: Seq<Seq<bool>>, fronts: Seq<Seq<usize>>, p: int) -> (d: int)
    requires
        is_front_ranking(table, fronts),
        0 <= p < table.len(),
        front_of(fronts, p) != 0,
    ensures
        0 <= d < table.len(),
        table[d][p],
        front_of(fronts, d) + 1 == front_of(fronts, p),
{
    assert(is_placed(fronts, p));
    let (k, j) = choose|k: int, j: int| #[trigger] slot(fronts, k, j) && fronts[k][j] == p;
    lemma_front_of(fronts, table.len(), k, j);
    let (k0, j0) = choose|k0: int, j0: int| #[trigger]
        slot(fronts, k0, j0) && k0 + 1 == k && table[fronts[k0][j0] as int][fronts[k][j] as int];
    lemma_front_of(fronts, table.len(), k0, j0);
    fronts[k0][j0] as int
}

/// Two rankings of one table put every member into the same front.
proof fn lemma_same_front(
    table: Seq<Seq<bool>>,
    first: Seq<Seq<usize>>,
    second: Seq<Seq<usize>>,
    p: int,
)
    requires
        is_front_ranking(table, first),
        is_front_ranking(table, second),
        0 <= p < table.len(),
    ensures
        0 <= front_of(first, p) < first.len(),
        front_of(first, p) == front_of(second, p),
    decreases front_of(first, p),
{
    assert(is_placed(first, p));
    if front_of(second, p) != 0 {
        let d = lemma_has_dominator_before(table, second, p);
        lemma_dominator_is_earlier(table, first, d, p);
        lemma_same_front(table, first, second, d);
    }
    if front_of(first, p) != 0 {
        let d = lemma_has_dominator_before(table, first, p);
        lemma_dominator_is_earlier(table, second, d, p);
        lemma_same_front(table, first, second, d);
    }
}

/// Two sequences without repetition that hold the same members, both rising
/// in one strict order, are the same sequence up to any place that both have.
proof fn lemma_same_up_to(
    first: Seq<usize>,
    second: Seq<usize>,
    precedes: spec_fn(int, int) -> bool,
    m: int,
)
    requires
        forall|a: int, b: int|
            0 <= a < b < first.len() ==> #[trigger] precedes(first[a] as int, first[b] as int),
        forall|a: int, b: int|
            0 <= a < b < second.len() ==> #[trigger] precedes(second[a] as int, second[b] as int),
        forall|x: int, y: int| #[trigger] precedes(x, y) ==> !precedes(y, x),
        forall|x: usize| first.contains(x) <==> second.contains(x),
        0 <= m < first.len(),
        m < second.len(),
    ensures
        first[m] == second[m],
    decreases m,
{
    assert forall|e: int| 0 <= e < m implies first[e] == second[e] by {
        lemma_same_up_to(first, second, precedes, e);
    }
    if first[m] != second[m] {
        assert(first.contains(first[m]));
        assert(second.contains(second[m]));
        let at = choose|at: int| 0 <= at < second.len() && second[at] == first[m];
        let back = choose|back: int| 0 <= back < first.len() && first[back] == second[m];
        if at < m {
            assert(precedes(first[at] as int, first[m] as int));
        }
        if back < m {
            assert(precedes(second[back] as int, second[m] as int));
        }
        assert(precedes(second[m] as int, second[at] as int));
        assert(precedes(first[m] as int, first[back] as int));
    }
}

/// Two sequences without repetition that hold the same members, both rising
/// in one strict order, are the same sequence.
proof fn lemma_same_sequence(
    first: Seq<usize>,
    second: Seq<usize>,
    precedes: spec_fn(int, int) -> bool,
)
    requires
        forall|a: int, b: int|
            0 <= a < b < first.len() ==> #[trigger] precedes(first[a] as int, first[b] as int),
        forall|a: int, b: int|
            0 <= a < b < second.len() ==> #[trigger] precedes(second[a] as int, second[b] as int),
        forall|x: int, y: int| #[trigger] precedes(x, y) ==> !precedes(y, x),
        forall|x: usize| first.contains(x) <==> second.contains(x),
    ensures
        first == second,
{
    if first.len() > second.len() {
        let extra = first[second.len() as int];
        assert(first.contains(extra));
        let at = choose|at: int| 0 <= at < second.len() && second[at] == extra;
        lemma_same_up_to(first, second, precedes, at);
        assert(precedes(first[at] as int, first[second.len() as int] as int));
    }
    if second.len() > first.len() {
        let extra = second[first.len() as int];
        assert(second.contains(extra));
        let at = choose|at: int| 0 <= at < first.len() && first[at] == extra;
        lemma_same_up_to(first, second, precedes, at);
        assert(precedes(second[at] as int, second[first.len() as int] as int));
    }
    assert forall|m: int| 0 <= m < first.len() implies first[m] == second[m] by {
        lemma_same_up_to(first, second, precedes, m);
    }
    assert(first =~= second);
}

/// Two rankings of one table hold the same members in each front that both
/// have.
proof fn lemma_same_members(
    table: Seq<Seq<bool>>,
    first: Seq<Seq<usize>>,
    second: Seq<Seq<usize>>,
    k: int,
)
    requires
        is_front_ranking(table, first),
        is_front_ranking(table, second),
        0 <= k < first.len(),
        0 <= k < second.len(),
    ensures
        forall|x: usize| first[k].contains(x) <==> second[k].contains(x),
{
    assert forall|x: usize| first[k].contains(x) implies second[k].contains(x) by {
        let j = choose|j: int| 0 <= j < first[k].len() && first[k][j] == x;
        assert(slot(first, k, j));
        lemma_front_of(first, table.len(), k, j);
        lemma_same_front(table, first, second, x as int);
        assert(is_placed(second, x as int));
        let (k2, j2) = choose|k2: int, j2: int| #[trigger] slot(second, k2, j2) && second[k2][j2] == x;
        lemma_front_of(second, table.len(), k2, j2);
    }
    assert forall|x: usize| second[k].contains(x) implies first[k].contains(x) by {
        let j = choose|j: int| 0 <= j < second[k].len() && second[k][j] == x;
        assert(slot(second, k, j));
        lemma_front_of(second, table.len(), k, j);
        lemma_same_front(table, first, second, x as int);
        assert(is_placed(first, x as int));
        let (k1, j1) = choose|k1: int, j1: int| #[trigger] slot(first, k1, j1) && first[k1][j1] == x;
        lemma_front_of(first, table.len(), k1, j1);
    }
}

/// Two sortings of one table agree on every front that both have.
proof fn lemma_same_fronts_up_to(
    table: Seq<Seq<bool>>,
    first: Seq<Seq<usize>>,
    second: Seq<Seq<usize>>,
    k: int,
)
    requires
        is_sorting(table, first),
        is_sorting(table, second),
        0 <= k < first.len(),
        0 <= k < second.len(),
    ensures
        first[k] == second[k],
    decreases k,
{
    lemma_same_members(table, first, second, k);
    if k == 0 {
        lemma_same_sequence(first[0], second[0], |x: int, y: int| x < y);
    } else {
        lemma_same_fronts_up_to(table, first, second, k - 1);
        let previous = first[k - 1];
        let precedes = |x: int, y: int| released_before(table, previous, x, y);
        lemma_same_sequence(first[k], second[k], precedes);
    }
}

/// A table has only one non-dominated sorting.
pub proof fn lemma_sorting_is_unique(
    table: Seq<Seq<bool>>,
    first: Seq<Seq<usize>>,
    second: Seq<Seq<usize>>,
)
    requires
        is_sorting(table, first),
        is_sorting(table, second),
    ensures
        first == second,
{
    if table.len() > 0 {
        if first.len() > second.len() {
            let k = second.len() as int;
            assert(slot(first, k, 0));
            lemma_front_of(first, table.len(), k, 0);
            lemma_same_front(table, second, first, first[k][0] as int);
        }
        if second.len() > first.len() {
            let k = first.len() as int;
            assert(slot(second, k, 0));
            lemma_front_of(second, table.len(), k, 0);
            lemma_same_front(table, first, second, second[k][0] as int);
        }
    }
    assert forall|k: int| 0 <= k < first.len() implies first[k] == second[k] by {
        if table.len() > 0 {
            lemma_same_fronts_up_to(table, first, second, k);
        } else {
            assert(first[k].len() == 0 && second[k].len() == 0) by {
                if first[k].len() > 0 {
                    assert(slot(first, k, 0));
                }
                if second[k].len() > 0 {
                    assert(slot(second, k, 0));
                }
            }
        }
    }
}

/// A sorting of a table is the sorting of that table.
pub proof fn lemma_sorting_of(table: Seq<Seq<bool>>, fronts: Seq<Seq<usize>>)
    requires
        is_sorting(table, fronts),
    ensures
        sorting_of(table) == fronts,
        is_sorting(table, sorting_of(table)),
{
    lemma_sorting_is_unique(table, fronts, sorting_of(table));
}

/// Nobody dominates a member of the first front of a ranking.
pub proof fn lemma_first_front_is_undominated(table: Seq<Seq<bool>>, fronts: Seq<Seq<usize>>, j: int)
    requires
        is_front_ranking(table, fronts),
        slot(fronts, 0, j),
    ensures
        is_undominated(table, fronts[0][j] as int),
{
    let p = fronts[0][j] as int;
    assert forall|d: int| 0 <= d < table.len() implies !(#[trigger] table[d])[p] by {
        if table[d][p] {
            assert(is_placed(fronts, d));
            let (k0, j0) = choose|k0: int, j0: int| #[trigger] slot(fronts, k0, j0) && fronts[k0][j0] == d;
            assert(slot(fronts, k0, j0) && slot(fronts, 0, j));
        }
    }
}

/// Pareto dominance among objective vectors is a strict order.
pub proof fn lemma_dominance_table_is_strict_order(rows: Seq<Seq<i64>>)
    ensures
        is_strict_order(dominance_table(rows)),
{
}

/// Asks every ordered pair of distinct members whether the first dominates
/// the second.
fn dominance_among<S: Solution>(population: &[S]) -> (table: Vec<Vec<bool>>)
    ensures
        table.len() == population.len(),
        table_view(table@) == dominance_table(objective_rows(population@)),
{
    let n = population.len();
    let ghost rows = objective_rows(population@);
    let mut table: Vec<Vec<bool>> = Vec::new();
    let mut p: usize = 0;
    while p < n
        invariant
            p <= n,
            n == population.len(),
            rows == objective_rows(population@),
            table.len() == p,
            forall|a: int| 0 <= a < p ==> (#[trigger] table[a])@ == dominance_table(rows)[a],
        decreases n - p,
    {
        let mut row: Vec<bool> = Vec::new();
        let mut q: usize = 0;
        while q < n
            invariant
                q <= n,
                p < n,
                n == population.len(),
                rows == objective_rows(population@),
                row.len() == q,
                forall|b: int| 0 <= b < q ==> (#[trigger] row[b]) == dominance_table(rows)[p as int][b],
            decreases n - q,
        {
            let entry = p != q && population[p].dominates(&population[q]);
            row.push(entry);
            q += 1;
        }
        table.push(row);
        p += 1;
    }
    table
}

/// Partitions a population into Pareto fronts, best first.
///
/// Front 0 holds the members that no other member dominates. Every member
/// stands in exactly one front, behind all the members that dominate it and
/// directly behind one of them. The members of a front are listed as
/// `rank_fronts` lists them.
pub fn non_dominated_sort<S: Solution>(population: &[S]) -> (fronts: Vec<Vec<usize>>)
    ensures
        is_sorting(dominance_table(objective_rows(population@)), front_view(fronts@)),
        front_view(fronts@) == sorting_of(dominance_table(objective_rows(population@))),
        total_members(front_view(fronts@)) == population.len(),
        forall|p: int|
            0 <= p < population.len() ==> (fronts[0]@.contains(p as usize)
                <==> #[trigger] is_undominated(dominance_table(objective_rows(population@)), p)),
{
    let table = dominance_among(population);
    rank_fronts(&table)
}

} // verus!
