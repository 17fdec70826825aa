//! Stable ordering of items by an integer key.

use vstd::prelude::*;

verus! {

/// A value that is ordered by an integer key.
pub trait SortKey {
    /// The key: a smaller key sorts first in ascending order.
    spec fn sort_key(&self) -> int;

    /// Whether the key of `self` is strictly smaller than that of `other`.
    fn sorts_before(&self, other: &Self) -> (result: bool)
        ensures
            result == (self.sort_key() < other.sort_key()),
    ;
}

impl SortKey for i64 {
    open spec fn sort_key(&self) -> int {
        *self as int
    }

    fn sorts_before(&self, other: &Self) -> (result: bool) {
        *self < *other
    }
}

/// The keys by which `items` are ordered: their own keys, negated for a
/// descending order.
pub open spec fn sort_keys<K: SortKey>(items: Seq<K>, descending: bool) -> Seq<int> {
    Seq::new(
        items.len(),
        |i: int|
            if descending {
                -items[i].sort_key()
            } else {
                items[i].sort_key()
            },
    )
}

/// Item `i` comes before item `j`: by its key, and among equal keys by its
/// position.
pub open spec fn comes_before(keys: Seq<int>, i: int, j: int) -> bool {
    keys[i] < keys[j] || (keys[i] == keys[j] && i < j)
}

/// Position `i` occurs in `order`.
pub open spec fn occurs(order: Seq<usize>, i: int) -> bool {
    exists|k: int| 0 <= k < order.len() && #[trigger] order[k] == i
}

/// `order` lists the positions of `keys` in ascending key order, equal keys
/// in the order in which they are given.
pub open spec fn is_stable_order(keys: Seq<int>, order: Seq<usize>) -> bool {
    &&& order.len() == keys.len()
    &&& forall|k: int| 0 <= k < order.len() ==> (#[trigger] order[k]) < keys.len()
    &&& forall|i: int| 0 <= i < keys.len() ==> #[trigger] occurs(order, i)
    &&& forall|a: int, b: int|
        0 <= a < b < order.len() ==> comes_before(keys, order[a] as int, order[b] as int)
}

/// The stable ascending order of `keys`.
pub open spec fn stable_order_of(keys: Seq<int>) -> Seq<usize> {
    choose|order: Seq<usize>| is_stable_order(keys, order)
}

/// There is only one stable order.
pub proof fn lemma_stable_order_unique(keys: Seq<int>, first: Seq<usize>, second: Seq<usize>)
    requires
        is_stable_order(keys, first),
        is_stable_order(keys, second),
    ensures
        first == second,
{
    assert forall|k: int| 0 <= k < first.len() implies first[k] == second[k] by {
        lemma_orders_agree(keys, first, second, k);
    }
}

proof fn lemma_orders_agree(keys: Seq<int>, first: Seq<usize>, second: Seq<usize>, k: int)
    requires
        is_stable_order(keys, first),
        is_stable_order(keys, second),
        0 <= k < first.len(),
    ensures
        first[k] == second[k],
    decreases k,
{
    assert forall|m: int| 0 <= m < k implies first[m] == second[m] by {
        lemma_orders_agree(keys, first, second, m);
    }
    if first[k] != second[k] {
        assert(occurs(second, first[k] as int));
        let p = choose|p: int| 0 <= p < second.len() && #[trigger] second[p] == first[k] as int;
        assert(occurs(first, second[k] as int));
        let q = choose|q: int| 0 <= q < first.len() && #[trigger] first[q] == second[k] as int;
        if p < k {
            assert(comes_before(keys, first[p] as int, first[k] as int));
        }
        if q < k {
            assert(comes_before(keys, second[q] as int, second[k] as int));
        }
        assert(comes_before(keys, second[k] as int, second[p] as int));
        assert(comes_before(keys, first[k] as int, first[q] as int));
    }
}

/// Where a new last item with key `key` goes into `order`: behind the last
/// of the first `upto` entries whose key is not greater.
spec fn insertion_place(keys: Seq<int>, order: Seq<usize>, key: int, upto: int) -> int
    decreases upto,
{
    if upto <= 0 {
        0
    } else if keys[order[upto - 1] as int] <= key {
        upto
    } else {
        insertion_place(keys, order, key, upto - 1)
    }
}

proof fn lemma_insertion_place(keys: Seq<int>, order: Seq<usize>, key: int, upto: int)
    requires
        0 <= upto <= order.len(),
    ensures
        0 <= insertion_place(keys, order, key, upto) <= upto,
        forall|k: int|
            insertion_place(keys, order, key, upto) <= k < upto ==> key < keys[(
            #[trigger] order[k]) as int],
        insertion_place(keys, order, key, upto) > 0 ==> keys[order[insertion_place(
            keys,
            order,
            key,
            upto,
        ) - 1] as int] <= key,
    decreases upto,
{
    if upto > 0 && keys[order[upto - 1] as int] > key {
        lemma_insertion_place(keys, order, key, upto - 1);
    }
}

/// Every sequence of keys has a stable order.
pub proof fn lemma_stable_order_exists(keys: Seq<int>)
    requires
        keys.len() <= usize::MAX,
    ensures
        is_stable_order(keys, stable_order_of(keys)),
    decreases keys.len(),
{
    if keys.len() == 0 {
        assert(is_stable_order(keys, Seq::<usize>::empty()));
    } else {
        let shorter = keys.drop_last();
        lemma_stable_order_exists(shorter);
        let before = stable_order_of(shorter);
        let i = (keys.len() - 1) as usize;
        let at = insertion_place(shorter, before, keys[i as int], before.len() as int);
        lemma_insertion_place(shorter, before, keys[i as int], before.len() as int);
        let order = before.insert(at, i);
        assert forall|x: int| 0 <= x < keys.len() implies #[trigger] occurs(order, x) by {
            if x < i {
                assert(occurs(before, x));
                let k = choose|k: int| 0 <= k < before.len() && #[trigger] before[k] == x;
                if k < at {
                    assert(order[k] == x);
                } else {
                    assert(order[k + 1] == x);
                }
            } else {
                assert(order[at] == x);
            }
        }
        assert forall|a: int, b: int| 0 <= a < b < order.len() implies comes_before(
            keys,
            order[a] as int,
            order[b] as int,
        ) by {
            if a < at && b == at {
                if a < at - 1 {
                    assert(comes_before(shorter, before[a] as int, before[at - 1] as int));
                }
            } else if a == at {
                assert(order[b] == before[b - 1]);
            } else if a < at && b < at {
                assert(comes_before(shorter, before[a] as int, before[b] as int));
            } else if a < at {
                assert(comes_before(shorter, before[a] as int, before[b - 1] as int));
            } else {
                assert(comes_before(shorter, before[a - 1] as int, before[b - 1] as int));
            }
        }
        assert(is_stable_order(keys, order));
    }
}

/// Orders the positions of `items` by key, ascending or descending, keeping
/// items of equal key in the order in which they are given.
pub fn stable_order<K: SortKey>(items: &Vec<K>, descending: bool) -> (order: Vec<usize>)
    ensures
        is_stable_order(sort_keys(items@, descending), order@),
        order@ == stable_order_of(sort_keys(items@, descending)),
{
    let n = items.len();
    let ghost keys = sort_keys(items@, descending);
    let mut order: Vec<usize> = Vec::new();
    let mut i: usize = 0;
    while i < n
        invariant
            i <= n,
            n == items.len(),
            keys == sort_keys(items@, descending),
            order.len() == i,
            forall|k: int| 0 <= k < order.len() ==> (#[trigger] order[k]) < i,
            forall|x: int| 0 <= x < i ==> #[trigger] occurs(order@, x),
            forall|a: int, b: int|
                0 <= a < b < order.len() ==> comes_before(keys, order[a] as int, order[b] as int),
        decreases n - i,
    {
        let mut at: usize = order.len();
        let mut searching = true;
        while searching && at > 0
            invariant
                at <= order.len(),
                order.len() == i,
                i < n,
                n == items.len(),
                keys == sort_keys(items@, descending),
                forall|k: int| 0 <= k < order.len() ==> (#[trigger] order[k]) < i,
                forall|k: int| at <= k < order.len() ==> keys[i as int] < keys[(#[trigger] order[k]) as int],
                !searching ==> at > 0 && keys[order[at - 1] as int] <= keys[i as int],
            decreases
                    at,
                    (if searching {
                        1int
                    } else {
                        0int
                    }),
        {
            let neighbour = order[at - 1];
            let earlier = if descending {
                items[neighbour].sorts_before(&items[i])
            } else {
                items[i].sorts_before(&items[neighbour])
            };
            if earlier {
                at -= 1;
            } else {
                searching = false;
            }
        }
        let ghost before = order@;
        order.insert(at, i);
        proof {
            assert forall|x: int| 0 <= x < i + 1 implies #[trigger] occurs(order@, x) by {
                if x < i {
                    assert(occurs(before, x));
                    let k = choose|k: int| 0 <= k < before.len() && #[trigger] before[k] == x;
                    if k < at {
                        assert(order@[k] == x);
                    } else {
                        assert(order@[k + 1] == x);
                    }
                } else {
                    assert(order@[at as int] == x);
                }
            }
            assert forall|a: int, b: int| 0 <= a < b < order.len() implies comes_before(
                keys,
                order[a] as int,
                order[b] as int,
            ) by {
                if a < at && b == at {
                    if a < at - 1 {
                        assert(comes_before(keys, before[a] as int, before[at - 1] as int));
                    }
                } else if a == at {
                    assert(order[b] == before[b - 1]);
                }
            }
        }
        i += 1;
    }
    proof {
        lemma_stable_order_unique(keys, order@, stable_order_of(keys));
    }
    order
}

} // verus!
