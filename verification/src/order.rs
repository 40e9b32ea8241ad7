//! Putting the tokens of a vocabulary in the order of their ranks.
use vstd::prelude::*;

use crate::Rank;

verus! {

/// Of two places, this one comes first: it has the lower rank, or the same rank and stands before
/// the other.
pub open spec fn before(ranks: Seq<Rank>, a: int, b: int) -> bool {
    ranks[a] < ranks[b] || ranks[a] == ranks[b] && a < b
}

/// The places from `low` to `high`, in the order of rank.
pub open spec fn in_rank_order(ranks: Seq<Rank>, low: int, high: int, order: Seq<int>) -> bool {
    &&& forall|i: int| 0 <= i < order.len() ==> low <= #[trigger] order[i] < high
    &&& forall|place: int| low <= place < high ==> #[trigger] order.contains(place)
    &&& forall|i: int, j: int|
        0 <= i < j < order.len() ==> before(ranks, #[trigger] order[i], #[trigger] order[j])
}

/// All places, in the order of rank; places of the same rank stay in their order.
pub open spec fn rank_order(ranks: Seq<Rank>) -> Seq<int> {
    choose|order: Seq<int>| in_rank_order(ranks, 0, ranks.len() as int, order)
}

/// There is only one order of rank.
pub proof fn lemma_rank_order_unique(ranks: Seq<Rank>, order: Seq<int>)
    requires
        in_rank_order(ranks, 0, ranks.len() as int, order),
    ensures
        rank_order(ranks) == order,
{
    let high = ranks.len() as int;
    let other = rank_order(ranks);
    assert(in_rank_order(ranks, 0, high, other));
    lemma_same_start(ranks, high, order, other, order.len());
    if other.len() > order.len() {
        let place = other[order.len() as int];
        assert(order.contains(place));
        let k = order.index_of(place);
        assert(other[k] == place);
        assert(before(ranks, other[k], other[order.len() as int]));
    }
    assert(order =~= other);
}

/// There is an order of rank.
pub proof fn lemma_rank_order_exists(ranks: Seq<Rank>)
    ensures
        in_rank_order(ranks, 0, ranks.len() as int, rank_order(ranks)),
{
    let order = lemma_order_up_to(ranks, ranks.len());
    assert(in_rank_order(ranks, 0, ranks.len() as int, order));
}

proof fn lemma_order_up_to(ranks: Seq<Rank>, n: nat) -> (order: Seq<int>)
    requires
        n <= ranks.len(),
    ensures
        in_rank_order(ranks, 0, n as int, order),
    decreases n,
{
    if n == 0 {
        Seq::empty()
    } else {
        let last = n - 1;
        let before_last = lemma_order_up_to(ranks, last as nat);
        let at = lemma_place_in_order(ranks, before_last, last);
        let order = before_last.insert(at, last);
        assert(order[at] == last);
        assert forall|place: int| 0 <= place < n implies #[trigger] order.contains(place) by {
            if place < last {
                assert(before_last.contains(place));
                let k = before_last.index_of(place);
                assert(order[if k < at { k } else { k + 1 }] == place);
            }
        }
        assert forall|i: int, j: int| 0 <= i < j < order.len() implies before(
            ranks,
            #[trigger] order[i],
            #[trigger] order[j],
        ) by {
            let (old_i, old_j) = (if i < at { i } else { i - 1 }, if j < at { j } else { j - 1 });
            if i != at && j != at {
                assert(order[i] == before_last[old_i] && order[j] == before_last[old_j]);
                assert(before(ranks, before_last[old_i], before_last[old_j]));
            } else if i == at {
                assert(order[j] == before_last[old_j]);
                assert(before(ranks, last, before_last[old_j]));
            } else {
                assert(order[i] == before_last[old_i]);
                assert(before(ranks, before_last[old_i], last));
            }
        }
        assert forall|i: int| 0 <= i < order.len() implies 0 <= #[trigger] order[i] < n by {
            if i != at {
                assert(order[i] == before_last[if i < at { i } else { i - 1 }]);
            }
        }
        order
    }
}

/// Where a place belongs in an order of other places.
proof fn lemma_place_in_order(ranks: Seq<Rank>, order: Seq<int>, place: int) -> (at: int)
    requires
        forall|i: int| 0 <= i < order.len() ==> #[trigger] order[i] != place,
        forall|i: int, j: int|
            0 <= i < j < order.len() ==> before(ranks, #[trigger] order[i], #[trigger] order[j]),
    ensures
        0 <= at <= order.len(),
        forall|i: int| 0 <= i < at ==> before(ranks, #[trigger] order[i], place),
        forall|i: int| at <= i < order.len() ==> before(ranks, place, #[trigger] order[i]),
    decreases order.len(),
{
    let len = order.len() as int;
    if len == 0 {
        0
    } else if before(ranks, order[len - 1], place) {
        assert forall|i: int| 0 <= i < len implies before(ranks, #[trigger] order[i], place) by {
            if i < len - 1 {
                assert(before(ranks, order[i], order[len - 1]));
            }
        }
        len
    } else {
        let init = order.drop_last();
        assert forall|i: int| 0 <= i < init.len() implies #[trigger] init[i] != place by {
            assert(init[i] == order[i]);
        }
        let at = lemma_place_in_order(ranks, init, place);
        assert forall|i: int| 0 <= i < at implies before(ranks, #[trigger] order[i], place) by {
            assert(init[i] == order[i]);
        }
        assert forall|i: int| at <= i < len implies before(ranks, place, #[trigger] order[i]) by {
            if i < len - 1 {
                assert(init[i] == order[i]);
            }
        }
        at
    }
}

/// Two orders of rank agree as far as the first goes.
proof fn lemma_same_start(
    ranks: Seq<Rank>,
    high: int,
    order: Seq<int>,
    other: Seq<int>,
    n: nat,
)
    requires
        in_rank_order(ranks, 0, high, order),
        in_rank_order(ranks, 0, high, other),
        n <= order.len(),
    ensures
        n <= other.len(),
        forall|i: int| 0 <= i < n ==> order[i] == other[i],
    decreases n,
{
    if n > 0 {
        lemma_same_start(ranks, high, order, other, (n - 1) as nat);
        let at = n - 1;
        let place = order[at];
        assert(other.contains(place));
        let k = other.index_of(place);
        if k < at {
            assert(order[k] == place);
            assert(before(ranks, order[k], order[at]));
        }
        let rival = other[at];
        assert(order.contains(rival));
        let j = order.index_of(rival);
        if j < at {
            assert(other[j] == rival);
            assert(before(ranks, other[j], other[at]));
        }
        if k > at && j > at {
            assert(before(ranks, other[at], other[k]));
            assert(before(ranks, order[at], order[j]));
        }
        assert(order[at] == other[at]);
    }
}

pub open spec fn places(order: Seq<usize>) -> Seq<int> {
    order.map_values(|place: usize| place as int)
}

/// The places from `low` to `high`, in the order of rank.
fn order_between(ranks: &Vec<Rank>, low: usize, high: usize) -> (order: Vec<usize>)
    requires
        low <= high <= ranks@.len(),
    ensures
        in_rank_order(ranks@, low as int, high as int, places(order@)),
    decreases high - low,
{
    let mut order: Vec<usize> = Vec::with_capacity(high - low);
    if low == high {
        return order;
    }
    if high - low == 1 {
        order.push(low);
        assert(places(order@)[0] == low);
        return order;
    }
    let middle: usize = low + (high - low) / 2;
    let left = order_between(ranks, low, middle);
    let right = order_between(ranks, middle, high);
    merge_orders(ranks, low, middle, high, &left, &right)
}

/// Two orders of neighbouring places, made one.
fn merge_orders(
    ranks: &Vec<Rank>,
    low: usize,
    middle: usize,
    high: usize,
    left: &Vec<usize>,
    right: &Vec<usize>,
) -> (order: Vec<usize>)
    requires
        low <= middle <= high <= ranks@.len(),
        in_rank_order(ranks@, low as int, middle as int, places(left@)),
        in_rank_order(ranks@, middle as int, high as int, places(right@)),
    ensures
        in_rank_order(ranks@, low as int, high as int, places(order@)),
{
    let ghost a = places(left@);
    let ghost b = places(right@);
    let mut order: Vec<usize> = Vec::with_capacity(high - low);
    let mut i: usize = 0;
    let mut j: usize = 0;
    while i < left.len() || j < right.len()
        invariant
            low <= middle <= high <= ranks@.len(),
            a == places(left@),
            b == places(right@),
            in_rank_order(ranks@, low as int, middle as int, a),
            in_rank_order(ranks@, middle as int, high as int, b),
            i <= left@.len(),
            j <= right@.len(),
            forall|k: int| 0 <= k < order@.len() ==> low <= #[trigger] order@[k] < high,
            forall|k: int| 0 <= k < i ==> order@.contains(#[trigger] left@[k]),
            forall|k: int| 0 <= k < j ==> order@.contains(#[trigger] right@[k]),
            forall|k: int, l: int|
                0 <= k < l < order@.len() ==> before(
                    ranks@,
                    #[trigger] order@[k] as int,
                    #[trigger] order@[l] as int,
                ),
            forall|k: int|
                0 <= k < order@.len() && i < left@.len() ==> before(
                    ranks@,
                    #[trigger] order@[k] as int,
                    a[i as int],
                ),
            forall|k: int|
                0 <= k < order@.len() && j < right@.len() ==> before(
                    ranks@,
                    #[trigger] order@[k] as int,
                    b[j as int],
                ),
        decreases left@.len() - i + right@.len() - j,
    {
        let ghost old_order = order@;
        proof {
            if i < left@.len() {
                assert(low <= a[i as int] < middle);
            }
            if j < right@.len() {
                assert(middle <= b[j as int] < high);
            }
        }
        let from_left: bool = j >= right.len() || (i < left.len() && ranks[left[i]]
            <= ranks[right[j]]);
        let next: usize = if from_left {
            left[i]
        } else {
            right[j]
        };
        order.push(next);
        proof {
            assert forall|x: usize| old_order.contains(x) implies order@.contains(x) by {
                let k = old_order.index_of(x);
                assert(order@[k] == x);
            }
            assert(order@[old_order.len() as int] == next);
            if from_left {
                if i + 1 < left@.len() {
                    assert(before(ranks@, a[i as int], a[i + 1]));
                }
                if j < right@.len() {
                    assert(before(ranks@, next as int, b[j as int]));
                }
            } else {
                if j + 1 < right@.len() {
                    assert(before(ranks@, b[j as int], b[j + 1]));
                }
                if i < left@.len() {
                    assert(before(ranks@, next as int, a[i as int]));
                }
            }
        }
        if from_left {
            i = i + 1;
        } else {
            j = j + 1;
        }
    }
    proof {
        let all = places(order@);
        assert forall|place: int| low <= place < high implies #[trigger] all.contains(place) by {
            let x = if place < middle {
                assert(a.contains(place));
                left@[a.index_of(place)]
            } else {
                assert(b.contains(place));
                right@[b.index_of(place)]
            };
            assert(order@.contains(x));
            assert(all[order@.index_of(x)] == place);
        }
    }
    order
}

/// All places, in the order of rank; places of the same rank stay in their order.
pub fn order_by_rank(ranks: &Vec<Rank>) -> (order: Vec<usize>)
    ensures
        places(order@) == rank_order(ranks@),
        in_rank_order(ranks@, 0, ranks@.len() as int, places(order@)),
{
    let order = order_between(ranks, 0, ranks.len());
    proof {
        lemma_rank_order_unique(ranks@, places(order@));
    }
    order
}

} // verus!
