//! Stable ranking by descending key.

use vstd::prelude::*;

verus! {

/// Item `left` ranks before item `right`: by the larger key, and among equal keys by position.
pub open spec fn ranks_before(keys: Seq<u64>, left: int, right: int) -> bool {
    keys[left] > keys[right] || (keys[left] == keys[right] && left < right)
}

/// `order` lists the items `0..count` by rank.
pub open spec fn is_ranking(keys: Seq<u64>, order: Seq<usize>, count: int) -> bool {
    &&& order.len() == count
    &&& forall|place: int|
        0 <= place < order.len() ==> 0 <= (#[trigger] order[place]) < count
    &&& forall|early: int, late: int|
        0 <= early < late < order.len() ==> ranks_before(
            keys,
            #[trigger] order[early] as int,
            #[trigger] order[late] as int,
        )
    &&& forall|item: usize| item < count ==> #[trigger] order.contains(item)
}

/// Ranks items by descending key; items with equal keys keep their order.
pub fn stable_descending(keys: &[u64]) -> (order: Vec<usize>)
    ensures
        is_ranking(keys@, order@, keys@.len() as int),
{
    let mut order: Vec<usize> = Vec::new();
    for item in 0..keys.len()
        invariant
            is_ranking(keys@, order@, item as int),
    {
        let mut place: usize = order.len();
        while place > 0 && keys[order[place - 1]] < keys[item]
            invariant
                item < keys.len(),
                is_ranking(keys@, order@, item as int),
                place <= order.len(),
                forall|later: int|
                    place <= later < order.len() ==> keys@[#[trigger] order@[later] as int]
                        < keys@[item as int],
            decreases place,
        {
            place = place - 1;
        }
        let ghost before = order@;
        order.insert(place, item);
        proof {
            assert forall|early: int, late: int| 0 <= early < late < order@.len() implies ranks_before(
                keys@,
                #[trigger] order@[early] as int,
                #[trigger] order@[late] as int,
            ) by {
                let early_before = if early < place { early } else { early - 1 };
                let late_before = if late < place { late } else { late - 1 };
                if early == place {
                    assert(order@[late] == before[late - 1]);
                } else if late == place {
                    assert(order@[early] == before[early]);
                    if early < place - 1 {
                        assert(ranks_before(
                            keys@,
                            before[early] as int,
                            before[place - 1] as int,
                        ));
                    }
                } else {
                    assert(order@[early] == before[early_before]);
                    assert(order@[late] == before[late_before]);
                }
            }
            assert forall|other: usize| other < item + 1 implies #[trigger] order@.contains(
                other,
            ) by {
                if other == item {
                    assert(order@[place as int] == item);
                } else {
                    assert(before.contains(other));
                    let at = choose|at: int| 0 <= at < before.len() && before[at] == other;
                    if at < place {
                        assert(order@[at] == other);
                    } else {
                        assert(order@[at + 1] == other);
                    }
                }
            }
        }
    }
    order
}

/// There is only one way to rank the items: the result of [`stable_descending`] is determined by
/// the keys.
pub proof fn law_ranking_is_unique(keys: Seq<u64>, left: Seq<usize>, right: Seq<usize>)
    requires
        is_ranking(keys, left, keys.len() as int),
        is_ranking(keys, right, keys.len() as int),
    ensures
        left == right,
{
    assert forall|place: int| 0 <= place < left.len() implies left[place] == right[place] by {
        lemma_same_place(keys, left, right, place);
    }
    assert(left =~= right);
}

proof fn lemma_same_place(keys: Seq<u64>, left: Seq<usize>, right: Seq<usize>, place: int)
    requires
        is_ranking(keys, left, keys.len() as int),
        is_ranking(keys, right, keys.len() as int),
        0 <= place < left.len(),
    ensures
        left[place] == right[place],
    decreases place,
{
    assert forall|earlier: int| 0 <= earlier < place implies left[earlier] == right[earlier] by {
        lemma_same_place(keys, left, right, earlier);
    }
    if left[place] != right[place] {
        assert(right.contains(left[place]));
        let left_place = choose|at: int| 0 <= at < right.len() && right[at] == left[place];
        assert(left.contains(right[place]));
        let right_place = choose|at: int| 0 <= at < left.len() && left[at] == right[place];
        assert(left_place > place) by {
            if left_place < place {
                assert(left[left_place] == right[left_place]);
                assert(ranks_before(keys, left[left_place] as int, left[place] as int));
            }
        }
        assert(right_place > place) by {
            if right_place < place {
                assert(left[right_place] == right[right_place]);
                assert(ranks_before(keys, right[right_place] as int, right[place] as int));
            }
        }
        assert(ranks_before(keys, right[place] as int, right[left_place] as int));
        assert(ranks_before(keys, left[place] as int, left[right_place] as int));
    }
}

/// Every list of keys has a ranking.
pub proof fn law_ranking_exists(keys: Seq<u64>, count: int) -> (order: Seq<usize>)
    requires
        0 <= count <= keys.len() <= usize::MAX,
    ensures
        is_ranking(keys, order, count),
    decreases count,
{
    if count == 0 {
        Seq::empty()
    } else {
        let before = law_ranking_exists(keys, count - 1);
        let item = (count - 1) as usize;
        let place = lemma_ranking_place(keys, before, item, before.len() as int);
        let order = before.insert(place, item);
        assert forall|early: int, late: int| 0 <= early < late < order.len() implies ranks_before(
            keys,
            #[trigger] order[early] as int,
            #[trigger] order[late] as int,
        ) by {
            let early_before = if early < place {
                early
            } else {
                early - 1
            };
            let late_before = if late < place {
                late
            } else {
                late - 1
            };
            if early == place {
                assert(order[late] == before[late - 1]);
            } else if late == place {
                assert(order[early] == before[early]);
                if early < place - 1 {
                    assert(ranks_before(keys, before[early] as int, before[place - 1] as int));
                }
            } else {
                assert(order[early] == before[early_before]);
                assert(order[late] == before[late_before]);
            }
        }
        assert forall|other: usize| other < count implies #[trigger] order.contains(other) by {
            if other == item {
                assert(order[place] == item);
            } else {
                assert(before.contains(other));
                let at = choose|at: int| 0 <= at < before.len() && before[at] == other;
                if at < place {
                    assert(order[at] == other);
                } else {
                    assert(order[at + 1] == other);
                }
            }
        }
        order
    }
}

/// Where the next item goes: behind all items that are not smaller.
proof fn lemma_ranking_place(keys: Seq<u64>, order: Seq<usize>, item: usize, start: int) -> (place:
    int)
    requires
        is_ranking(keys, order, item as int),
        item < keys.len(),
        0 <= start <= order.len(),
        forall|later: int|
            start <= later < order.len() ==> keys[#[trigger] order[later] as int]
                < keys[item as int],
    ensures
        0 <= place <= order.len(),
        forall|later: int|
            place <= later < order.len() ==> keys[#[trigger] order[later] as int]
                < keys[item as int],
        place > 0 ==> keys[order[place - 1] as int] >= keys[item as int],
    decreases start,
{
    if start > 0 && keys[order[start - 1] as int] < keys[item as int] {
        lemma_ranking_place(keys, order, item, start - 1)
    } else {
        start
    }
}

}
