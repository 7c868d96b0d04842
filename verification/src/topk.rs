//! The greatest scores of a row, kept in a heap.

use vstd::multiset::Multiset;
use vstd::prelude::*;

verus! {

/// The place of a binary32 number among all numbers: numbers compare as their places do, and the
/// two zeros share a place.
pub open spec fn place(bits: u32) -> int {
    if bits < 0x8000_0000 {
        bits as int
    } else {
        0x8000_0000 - bits
    }
}

/// The place of a binary32 number among all numbers.
pub fn number_place(bits: u32) -> (result: i64)
    ensures
        result == place(bits),
{
    if bits < 0x8000_0000 {
        bits as i64
    } else {
        0x8000_0000 - bits as i64
    }
}

/// A score and its position in the row.
pub type Item = (u32, usize);

/// The place of an item.
pub open spec fn rank(item: Item) -> int {
    place(item.0)
}

/// The heap with `item` moved up from position `child` to its place.
pub open spec fn sifted_up(heap: Seq<Item>, child: int, item: Item) -> Seq<Item>
    decreases child,
{
    if child > 0 && rank(item) < rank(heap[(child - 1) / 2]) {
        sifted_up(heap.update(child, heap[(child - 1) / 2]), (child - 1) / 2, item)
    } else {
        heap.update(child, item)
    }
}

/// The heap with one more item.
pub open spec fn pushed(heap: Seq<Item>, item: Item) -> Seq<Item> {
    sifted_up(heap.push(item), heap.len() as int, item)
}

/// The smaller child of a position.
pub open spec fn smaller_child(heap: Seq<Item>, parent: int) -> int {
    if 2 * parent + 2 < heap.len() && rank(heap[2 * parent + 1]) > rank(heap[2 * parent + 2]) {
        2 * parent + 2
    } else {
        2 * parent + 1
    }
}

/// The heap with `item` moved down from position `parent` to its place.
pub open spec fn sifted_down(heap: Seq<Item>, parent: int, item: Item) -> Seq<Item>
    decreases heap.len() - parent,
{
    let child = smaller_child(heap, parent);
    if parent < 0 || child >= heap.len() || rank(heap[child]) > rank(item) {
        heap.update(parent, item)
    } else {
        sifted_down(heap.update(parent, heap[child]), child, item)
    }
}

/// The heap without its first item.
pub open spec fn popped(heap: Seq<Item>) -> Seq<Item> {
    if heap.len() <= 1 {
        Seq::empty()
    } else {
        sifted_down(heap.drop_last(), 0, heap.last())
    }
}

/// No item is smaller than the one above it.
pub open spec fn is_heap(heap: Seq<Item>) -> bool {
    forall|index: int|
        0 < index < heap.len() ==> rank(heap[(index - 1) / 2]) <= rank(#[trigger] heap[index])
}

/// A heap but for position `hole`, where `item` is to go: no item below the hole is smaller than
/// what is above it.
spec fn heap_but(heap: Seq<Item>, hole: int) -> bool {
    &&& 0 <= hole < heap.len()
    &&& forall|index: int|
        0 < index < heap.len() && index != hole && (index - 1) / 2 != hole ==> rank(
            heap[(index - 1) / 2],
        ) <= rank(#[trigger] heap[index])
    &&& forall|index: int|
        0 < index < heap.len() && (index - 1) / 2 == hole && hole > 0 ==> rank(
            heap[(hole - 1) / 2],
        ) <= rank(#[trigger] heap[index])
}

/// What stands below the hole is not smaller than `item`.
spec fn below(heap: Seq<Item>, hole: int, item: Item) -> bool {
    forall|index: int|
        0 < index < heap.len() && (index - 1) / 2 == hole ==> rank(item) <= rank(
            #[trigger] heap[index],
        )
}

proof fn lemma_update_multiset(heap: Seq<Item>, index: int, item: Item)
    requires
        0 <= index < heap.len(),
    ensures
        heap.update(index, item).to_multiset() == heap.to_multiset().remove(heap[index]).insert(
            item,
        ),
{
    broadcast use vstd::seq_lib::group_to_multiset_ensures;

    assert(heap.update(index, item) =~= heap.remove(index).insert(index, item));
    vstd::seq_lib::to_multiset_insert(heap.remove(index), index, item);
}

/// Moving the item at `other` into the hole and the hole to `other` keeps the items.
proof fn lemma_shift_multiset(heap: Seq<Item>, hole: int, other: int, item: Item)
    requires
        0 <= hole < heap.len(),
        0 <= other < heap.len(),
        hole != other,
    ensures
        heap.update(hole, heap[other]).update(other, item).to_multiset() == heap.update(
            hole,
            item,
        ).to_multiset(),
{
    broadcast use vstd::seq_lib::group_to_multiset_ensures;

    let moved = heap.update(hole, heap[other]);
    lemma_update_multiset(heap, hole, heap[other]);
    lemma_update_multiset(moved, other, item);
    lemma_update_multiset(heap, hole, item);
    let base = heap.to_multiset().remove(heap[hole]);
    assert(base.insert(heap[other]).remove(heap[other]).insert(item) =~= base.insert(item));
}

proof fn lemma_sifted_up(heap: Seq<Item>, child: int, item: Item)
    requires
        heap_but(heap, child),
        below(heap, child, item),
    ensures
        is_heap(sifted_up(heap, child, item)),
        sifted_up(heap, child, item).len() == heap.len(),
        sifted_up(heap, child, item).to_multiset() == heap.update(child, item).to_multiset(),
    decreases child,
{
    let parent = (child - 1) / 2;
    if child > 0 && rank(item) < rank(heap[parent]) {
        let moved = heap.update(child, heap[parent]);
        assert(heap_but(moved, parent)) by {
            assert forall|index: int|
                0 < index < moved.len() && index != parent && (index - 1) / 2 != parent implies rank(
                moved[(index - 1) / 2],
            ) <= rank(#[trigger] moved[index]) by {
                let same = heap[index];
            }
            assert forall|index: int|
                0 < index < moved.len() && (index - 1) / 2 == parent && parent > 0 implies rank(
                moved[(parent - 1) / 2],
            ) <= rank(#[trigger] moved[index]) by {
                let same = heap[index];
                let above = heap[parent];
            }
        }
        assert(below(moved, parent, item)) by {
            assert forall|index: int|
                0 < index < moved.len() && (index - 1) / 2 == parent implies rank(item) <= rank(
                #[trigger] moved[index],
            ) by {
                let same = heap[index];
            }
        }
        lemma_sifted_up(moved, parent, item);
        lemma_shift_multiset(heap, child, parent, item);
    } else {
        let result = heap.update(child, item);
        assert forall|index: int| 0 < index < result.len() implies rank(result[(index - 1) / 2])
            <= rank(#[trigger] result[index]) by {
            let same = heap[index];
        }
    }
}

/// Pushing keeps the heap a heap and adds just the item.
pub proof fn law_push(heap: Seq<Item>, item: Item)
    requires
        is_heap(heap),
    ensures
        is_heap(pushed(heap, item)),
        pushed(heap, item).len() == heap.len() + 1,
        pushed(heap, item).to_multiset() == heap.to_multiset().insert(item),
{
    broadcast use vstd::seq_lib::group_to_multiset_ensures;

    let longer = heap.push(item);
    assert(heap_but(longer, heap.len() as int)) by {
        assert forall|index: int|
            0 < index < longer.len() && index != heap.len() && (index - 1) / 2
                != heap.len() implies rank(longer[(index - 1) / 2]) <= rank(
            #[trigger] longer[index],
        ) by {
            let same = heap[index];
        }
    }
    lemma_sifted_up(longer, heap.len() as int, item);
    assert(longer.update(heap.len() as int, item) =~= longer);
}

proof fn lemma_sifted_down(heap: Seq<Item>, parent: int, item: Item)
    requires
        heap_but(heap, parent),
        parent > 0 ==> rank(heap[(parent - 1) / 2]) <= rank(item),
    ensures
        is_heap(sifted_down(heap, parent, item)),
        sifted_down(heap, parent, item).len() == heap.len(),
        sifted_down(heap, parent, item).to_multiset() == heap.update(parent, item).to_multiset(),
    decreases heap.len() - parent,
{
    let child = smaller_child(heap, parent);
    if child >= heap.len() || rank(heap[child]) > rank(item) {
        let result = heap.update(parent, item);
        assert forall|index: int| 0 < index < result.len() implies rank(result[(index - 1) / 2])
            <= rank(#[trigger] result[index]) by {
            let same = heap[index];
        }
    } else {
        let moved = heap.update(parent, heap[child]);
        assert(heap_but(moved, child)) by {
            assert forall|index: int|
                0 < index < moved.len() && index != child && (index - 1) / 2 != child implies rank(
                moved[(index - 1) / 2],
            ) <= rank(#[trigger] moved[index]) by {
                let same = heap[index];
                let lower = heap[child];
            }
            assert forall|index: int|
                0 < index < moved.len() && (index - 1) / 2 == child && child > 0 implies rank(
                moved[(child - 1) / 2],
            ) <= rank(#[trigger] moved[index]) by {
                let same = heap[index];
            }
        }
        lemma_sifted_down(moved, child, item);
        lemma_shift_multiset(heap, parent, child, item);
    }
}

/// The first item of a heap is a smallest one.
pub proof fn law_first_is_smallest(heap: Seq<Item>, index: int)
    requires
        is_heap(heap),
        0 <= index < heap.len(),
    ensures
        rank(heap[0]) <= rank(heap[index]),
    decreases index,
{
    if index > 0 {
        law_first_is_smallest(heap, (index - 1) / 2);
        assert(rank(heap[(index - 1) / 2]) <= rank(heap[index]));
    }
}

/// Popping keeps the heap a heap and takes away just the first item.
pub proof fn law_pop(heap: Seq<Item>)
    requires
        is_heap(heap),
        heap.len() > 0,
    ensures
        is_heap(popped(heap)),
        popped(heap).len() == heap.len() - 1,
        popped(heap).to_multiset() == heap.to_multiset().remove(heap[0]),
{
    broadcast use vstd::seq_lib::group_to_multiset_ensures;

    if heap.len() == 1 {
        assert(heap.remove(0) =~= Seq::empty());
    } else {
        let shorter = heap.drop_last();
        assert(heap_but(shorter, 0)) by {
            assert forall|index: int|
                0 < index < shorter.len() && index != 0 && (index - 1) / 2 != 0 implies rank(
                shorter[(index - 1) / 2],
            ) <= rank(#[trigger] shorter[index]) by {
                let same = heap[index];
            }
        }
        lemma_sifted_down(shorter, 0, heap.last());
        lemma_update_multiset(shorter, 0, heap.last());
        assert(heap =~= shorter.push(heap.last()));
        let base = shorter.to_multiset();
        assert(base.count(heap[0]) > 0) by {
            assert(shorter[0] == heap[0]);
            assert(shorter.contains(heap[0]));
        }
        assert(base.remove(heap[0]).insert(heap.last()) =~= base.insert(heap.last()).remove(
            heap[0],
        ));
    }
}

/// The items of the first `count` scores of a row.
pub open spec fn items(scores: Seq<u32>, count: int) -> Seq<Item> {
    Seq::new(count as nat, |index: int| (scores[index], index as usize))
}

/// The heap after the first `count` scores: it takes in a score as long as it is not full, and
/// later in exchange for a smaller one.
pub open spec fn kept(scores: Seq<u32>, limit: int, count: int) -> Seq<Item>
    decreases count,
{
    if count <= 0 {
        Seq::empty()
    } else {
        let before = kept(scores, limit, count - 1);
        let item = (scores[count - 1], (count - 1) as usize);
        if before.len() < limit {
            pushed(before, item)
        } else if rank(before[0]) < rank(item) {
            popped(pushed(before, item))
        } else {
            before
        }
    }
}

/// The items that are not among the first `count` scores' kept ones.
pub open spec fn left_out(scores: Seq<u32>, limit: int, count: int) -> Multiset<Item>
    decreases count,
{
    if count <= 0 {
        Multiset::empty()
    } else {
        let before = kept(scores, limit, count - 1);
        let item = (scores[count - 1], (count - 1) as usize);
        let out = left_out(scores, limit, count - 1);
        if before.len() < limit {
            out
        } else if rank(before[0]) < rank(item) {
            out.insert(pushed(before, item)[0])
        } else {
            out.insert(item)
        }
    }
}

/// The items of a heap in the order in which they are taken out.
pub open spec fn drained(heap: Seq<Item>) -> Seq<Item>
    decreases heap.len(),
{
    if heap.len() == 0 || popped(heap).len() >= heap.len() {
        Seq::empty()
    } else {
        seq![heap[0]] + drained(popped(heap))
    }
}

/// The items with the greatest scores of a row, greatest first.
pub open spec fn greatest(scores: Seq<u32>, limit: int) -> Seq<Item> {
    drained(kept(scores, limit, scores.len() as int)).reverse()
}

proof fn lemma_kept(scores: Seq<u32>, limit: int, count: int)
    requires
        0 < limit,
        0 <= count <= scores.len(),
    ensures
        is_heap(kept(scores, limit, count)),
        kept(scores, limit, count).len() == (if count < limit {
            count
        } else {
            limit
        }),
        kept(scores, limit, count).to_multiset().add(left_out(scores, limit, count)) == items(
            scores,
            count,
        ).to_multiset(),
        count <= limit ==> left_out(scores, limit, count).len() == 0,
        forall|inside: Item, outside: Item|
            kept(scores, limit, count).contains(inside) && #[trigger] left_out(
                scores,
                limit,
                count,
            ).count(outside) > 0 ==> rank(outside) <= #[trigger] rank(inside),
    decreases count,
{
    broadcast use vstd::seq_lib::group_to_multiset_ensures;

    if count == 0 {
        assert(items(scores, 0) =~= Seq::empty());
        assert(Seq::<Item>::empty().to_multiset().add(Multiset::empty())
            =~= Seq::<Item>::empty().to_multiset());
    } else {
        lemma_kept(scores, limit, count - 1);
        let before = kept(scores, limit, count - 1);
        let item = (scores[count - 1], (count - 1) as usize);
        let out = left_out(scores, limit, count - 1);
        let after = kept(scores, limit, count);
        let out_after = left_out(scores, limit, count);
        assert(items(scores, count) =~= items(scores, count - 1).push(item));
        if before.len() < limit {
            law_push(before, item);
            assert(before.to_multiset().insert(item).add(out) =~= before.to_multiset().add(
                out,
            ).insert(item));
            assert forall|inside: Item, outside: Item|
                after.contains(inside) && #[trigger] out_after.count(outside) > 0 implies rank(
                outside,
            ) <= #[trigger] rank(inside) by {
                assert(out.len() == 0);
                assert(out.count(outside) <= out.len());
            }
        } else if rank(before[0]) < rank(item) {
            let full = pushed(before, item);
            law_push(before, item);
            law_pop(full);
            assert(full.contains(full[0]));
            assert(full.to_multiset().remove(full[0]).add(out.insert(full[0]))
                =~= before.to_multiset().add(out).insert(item));
            assert forall|inside: Item, outside: Item|
                after.contains(inside) && #[trigger] out_after.count(outside) > 0 implies rank(
                outside,
            ) <= #[trigger] rank(inside) by {
                assert(after.to_multiset().count(inside) > 0);
                assert(full.to_multiset().count(inside) > 0);
                assert(full.contains(inside));
                let at = choose|at: int| 0 <= at < full.len() && full[at] == inside;
                law_first_is_smallest(full, at);
                if outside != full[0] {
                    assert(out.count(outside) > 0);
                    assert(before.contains(before[0]));
                    assert(rank(outside) <= rank(before[0]));
                    if inside != item {
                        assert(before.to_multiset().count(inside) > 0);
                        assert(before.contains(inside));
                    }
                }
            }
        } else {
            assert(before.to_multiset().add(out.insert(item)) =~= before.to_multiset().add(
                out,
            ).insert(item));
            assert forall|inside: Item, outside: Item|
                after.contains(inside) && #[trigger] out_after.count(outside) > 0 implies rank(
                outside,
            ) <= #[trigger] rank(inside) by {
                if outside == item {
                    let at = choose|at: int| 0 <= at < before.len() && before[at] == inside;
                    law_first_is_smallest(before, at);
                } else {
                    assert(out.count(outside) > 0);
                }
            }
        }
    }
}

proof fn lemma_drained(heap: Seq<Item>)
    requires
        is_heap(heap),
    ensures
        drained(heap).len() == heap.len(),
        drained(heap).to_multiset() == heap.to_multiset(),
        forall|early: int, late: int|
            0 <= early <= late < drained(heap).len() ==> rank(#[trigger] drained(heap)[early])
                <= rank(#[trigger] drained(heap)[late]),
    decreases heap.len(),
{
    broadcast use vstd::seq_lib::group_to_multiset_ensures;

    if heap.len() == 0 {
        assert(heap =~= Seq::empty());
    } else {
        law_pop(heap);
        let rest = drained(popped(heap));
        lemma_drained(popped(heap));
        assert(seq![heap[0]] + rest =~= rest.insert(0, heap[0]));
        vstd::seq_lib::to_multiset_insert(rest, 0, heap[0]);
        assert(heap.contains(heap[0]));
        assert(heap.to_multiset().remove(heap[0]).insert(heap[0]) =~= heap.to_multiset());
        assert forall|early: int, late: int| 0 <= early <= late < drained(heap).len() implies rank(
            #[trigger] drained(heap)[early],
        ) <= rank(#[trigger] drained(heap)[late]) by {
            if early > 0 {
                assert(drained(heap)[early] == rest[early - 1]);
                assert(drained(heap)[late] == rest[late - 1]);
            } else if late > 0 {
                assert(drained(heap)[late] == rest[late - 1]);
                assert(rest.contains(rest[late - 1]));
                assert(rest.to_multiset().count(rest[late - 1]) > 0);
                assert(heap.to_multiset().count(rest[late - 1]) > 0);
                assert(heap.contains(rest[late - 1]));
                let at = choose|at: int| 0 <= at < heap.len() && heap[at] == rest[late - 1];
                law_first_is_smallest(heap, at);
            }
        }
    }
}

/// The greatest items of a row are as many as asked for, come greatest first, are together with
/// the rest all items of the row, and none of the rest is greater than any of them.
pub proof fn law_greatest(scores: Seq<u32>, limit: int)
    requires
        0 < limit <= scores.len(),
    ensures
        greatest(scores, limit).len() == limit,
        forall|early: int, late: int|
            0 <= early <= late < limit ==> rank(#[trigger] greatest(scores, limit)[early]) >= rank(
                #[trigger] greatest(scores, limit)[late],
            ),
        greatest(scores, limit).to_multiset().add(left_out(scores, limit, scores.len() as int))
            == items(scores, scores.len() as int).to_multiset(),
        forall|inside: Item, outside: Item|
            greatest(scores, limit).contains(inside) && #[trigger] left_out(
                scores,
                limit,
                scores.len() as int,
            ).count(outside) > 0 ==> rank(outside) <= #[trigger] rank(inside),
{
    broadcast use vstd::seq_lib::group_to_multiset_ensures;

    let heap = kept(scores, limit, scores.len() as int);
    let ascending = drained(heap);
    lemma_kept(scores, limit, scores.len() as int);
    lemma_drained(heap);
    ascending.lemma_reverse_to_multiset();
    assert forall|early: int, late: int| 0 <= early <= late < limit implies rank(
        #[trigger] greatest(scores, limit)[early],
    ) >= rank(#[trigger] greatest(scores, limit)[late]) by {
        assert(greatest(scores, limit)[early] == ascending[limit - 1 - early]);
        assert(greatest(scores, limit)[late] == ascending[limit - 1 - late]);
    }
    assert forall|inside: Item, outside: Item|
        greatest(scores, limit).contains(inside) && #[trigger] left_out(
            scores,
            limit,
            scores.len() as int,
        ).count(outside) > 0 implies rank(outside) <= #[trigger] rank(inside) by {
        assert(greatest(scores, limit).to_multiset().count(inside) > 0);
        assert(heap.to_multiset().count(inside) > 0);
        assert(heap.contains(inside));
    }
}

/// A binary32 number is finite.
pub open spec fn is_finite(bits: u32) -> bool {
    bits % 0x8000_0000 < 0x7f80_0000
}

/// All numbers are finite.
pub open spec fn all_finite(scores: Seq<u32>) -> bool {
    forall|index: int| 0 <= index < scores.len() ==> is_finite(#[trigger] scores[index])
}

/// The greatest items with their token numbers, which count positions from one.
pub open spec fn tokens(items: Seq<Item>) -> Seq<(u32, i32)> {
    Seq::new(items.len(), |index: int| (items[index].0, (items[index].1 + 1) as i32))
}

/// Which scores cannot be selected from.
#[derive(Clone, Copy, Debug, PartialEq, Eq, Structural)]
pub struct SelectionError;

/// Adds an item to a heap.
fn heap_push_min(heap: &mut Vec<Item>, item: Item)
    ensures
        final(heap)@ == pushed(old(heap)@, item),
{
    heap.push(item);
    let key: i64 = number_place(item.0);
    let mut child: usize = heap.len() - 1;
    while child > 0 && key < number_place(heap[(child - 1) / 2].0)
        invariant
            key == rank(item),
            child < heap.len(),
            sifted_up(heap@, child as int, item) == pushed(old(heap)@, item),
        decreases child,
    {
        let parent: usize = (child - 1) / 2;
        heap.set(child, heap[parent]);
        child = parent;
    }
    heap.set(child, item);
}

/// Takes the first item out of a heap.
fn heap_pop_min(heap: &mut Vec<Item>) -> (result: Item)
    requires
        old(heap)@.len() > 0,
        old(heap)@.len() <= i32::MAX + 1,
    ensures
        result == old(heap)@[0],
        final(heap)@ == popped(old(heap)@),
{
    let result: Item = heap[0];
    let last_place: usize = heap.len() - 1;
    let last: Item = heap[last_place];
    heap.truncate(last_place);
    assert(heap@ =~= old(heap)@.drop_last());
    if last_place == 0 {
        assert(heap@ =~= Seq::empty());
        return result;
    }
    let size: usize = heap.len();
    let key: i64 = number_place(last.0);
    let mut parent: usize = 0;
    let mut moving: bool = true;
    while moving
        invariant
            key == rank(last),
            size == heap.len(),
            size <= i32::MAX,
            parent < size,
            moving ==> sifted_down(heap@, parent as int, last) == popped(old(heap)@),
            !moving ==> heap@.update(parent as int, last) == popped(old(heap)@),
        decreases 2 * (size - parent) + moving as int,
    {
        let mut child: usize = 2 * parent + 1;
        if child + 1 < size && number_place(heap[child].0) > number_place(heap[child + 1].0) {
            child = child + 1;
        }
        if child >= size || number_place(heap[child].0) > key {
            moving = false;
        } else {
            heap.set(parent, heap[child]);
            parent = child;
        }
    }
    heap.set(parent, last);
    result
}

proof fn lemma_drain_step(found: Seq<Item>, heap: Seq<Item>)
    requires
        is_heap(heap),
        heap.len() > 0,
    ensures
        is_heap(popped(heap)),
        popped(heap).len() == heap.len() - 1,
        found.push(heap[0]) + drained(popped(heap)) == found + drained(heap),
{
    law_pop(heap);
    assert(found.push(heap[0]) + drained(popped(heap)) =~= found + (seq![heap[0]] + drained(
        popped(heap),
    )));
}

/// Takes all items out of a heap.
fn drain(mut heap: Vec<Item>) -> (ascending: Vec<Item>)
    requires
        is_heap(heap@),
        heap@.len() <= i32::MAX,
    ensures
        ascending@ == drained(heap@),
{
    let ghost full = heap@;
    let mut ascending: Vec<Item> = Vec::new();
    assert(ascending@ + drained(full) =~= drained(full));
    while heap.len() > 0
        invariant
            is_heap(heap@),
            heap@.len() <= i32::MAX,
            ascending@ + drained(heap@) == drained(full),
        decreases heap@.len(),
    {
        proof {
            lemma_drain_step(ascending@, heap@);
        }
        let smallest: Item = heap_pop_min(&mut heap);
        ascending.push(smallest);
    }
    assert(drained(heap@) =~= Seq::empty());
    assert(ascending@ =~= drained(full));
    ascending
}

/// Whether all scores are finite.
fn finite_scores(scores: &[u32]) -> (result: bool)
    ensures
        result == all_finite(scores@),
{
    for index in 0..scores.len()
        invariant
            all_finite(scores@.take(index as int)),
    {
        if scores[index] % 0x8000_0000 >= 0x7f80_0000 {
            assert(!is_finite(scores@[index as int]));
            return false;
        }
        assert forall|earlier: int| 0 <= earlier < index + 1 implies is_finite(
            #[trigger] scores@.take(index + 1)[earlier],
        ) by {
            if earlier < index {
                assert(scores@.take(index as int)[earlier] == scores@[earlier]);
            }
        }
    }
    assert(scores@.take(scores@.len() as int) =~= scores@);
    true
}

/// The greatest items stand in the row.
proof fn lemma_greatest_inside(scores: Seq<u32>, limit: int)
    requires
        0 < limit <= scores.len() <= usize::MAX,
    ensures
        forall|index: int|
            0 <= index < greatest(scores, limit).len() ==> (#[trigger] greatest(
                scores,
                limit,
            )[index]).1 < scores.len(),
{
    broadcast use vstd::seq_lib::group_to_multiset_ensures;

    law_greatest(scores, limit);
    let best = greatest(scores, limit);
    let all = items(scores, scores.len() as int);
    assert forall|index: int| 0 <= index < best.len() implies (#[trigger] best[index]).1
        < scores.len() by {
        assert(best.contains(best[index]));
        assert(best.to_multiset().count(best[index]) > 0);
        assert(all.to_multiset().count(best[index]) > 0);
        assert(all.contains(best[index]));
    }
}

/// The heap of the greatest scores of a row.
fn fill(scores: &[u32], count: usize) -> (heap: Vec<Item>)
    requires
        0 < count <= scores@.len() <= i32::MAX,
    ensures
        heap@ == kept(scores@, count as int, scores@.len() as int),
        is_heap(heap@),
        heap@.len() == count,
{
    let mut heap: Vec<Item> = Vec::new();
    for score_id in 0..scores.len()
        invariant
            0 < count <= scores@.len() <= i32::MAX,
            heap@ == kept(scores@, count as int, score_id as int),
    {
        proof {
            lemma_kept(scores@, count as int, score_id as int);
        }
        let item: Item = (scores[score_id], score_id);
        if heap.len() < count {
            heap_push_min(&mut heap, item);
        } else if number_place(heap[0].0) < number_place(item.0) {
            proof {
                law_push(heap@, item);
            }
            heap_push_min(&mut heap, item);
            let _smallest: Item = heap_pop_min(&mut heap);
        }
    }
    proof {
        lemma_kept(scores@, count as int, scores@.len() as int);
    }
    heap
}

/// Items from the last to the first, with their token numbers.
fn number_reversed(ascending: &Vec<Item>) -> (chosen: Vec<(u32, i32)>)
    requires
        forall|index: int|
            0 <= index < ascending@.len() ==> (#[trigger] ascending@[index]).1 < i32::MAX,
    ensures
        chosen@ == tokens(ascending@.reverse()),
{
    let mut chosen: Vec<(u32, i32)> = Vec::new();
    let mut left: usize = ascending.len();
    while left > 0
        invariant
            left <= ascending@.len(),
            forall|index: int|
                0 <= index < ascending@.len() ==> (#[trigger] ascending@[index]).1 < i32::MAX,
            chosen@ == tokens(ascending@.reverse()).take(ascending@.len() - left),
        decreases left,
    {
        left = left - 1;
        let item: Item = ascending[left];
        chosen.push((item.0, item.1 as i32 + 1));
        assert(chosen@ =~= tokens(ascending@.reverse()).take(ascending@.len() - left));
    }
    assert(chosen@ =~= tokens(ascending@.reverse()));
    chosen
}

/// The `count` greatest scores of a row with their token numbers, greatest first. Scores are
/// binary32 numbers, given by their bits.
pub fn select_top_k(scores: &[u32], count: usize) -> (result: Result<Vec<(u32, i32)>, SelectionError>)
    requires
        scores@.len() <= i32::MAX,
    ensures
        result is Err <==> count == 0 || count > scores@.len() || !all_finite(scores@),
        result matches Ok(chosen) ==> chosen@ == tokens(greatest(scores@, count as int)),
{
    if count == 0 || count > scores.len() || !finite_scores(scores) {
        return Err(SelectionError);
    }
    let heap: Vec<Item> = fill(scores, count);
    let ascending: Vec<Item> = drain(heap);
    proof {
        lemma_greatest_inside(scores@, count as int);
        let best = greatest(scores@, count as int);
        assert forall|index: int| 0 <= index < ascending@.len() implies (
        #[trigger] ascending@[index]).1 < i32::MAX by {
            assert(best[ascending@.len() - 1 - index] == ascending@[index]);
        }
    }
    Ok(number_reversed(&ascending))
}

}
