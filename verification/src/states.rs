//! Recurrent states: tensors whose rows belong to beams.

use vstd::arithmetic::div_mod::*;
use vstd::prelude::*;

use crate::kernels;
use crate::kernels::offset;

verus! {

/// Why a recurrent state cannot be used.
#[derive(Clone, Copy, Debug, PartialEq, Eq, Structural)]
pub enum StateError {
    /// A dimension is dynamic or negative.
    Dimension,
    /// The state does not have a row for each beam.
    Shape,
    /// A parent lies outside of the rows.
    Parent,
}

/// All dimensions are known.
pub open spec fn is_fixed(shape: Seq<i64>) -> bool {
    forall|axis: int|
        0 <= axis < shape.len() ==> 0 <= #[trigger] shape[axis] <= usize::MAX
}

/// The sizes of a shape all of whose dimensions are known.
pub fn fixed_shape(shape: &[i64]) -> (result: Result<Vec<usize>, StateError>)
    ensures
        match result {
            Ok(sizes) => is_fixed(shape@) && sizes@.len() == shape@.len() && forall|axis: int|
                0 <= axis < shape@.len() ==> #[trigger] sizes@[axis] == shape@[axis],
            Err(error) => !is_fixed(shape@) && error == StateError::Dimension,
        },
{
    let mut sizes: Vec<usize> = Vec::new();
    for axis in 0..shape.len()
        invariant
            sizes@.len() == axis,
            is_fixed(shape@.take(axis as int)),
            forall|place: int| 0 <= place < axis ==> #[trigger] sizes@[place] == shape@[place],
    {
        let size: i64 = shape[axis];
        if size < 0 || size as u64 > usize::MAX as u64 {
            assert(!(0 <= shape@[axis as int] <= usize::MAX));
            return Err(StateError::Dimension);
        }
        sizes.push(size as usize);
        assert forall|place: int| 0 <= place < axis + 1 implies 0 <= #[trigger] shape@.take(
            axis + 1,
        )[place] <= usize::MAX by {
            if place < axis {
                assert(shape@.take(axis as int)[place] == shape@[place]);
            }
        }
    }
    assert(shape@.take(shape@.len() as int) =~= shape@);
    Ok(sizes)
}

/// The state has a row for each of `max_rows` beams.
pub open spec fn has_rows(shape: Seq<usize>, length: int, max_rows: int) -> bool {
    max_rows > 0 && shape.len() > 0 && shape[0] == max_rows && length % max_rows == 0
}

/// The width of the rows of a state.
pub fn row_width(shape: &[usize], length: usize, max_rows: usize) -> (result: Result<
    usize,
    StateError,
>)
    ensures
        match result {
            Ok(width) => has_rows(shape@, length as int, max_rows as int) && width == length as int
                / max_rows as int,
            Err(error) => !has_rows(shape@, length as int, max_rows as int) && error
                == StateError::Shape,
        },
{
    if max_rows == 0 || shape.len() == 0 || shape[0] != max_rows || length % max_rows != 0 {
        return Err(StateError::Shape);
    }
    Ok(length / max_rows)
}

/// The rows of the parents, and zeros in the rows that have none.
pub open spec fn gathered_rows<T>(data: Seq<T>, zero: T, parents: Seq<usize>, width: int) -> Seq<T> {
    Seq::new(
        data.len(),
        |place: int|
            if place / width < parents.len() {
                data[kernels::cell(parents[place / width] as int, place % width, width)]
            } else {
                zero
            },
    )
}

/// All parents have a row.
pub open spec fn known_rows(parents: Seq<usize>, max_rows: int) -> bool {
    forall|index: int| 0 <= index < parents.len() ==> #[trigger] parents[index] < max_rows
}

/// Whether all parents have a row.
fn rows_known(parents: &[usize], max_rows: usize) -> (result: bool)
    ensures
        result == known_rows(parents@, max_rows as int),
{
    for index in 0..parents.len()
        invariant
            forall|place: int| 0 <= place < index ==> #[trigger] parents@[place] < max_rows,
    {
        if parents[index] >= max_rows {
            assert(!(parents@[index as int] < max_rows));
            return false;
        }
    }
    true
}

/// Lets each beam go on with the row of its parent.
pub fn gather_rows<T: Copy>(
    shape: &[usize],
    data: &[T],
    zero: T,
    parents: &[usize],
    max_rows: usize,
) -> (result: Result<Vec<T>, StateError>)
    requires
        parents@.len() <= max_rows,
    ensures
        match result {
            Ok(rows) => has_rows(shape@, data@.len() as int, max_rows as int) && known_rows(
                parents@,
                max_rows as int,
            ) && rows@ == gathered_rows(
                data@,
                zero,
                parents@,
                data@.len() as int / max_rows as int,
            ),
            Err(error) => if !has_rows(shape@, data@.len() as int, max_rows as int) {
                error == StateError::Shape
            } else {
                !known_rows(parents@, max_rows as int) && error == StateError::Parent
            },
        },
{
    let width: usize = match row_width(shape, data.len(), max_rows) {
        Ok(width) => width,
        Err(error) => {
            return Err(error);
        },
    };
    if !rows_known(parents, max_rows) {
        return Err(StateError::Parent);
    }
    proof {
        lemma_fundamental_div_mod(data@.len() as int, max_rows as int);
    }
    let count: usize = data.len();
    let mut rows: Vec<T> = Vec::new();
    for place in 0..count
        invariant
            count == data@.len() == max_rows * width,
            known_rows(parents@, max_rows as int),
            parents@.len() <= max_rows,
            rows@ == gathered_rows(data@, zero, parents@, width as int).take(place as int),
    {
        assert(width > 0) by (nonlinear_arith)
            requires
                place < max_rows * width,
                place >= 0,
                width >= 0,
        ;
        let target: usize = place / width;
        let value: T = if target < parents.len() {
            let parent: usize = parents[target];
            assert(parent < max_rows);
            let start: usize = offset(parent, width, max_rows, count);
            data[start + place % width]
        } else {
            zero
        };
        rows.push(value);
        assert(rows@ =~= gathered_rows(data@, zero, parents@, width as int).take(place + 1));
    }
    assert(rows@ =~= gathered_rows(data@, zero, parents@, width as int));
    Ok(rows)
}

/// A place lies in its row.
proof fn lemma_place_in_row(place: int, max_rows: int, width: int)
    requires
        0 <= place < max_rows * width,
        0 < width,
    ensures
        0 <= place / width < max_rows,
        0 <= place % width < width,
        kernels::cell(place / width, place % width, width) == place,
{
    lemma_fundamental_div_mod(place, width);
    lemma_mod_bound(place, width);
    assert(place / width < max_rows) by (nonlinear_arith)
        requires
            place == width * (place / width) + place % width,
            place % width >= 0,
            place < max_rows * width,
            width > 0,
    ;
    lemma_div_pos_is_pos(place, width);
    assert(width * (place / width) == (place / width) * width) by (nonlinear_arith);
}

/// Parents in the order of their rows keep the rows as they are.
pub proof fn law_gathering_in_order_keeps_rows<T>(
    data: Seq<T>,
    zero: T,
    parents: Seq<usize>,
    max_rows: int,
    width: int,
)
    requires
        0 < width,
        data.len() == max_rows * width,
        parents.len() == max_rows,
        forall|row: int| 0 <= row < max_rows ==> #[trigger] parents[row] == row,
    ensures
        gathered_rows(data, zero, parents, width) == data,
{
    assert forall|place: int| 0 <= place < data.len() implies gathered_rows(
        data,
        zero,
        parents,
        width,
    )[place] == data[place] by {
        lemma_place_in_row(place, max_rows, width);
    }
    assert(gathered_rows(data, zero, parents, width) =~= data);
}

/// Gathering twice lets each beam go on with the row of its parent's parent.
pub proof fn law_gathering_twice_follows_parents<T>(
    data: Seq<T>,
    zero: T,
    first: Seq<usize>,
    second: Seq<usize>,
    max_rows: int,
    width: int,
)
    requires
        0 < width,
        data.len() == max_rows * width,
        first.len() <= max_rows,
        second.len() <= max_rows,
        known_rows(first, max_rows),
        known_rows(second, first.len() as int),
    ensures
        gathered_rows(gathered_rows(data, zero, first, width), zero, second, width)
            == gathered_rows(
            data,
            zero,
            Seq::new(second.len(), |beam: int| first[second[beam] as int]),
            width,
        ),
{
    let once = gathered_rows(data, zero, first, width);
    let both = Seq::new(second.len(), |beam: int| first[second[beam] as int]);
    assert forall|place: int| 0 <= place < data.len() implies gathered_rows(
        once,
        zero,
        second,
        width,
    )[place] == gathered_rows(data, zero, both, width)[place] by {
        lemma_place_in_row(place, max_rows, width);
        let row = place / width;
        let channel = place % width;
        if row < second.len() {
            let middle = second[row] as int;
            assert(middle < first.len());
            let from = kernels::cell(middle, channel, width);
            assert(0 <= from < max_rows * width) by (nonlinear_arith)
                requires
                    from == middle * width + channel,
                    0 <= middle < max_rows,
                    0 <= channel < width,
            ;
            lemma_fundamental_div_mod_converse(from, width, middle, channel);
            assert(once[from] == data[kernels::cell(first[middle] as int, channel, width)]);
        }
    }
    assert(gathered_rows(once, zero, second, width) =~= gathered_rows(data, zero, both, width));
}

}
