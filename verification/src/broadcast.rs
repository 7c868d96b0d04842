//! Element-wise operations on tensors whose shapes broadcast: a dimension of one stretches to the
//! other's.

use vstd::arithmetic::div_mod::*;
use vstd::prelude::*;

use crate::tensor;
use crate::tensor::shape_elements;

verus! {

/// Why two tensors cannot be combined.
#[derive(Clone, Copy, Debug, PartialEq, Eq, Structural)]
pub enum BroadcastError {
    /// A shape has too many elements to count.
    ElementOverflow,
    /// A shape does not match the length of its data.
    Length,
    /// The shapes do not broadcast.
    Incompatible,
    /// A stride is too large to count.
    StrideOverflow,
}

/// The product of the dimensions from `axis` on.
pub open spec fn tail(shape: Seq<usize>, axis: int) -> int
    decreases shape.len() - axis,
{
    if axis >= shape.len() || axis < 0 {
        1
    } else {
        shape[axis] * tail(shape, axis + 1)
    }
}

/// The product of all dimensions, taken from the front or from the back.
pub proof fn lemma_tail_is_elements(shape: Seq<usize>, axis: int)
    requires
        0 <= axis <= shape.len(),
    ensures
        tensor::elements(shape.take(axis)) * tail(shape, axis) == tensor::elements(shape),
    decreases shape.len() - axis,
{
    if axis == shape.len() {
        assert(shape.take(axis) =~= shape);
    } else {
        lemma_tail_is_elements(shape, axis + 1);
        let shorter = shape.take(axis);
        let longer = shape.take(axis + 1);
        assert(longer.drop_last() =~= shorter);
        let before = tensor::elements(shorter);
        let size = shape[axis] as int;
        let rest = tail(shape, axis + 1);
        assert(before * (size * rest) == before * size * rest) by (nonlinear_arith);
    }
}

/// A shape with leading dimensions of one, up to `rank` dimensions.
pub open spec fn padded(shape: Seq<usize>, rank: int) -> Seq<usize> {
    Seq::new((rank - shape.len()) as nat, |axis: int| 1usize) + shape
}

/// The larger of two ranks.
pub open spec fn joint_rank(left: Seq<usize>, right: Seq<usize>) -> int {
    if left.len() < right.len() {
        right.len() as int
    } else {
        left.len() as int
    }
}

/// Two shapes of the same rank broadcast.
pub open spec fn compatible(left: Seq<usize>, right: Seq<usize>) -> bool {
    forall|axis: int|
        0 <= axis < left.len() ==> (#[trigger] left[axis]) == right[axis] || left[axis] == 1
            || right[axis] == 1
}

/// The shape that two shapes of the same rank stretch to.
pub open spec fn stretched(left: Seq<usize>, right: Seq<usize>) -> Seq<usize> {
    Seq::new(
        left.len(),
        |axis: int|
            if left[axis] == 1 {
                right[axis]
            } else {
                left[axis]
            },
    )
}

/// All strides can be counted.
pub open spec fn strides_fit(shape: Seq<usize>) -> bool {
    forall|axis: int| 0 < axis < shape.len() ==> #[trigger] tail(shape, axis) <= usize::MAX
}

/// Where the first `count` coordinates of a place of the output lead in a tensor that stretches to
/// it.
pub open spec fn source_offset(
    place: int,
    output: Seq<usize>,
    source: Seq<usize>,
    count: int,
) -> int
    decreases count,
{
    if count <= 0 {
        0
    } else {
        let axis = count - 1;
        let size = output[axis] as int;
        let own = if source[axis] == 1 {
            0
        } else {
            place % size * tail(source, axis + 1)
        };
        source_offset(place / size, output, source, axis) + own
    }
}

/// A tensor stretches to a shape.
pub open spec fn stretches(source: Seq<usize>, output: Seq<usize>) -> bool {
    &&& source.len() == output.len()
    &&& forall|axis: int| 0 <= axis < output.len() ==> #[trigger] output[axis] > 0
    &&& forall|axis: int|
        0 <= axis < output.len() ==> (#[trigger] source[axis]) == 1 || source[axis] == output[axis]
}

pub proof fn lemma_tail_positive(shape: Seq<usize>, output: Seq<usize>, axis: int)
    requires
        stretches(shape, output),
        0 <= axis <= shape.len(),
    ensures
        tail(shape, axis) >= 1,
    decreases shape.len() - axis,
{
    if axis < shape.len() {
        lemma_tail_positive(shape, output, axis + 1);
        let size = shape[axis] as int;
        let rest = tail(shape, axis + 1);
        assert(size * rest >= 1) by (nonlinear_arith)
            requires
                size >= 1,
                rest >= 1,
        ;
    }
}

/// Every place of the output leads into the tensor.
proof fn lemma_source_offset(place: int, output: Seq<usize>, source: Seq<usize>, count: int)
    requires
        stretches(source, output),
        0 <= count <= output.len(),
        0 <= place,
    ensures
        0 <= source_offset(place, output, source, count),
        source_offset(place, output, source, count) + tail(source, count) <= tail(source, 0),
    decreases count,
{
    if count > 0 {
        let axis = count - 1;
        let size = output[axis] as int;
        let own = source[axis] as int;
        assert(own == 1 || own == size);
        let rest = tail(source, count);
        let coordinate = place % size;
        vstd::arithmetic::div_mod::lemma_mod_bound(place, size);
        vstd::arithmetic::div_mod::lemma_div_pos_is_pos(place, size);
        lemma_source_offset(place / size, output, source, axis);
        lemma_tail_positive(source, output, count);
        assert(tail(source, axis) == own * rest);
        if own == 1 {
            assert(1 * rest == rest);
        } else {
            assert(0 <= coordinate * rest && coordinate * rest + rest <= own * rest)
                by (nonlinear_arith)
                requires
                    0 <= coordinate,
                    coordinate + 1 <= own,
                    rest >= 1,
            ;
        }
    }
}

/// A shape with leading dimensions of one.
pub fn pad(shape: &[usize], rank: usize) -> (result: Vec<usize>)
    requires
        shape@.len() <= rank,
    ensures
        result@ == padded(shape@, rank as int),
{
    let mut result: Vec<usize> = Vec::new();
    let missing: usize = rank - shape.len();
    for axis in 0..missing
        invariant
            result@ == Seq::new(axis as nat, |place: int| 1usize),
    {
        result.push(1);
        assert(result@ =~= Seq::new((axis + 1) as nat, |place: int| 1usize));
    }
    let ghost ones = result@;
    for axis in 0..shape.len()
        invariant
            result@ == ones + shape@.take(axis as int),
    {
        result.push(shape[axis]);
        assert(result@ =~= ones + shape@.take(axis + 1));
    }
    assert(shape@.take(shape@.len() as int) =~= shape@);
    assert(result@ =~= padded(shape@, rank as int));
    result
}

/// The distance between neighbours along each axis, unless one is too large to count.
pub fn contiguous_strides(shape: &Vec<usize>) -> (result: Option<Vec<usize>>)
    ensures
        match result {
            Some(strides) => strides_fit(shape@) && strides@.len() == shape@.len() && forall|
                axis: int,
            |
                0 <= axis < shape@.len() ==> #[trigger] strides@[axis] == tail(shape@, axis + 1),
            None => !strides_fit(shape@),
        },
{
    let rank: usize = shape.len();
    let mut strides: Vec<usize> = Vec::new();
    for axis in 0..rank
        invariant
            strides@.len() == axis,
            forall|place: int| 0 <= place < axis ==> #[trigger] strides@[place] == 1,
    {
        strides.push(1);
    }
    let mut index: usize = rank;
    while index > 1
        invariant
            rank == shape@.len() == strides@.len(),
            index <= rank,
            forall|axis: int|
                0 <= axis < rank && axis >= index - 1 ==> #[trigger] strides@[axis] == tail(
                    shape@,
                    axis + 1,
                ),
            forall|axis: int|
                index <= axis < rank ==> #[trigger] tail(shape@, axis) <= usize::MAX,
        decreases index,
    {
        index = index - 1;
        assert(strides@[index as int] == tail(shape@, index + 1));
        assert(tail(shape@, index as int) == shape@[index as int] * tail(shape@, index + 1));
        assert(strides@[index as int] * shape@[index as int] == shape@[index as int]
            * strides@[index as int]) by (nonlinear_arith);
        match strides[index].checked_mul(shape[index]) {
            Some(stride) => {
                strides.set(index - 1, stride);
            },
            None => {
                assert(tail(shape@, index as int) > usize::MAX);
                return None;
            },
        }
    }
    Some(strides)
}

/// Leading dimensions of one do not change the number of elements.
pub proof fn lemma_padding_keeps_elements(shape: Seq<usize>, rank: int)
    requires
        shape.len() <= rank,
    ensures
        tensor::elements(padded(shape, rank)) == tensor::elements(shape),
    decreases rank,
{
    let longer = padded(shape, rank);
    if shape.len() > 0 {
        lemma_padding_keeps_elements(shape.drop_last(), rank - 1);
        assert(longer.drop_last() =~= padded(shape.drop_last(), rank - 1));
    } else if rank > 0 {
        lemma_padding_keeps_elements(shape, rank - 1);
        assert(longer.drop_last() =~= padded(shape, rank - 1));
    } else {
        assert(longer =~= shape);
    }
}

/// A shape with elements has no dimension of zero.
pub proof fn lemma_dimensions_positive(shape: Seq<usize>, axis: int)
    requires
        tensor::elements(shape) > 0,
        0 <= axis < shape.len(),
    ensures
        shape[axis] > 0,
    decreases shape.len(),
{
    tensor::lemma_elements_nonnegative(shape.drop_last());
    let before = tensor::elements(shape.drop_last());
    let last = shape.last() as int;
    assert(before > 0 && last > 0) by (nonlinear_arith)
        requires
            before * last > 0,
            before >= 0,
            last >= 0,
    ;
    if axis < shape.len() - 1 {
        lemma_dimensions_positive(shape.drop_last(), axis);
    }
}

/// Where the first `axes` coordinates of a place of the output lead in a tensor that stretches to
/// it.
pub fn find_offset(
    place: usize,
    output: &Vec<usize>,
    source: &Vec<usize>,
    strides: &Vec<usize>,
    axes: usize,
) -> (result: usize)
    requires
        axes <= output@.len(),
        stretches(source@, output@),
        tail(source@, 0) <= usize::MAX,
        strides@.len() == source@.len(),
        forall|axis: int|
            0 <= axis < source@.len() ==> #[trigger] strides@[axis] == tail(source@, axis + 1),
    ensures
        result == source_offset(place as int, output@, source@, axes as int),
        result + tail(source@, axes as int) <= tail(source@, 0),
{
    let mut rest: usize = place;
    let mut offset: usize = 0;
    let mut count: usize = axes;
    proof {
        lemma_source_offset(place as int, output@, source@, axes as int);
        lemma_tail_positive(source@, output@, axes as int);
    }
    while count > 0
        invariant
            stretches(source@, output@),
            tail(source@, 0) <= usize::MAX,
            strides@.len() == source@.len(),
            forall|axis: int|
                0 <= axis < source@.len() ==> #[trigger] strides@[axis] == tail(source@, axis + 1),
            count <= axes <= output@.len(),
            source_offset(place as int, output@, source@, axes as int) <= tail(source@, 0),
            offset + source_offset(rest as int, output@, source@, count as int) == source_offset(
                place as int,
                output@,
                source@,
                axes as int,
            ),
        decreases count,
    {
        let axis: usize = count - 1;
        assert(source@[axis as int] == 1 || source@[axis as int] == output@[axis as int]);
        let size: usize = output[axis];
        let coordinate: usize = rest % size;
        let ghost before = source_offset(
            (rest / size) as int,
            output@,
            source@,
            axis as int,
        );
        proof {
            lemma_source_offset((rest / size) as int, output@, source@, axis as int);
            lemma_source_offset(rest as int, output@, source@, count as int);
            lemma_tail_positive(source@, output@, count as int);
        }
        rest = rest / size;
        if source[axis] != 1 {
            assert(0 <= coordinate * strides@[axis as int]) by (nonlinear_arith)
                requires
                    0 <= coordinate,
                    0 <= strides@[axis as int],
            ;
            offset = offset + coordinate * strides[axis];
        }
        count = axis;
    }
    offset
}

/// What stands against combining two tensors, if anything.
pub open spec fn broadcast_error(
    left_shape: Seq<usize>,
    left_len: int,
    right_shape: Seq<usize>,
    right_len: int,
) -> Option<BroadcastError> {
    let rank = joint_rank(left_shape, right_shape);
    let left = padded(left_shape, rank);
    let right = padded(right_shape, rank);
    if !tensor::countable(left_shape) {
        Some(BroadcastError::ElementOverflow)
    } else if tensor::elements(left_shape) != left_len {
        Some(BroadcastError::Length)
    } else if !tensor::countable(right_shape) {
        Some(BroadcastError::ElementOverflow)
    } else if tensor::elements(right_shape) != right_len {
        Some(BroadcastError::Length)
    } else if !compatible(left, right) {
        Some(BroadcastError::Incompatible)
    } else if !strides_fit(left) || !strides_fit(right) {
        Some(BroadcastError::StrideOverflow)
    } else if !tensor::countable(stretched(left, right)) {
        Some(BroadcastError::ElementOverflow)
    } else {
        None
    }
}

/// The shape that two padded shapes stretch to, if they are compatible.
fn stretch(left: &Vec<usize>, right: &Vec<usize>) -> (result: Option<Vec<usize>>)
    requires
        left@.len() == right@.len(),
    ensures
        match result {
            Some(shape) => compatible(left@, right@) && shape@ == stretched(left@, right@),
            None => !compatible(left@, right@),
        },
{
    let mut shape: Vec<usize> = Vec::new();
    for axis in 0..left.len()
        invariant
            left@.len() == right@.len(),
            shape@ == stretched(left@, right@).take(axis as int),
            forall|place: int|
                0 <= place < axis ==> (#[trigger] left@[place]) == right@[place] || left@[place]
                    == 1 || right@[place] == 1,
    {
        let left_size: usize = left[axis];
        let right_size: usize = right[axis];
        if left_size != right_size && left_size != 1 && right_size != 1 {
            assert(!(left@[axis as int] == right@[axis as int] || left@[axis as int] == 1
                || right@[axis as int] == 1));
            return None;
        }
        shape.push(
            if left_size == 1 {
                right_size
            } else {
                left_size
            },
        );
        assert(shape@ =~= stretched(left@, right@).take(axis + 1));
    }
    assert(shape@ =~= stretched(left@, right@));
    Some(shape)
}

/// Compatible tensors stretch to their joint shape, when it has elements.
proof fn lemma_both_stretch(left: Seq<usize>, right: Seq<usize>)
    requires
        left.len() == right.len(),
        compatible(left, right),
        tensor::elements(stretched(left, right)) > 0,
    ensures
        stretches(left, stretched(left, right)),
        stretches(right, stretched(left, right)),
{
    let output = stretched(left, right);
    assert forall|axis: int| 0 <= axis < output.len() implies #[trigger] output[axis] > 0 by {
        lemma_dimensions_positive(output, axis);
    }
    assert forall|axis: int| 0 <= axis < output.len() implies (#[trigger] right[axis]) == 1
        || right[axis] == output[axis] by {
        let same = left[axis];
    }
}

/// Combines two tensors value by value: each value of the output comes of the two values that
/// stretch to its place.
pub fn broadcast_binary<T: Copy, F: Fn(T, T) -> T>(
    left_shape: &[usize],
    left: &[T],
    right_shape: &[usize],
    right: &[T],
    operation: &F,
) -> (result: Result<(Vec<usize>, Vec<T>), BroadcastError>)
    requires
        forall|one: T, other: T| call_requires(*operation, (one, other)),
    ensures
        ({
            let rank = joint_rank(left_shape@, right_shape@);
            let left_padded = padded(left_shape@, rank);
            let right_padded = padded(right_shape@, rank);
            let shape = stretched(left_padded, right_padded);
            match broadcast_error(
                left_shape@,
                left@.len() as int,
                right_shape@,
                right@.len() as int,
            ) {
                Some(error) => result matches Err(found) && found == error,
                None => result matches Ok(output) && output.0@ == shape && output.1@.len()
                    == tensor::elements(shape) && forall|place: int|
                    0 <= place < output.1@.len() ==> call_ensures(
                        *operation,
                        (
                            left@[source_offset(place, shape, left_padded, rank)],
                            right@[source_offset(place, shape, right_padded, rank)],
                        ),
                        #[trigger] output.1@[place],
                    ),
            }
        }),
{
    match shape_elements(left_shape) {
        Ok(count) => {
            if count != left.len() {
                return Err(BroadcastError::Length);
            }
        },
        Err(_) => {
            return Err(BroadcastError::ElementOverflow);
        },
    }
    match shape_elements(right_shape) {
        Ok(count) => {
            if count != right.len() {
                return Err(BroadcastError::Length);
            }
        },
        Err(_) => {
            return Err(BroadcastError::ElementOverflow);
        },
    }
    let rank: usize = if left_shape.len() < right_shape.len() {
        right_shape.len()
    } else {
        left_shape.len()
    };
    let left_padded: Vec<usize> = pad(left_shape, rank);
    let right_padded: Vec<usize> = pad(right_shape, rank);
    let shape: Vec<usize> = match stretch(&left_padded, &right_padded) {
        Some(shape) => shape,
        None => {
            return Err(BroadcastError::Incompatible);
        },
    };
    let left_strides: Vec<usize> = match contiguous_strides(&left_padded) {
        Some(strides) => strides,
        None => {
            return Err(BroadcastError::StrideOverflow);
        },
    };
    let right_strides: Vec<usize> = match contiguous_strides(&right_padded) {
        Some(strides) => strides,
        None => {
            return Err(BroadcastError::StrideOverflow);
        },
    };
    let elements: usize = match shape_elements(shape.as_slice()) {
        Ok(elements) => elements,
        Err(_) => {
            return Err(BroadcastError::ElementOverflow);
        },
    };
    let left_len: usize = left.len();
    let right_len: usize = right.len();
    proof {
        lemma_padding_keeps_elements(left_shape@, rank as int);
        lemma_padding_keeps_elements(right_shape@, rank as int);
        lemma_tail_is_elements(left_padded@, 0);
        lemma_tail_is_elements(right_padded@, 0);
        assert(tensor::elements(left_padded@.take(0)) == 1);
        assert(tensor::elements(right_padded@.take(0)) == 1);
        assert(tail(right_padded@, 0) == tensor::elements(right_padded@));
        if elements > 0 {
            lemma_both_stretch(left_padded@, right_padded@);
        }
    }
    let mut output: Vec<T> = Vec::new();
    for place in 0..elements
        invariant
            forall|one: T, other: T| call_requires(*operation, (one, other)),
            elements > 0 ==> stretches(left_padded@, shape@),
            elements > 0 ==> stretches(right_padded@, shape@),
            left_len == left@.len() == tail(left_padded@, 0),
            right_len == right@.len() == tail(right_padded@, 0),
            left_strides@.len() == left_padded@.len(),
            right_strides@.len() == right_padded@.len(),
            shape@.len() == rank,
            forall|axis: int|
                0 <= axis < left_padded@.len() ==> #[trigger] left_strides@[axis] == tail(
                    left_padded@,
                    axis + 1,
                ),
            forall|axis: int|
                0 <= axis < right_padded@.len() ==> #[trigger] right_strides@[axis] == tail(
                    right_padded@,
                    axis + 1,
                ),
            output@.len() == place,
            forall|earlier: int|
                0 <= earlier < place ==> call_ensures(
                    *operation,
                    (
                        left@[source_offset(earlier, shape@, left_padded@, rank as int)],
                        right@[source_offset(earlier, shape@, right_padded@, rank as int)],
                    ),
                    #[trigger] output@[earlier],
                ),
    {
        let left_offset: usize = find_offset(place, &shape, &left_padded, &left_strides, rank);
        let right_offset: usize = find_offset(place, &shape, &right_padded, &right_strides, rank);
        let value: T = operation(left[left_offset], right[right_offset]);
        output.push(value);
    }
    Ok((shape, output))
}

/// The place of coordinates in a tensor, by their first `count` axes: the last axis runs fastest.
pub open spec fn place_of(coordinates: spec_fn(int) -> int, shape: Seq<usize>, count: int) -> int
    decreases count,
{
    if count <= 0 {
        0
    } else {
        place_of(coordinates, shape, count - 1) * shape[count - 1] + coordinates(count - 1)
    }
}

proof fn lemma_offset_of_coordinates(
    coordinates: spec_fn(int) -> int,
    own: spec_fn(int) -> int,
    output: Seq<usize>,
    source: Seq<usize>,
    count: int,
)
    requires
        stretches(source, output),
        0 <= count <= output.len(),
        forall|axis: int|
            0 <= axis < output.len() ==> 0 <= #[trigger] coordinates(axis) < output[axis],
        forall|axis: int|
            0 <= axis < output.len() ==> #[trigger] own(axis) == if source[axis] == 1 {
                0
            } else {
                coordinates(axis)
            },
    ensures
        0 <= place_of(coordinates, output, count),
        source_offset(place_of(coordinates, output, count), output, source, count) == place_of(
            own,
            source,
            count,
        ) * tail(source, count),
    decreases count,
{
    if count > 0 {
        let axis = count - 1;
        lemma_offset_of_coordinates(coordinates, own, output, source, axis);
        let size = output[axis] as int;
        let before = place_of(coordinates, output, axis);
        let place = place_of(coordinates, output, count);
        let coordinate = coordinates(axis);
        assert(place == before * size + coordinate);
        lemma_fundamental_div_mod_converse(place, size, before, coordinate);
        let rest = tail(source, count);
        let earlier = place_of(own, source, axis);
        assert(tail(source, axis) == source[axis] * rest);
        let mine = own(axis);
        assert(place_of(own, source, count) == earlier * source[axis] + mine);
        assert((earlier * source[axis] + mine) * rest == earlier * (source[axis] * rest) + mine
            * rest) by (nonlinear_arith);
        assert(0 <= before * size) by (nonlinear_arith)
            requires
                0 <= before,
                0 < size,
        ;
        if source[axis] == 1 {
            assert(mine * rest == 0) by (nonlinear_arith)
                requires
                    mine == 0,
            ;
        }
    } else {
        assert(0 * tail(source, 0) == 0) by (nonlinear_arith);
    }
}

/// A value of the output comes from the source at the same coordinates, but along each axis on which
/// the source has one value only it is that value.
pub proof fn law_values_come_from_their_coordinates(
    coordinates: spec_fn(int) -> int,
    output: Seq<usize>,
    source: Seq<usize>,
)
    requires
        stretches(source, output),
        forall|axis: int|
            0 <= axis < output.len() ==> 0 <= #[trigger] coordinates(axis) < output[axis],
    ensures
        source_offset(
            place_of(coordinates, output, output.len() as int),
            output,
            source,
            output.len() as int,
        ) == place_of(
            |axis: int|
                if source[axis] == 1 {
                    0
                } else {
                    coordinates(axis)
                },
            source,
            source.len() as int,
        ),
{
    let own = |axis: int|
        if source[axis] == 1 {
            0
        } else {
            coordinates(axis)
        };
    lemma_offset_of_coordinates(coordinates, own, output, source, output.len() as int);
    assert(tail(source, source.len() as int) == 1);
}

/// Two shapes stretch to a shape that both stretch to and that is no larger than needed: on each axis
/// it has the size of one of them. The order of the two does not matter.
pub proof fn law_stretching_is_symmetric(left: Seq<usize>, right: Seq<usize>)
    requires
        left.len() == right.len(),
        compatible(left, right),
        forall|axis: int| 0 <= axis < left.len() ==> #[trigger] left[axis] > 0,
        forall|axis: int| 0 <= axis < right.len() ==> #[trigger] right[axis] > 0,
    ensures
        stretched(left, right) == stretched(right, left),
        stretches(left, stretched(left, right)),
        stretches(right, stretched(left, right)),
{
    assert forall|axis: int| 0 <= axis < left.len() implies (#[trigger] stretched(
        left,
        right,
    )[axis]) == stretched(right, left)[axis] && stretched(left, right)[axis] > 0 by {
        assert(left[axis] == right[axis] || left[axis] == 1 || right[axis] == 1);
        assert(left[axis] > 0 && right[axis] > 0);
    }
    assert(stretched(left, right) =~= stretched(right, left));
    assert forall|axis: int| 0 <= axis < left.len() implies ((#[trigger] right[axis]) == 1
        || right[axis] == stretched(left, right)[axis]) by {
        assert(left[axis] == right[axis] || left[axis] == 1 || right[axis] == 1);
    }
}

}
