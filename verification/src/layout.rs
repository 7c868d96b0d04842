//! Products of stacks of matrices whose stacks broadcast.

use vstd::prelude::*;
use vstd::slice::slice_subrange;

use crate::broadcast;
use crate::broadcast::{contiguous_strides, find_offset, pad};
use crate::tensor;
use crate::tensor::shape_elements;

verus! {

/// Why stacks of matrices cannot be multiplied.
#[derive(Clone, Copy, Debug, PartialEq, Eq, Structural)]
pub enum MatMulError {
    /// A tensor is not a matrix or a stack of matrices.
    Rank,
    /// The sizes of the matrices do not match, or a size is zero.
    Matrix,
    /// The stacks do not broadcast.
    Batch,
    /// There are no matrices in either stack, or too many to count.
    BatchCount,
    /// A matrix of the left stack lies outside of the data.
    LeftBounds,
    /// A matrix of the right stack lies outside of the data.
    RightBounds,
    /// Two matrices cannot be multiplied.
    Product,
}

/// How stacks of matrices meet.
#[derive(Debug)]
pub struct MatMulLayout {
    pub left_shape: Vec<usize>,
    pub right_shape: Vec<usize>,
    pub batch_shape: Vec<usize>,
    pub output_shape: Vec<usize>,
    pub rows: usize,
    pub inner: usize,
    pub columns: usize,
}

/// The content of a layout.
#[verifier::ext_equal]
pub struct Layout {
    pub left_shape: Seq<usize>,
    pub right_shape: Seq<usize>,
    pub batch_shape: Seq<usize>,
    pub output_shape: Seq<usize>,
    pub rows: usize,
    pub inner: usize,
    pub columns: usize,
}

impl View for MatMulLayout {
    type V = Layout;

    open spec fn view(&self) -> Layout {
        Layout {
            left_shape: self.left_shape@,
            right_shape: self.right_shape@,
            batch_shape: self.batch_shape@,
            output_shape: self.output_shape@,
            rows: self.rows,
            inner: self.inner,
            columns: self.columns,
        }
    }
}

/// The shape of the stack that two stacks stretch to.
pub open spec fn stack_shape(left: Seq<usize>, right: Seq<usize>) -> Seq<usize> {
    Seq::new(
        (left.len() - 2) as nat,
        |axis: int|
            if left[axis] < right[axis] {
                right[axis]
            } else {
                left[axis]
            },
    )
}

/// How stacks of matrices meet, or what stands against it.
pub open spec fn layout_of(left: Seq<usize>, right: Seq<usize>) -> Result<Layout, MatMulError> {
    let rank = broadcast::joint_rank(left, right);
    let left_shape = broadcast::padded(left, rank);
    let right_shape = broadcast::padded(right, rank);
    if left.len() < 2 || right.len() < 2 {
        Err(MatMulError::Rank)
    } else {
        let rows = left_shape[rank - 2];
        let inner = left_shape[rank - 1];
        let columns = right_shape[rank - 1];
        if rows == 0 || inner == 0 || columns == 0 || right_shape[rank - 2] != inner {
            Err(MatMulError::Matrix)
        } else if !broadcast::compatible(left_shape.take(rank - 2), right_shape.take(rank - 2)) {
            Err(MatMulError::Batch)
        } else {
            let batch_shape = stack_shape(left_shape, right_shape);
            Ok(
                Layout {
                    left_shape,
                    right_shape,
                    batch_shape,
                    output_shape: batch_shape.push(rows).push(columns),
                    rows,
                    inner,
                    columns,
                },
            )
        }
    }
}

/// The content of a layout, or the error.
pub open spec fn layout_view(result: Result<MatMulLayout, MatMulError>) -> Result<
    Layout,
    MatMulError,
> {
    match result {
        Ok(layout) => Ok(layout@),
        Err(error) => Err(error),
    }
}

/// The shape of the stack that two stacks stretch to, if they broadcast.
fn stack(left: &Vec<usize>, right: &Vec<usize>) -> (result: Option<Vec<usize>>)
    requires
        2 <= left@.len() == right@.len(),
    ensures
        match result {
            Some(shape) => broadcast::compatible(
                left@.take(left@.len() - 2),
                right@.take(left@.len() - 2),
            ) && shape@ == stack_shape(left@, right@),
            None => !broadcast::compatible(
                left@.take(left@.len() - 2),
                right@.take(left@.len() - 2),
            ),
        },
{
    let ghost expected = stack_shape(left@, right@);
    let ghost left_stack = left@.take(left@.len() - 2);
    let ghost right_stack = right@.take(left@.len() - 2);
    let mut shape: Vec<usize> = Vec::new();
    for axis in 0..left.len() - 2
        invariant
            2 <= left@.len() == right@.len(),
            left_stack == left@.take(left@.len() - 2),
            right_stack == right@.take(left@.len() - 2),
            expected == stack_shape(left@, right@),
            shape@ == expected.take(axis as int),
            forall|place: int|
                0 <= place < axis ==> (#[trigger] left_stack[place]) == right_stack[place]
                    || left_stack[place] == 1 || right_stack[place] == 1,
    {
        let left_size: usize = left[axis];
        let right_size: usize = right[axis];
        if left_size != right_size && left_size != 1 && right_size != 1 {
            assert(!(left_stack[axis as int] == right_stack[axis as int] || left_stack[axis as int]
                == 1 || right_stack[axis as int] == 1));
            return None;
        }
        shape.push(
            if left_size < right_size {
                right_size
            } else {
                left_size
            },
        );
        assert(shape@ =~= expected.take(axis + 1));
    }
    assert(shape@ =~= expected);
    Some(shape)
}

/// How stacks of matrices of the given shapes meet.
pub fn matmul_layout(left: &[usize], right: &[usize]) -> (result: Result<MatMulLayout, MatMulError>)
    ensures
        layout_view(result) == layout_of(left@, right@),
{
    if left.len() < 2 || right.len() < 2 {
        return Err(MatMulError::Rank);
    }
    let rank: usize = if left.len() < right.len() {
        right.len()
    } else {
        left.len()
    };
    let left_shape: Vec<usize> = pad(left, rank);
    let right_shape: Vec<usize> = pad(right, rank);
    let rows: usize = left_shape[rank - 2];
    let inner: usize = left_shape[rank - 1];
    let columns: usize = right_shape[rank - 1];
    if rows == 0 || inner == 0 || columns == 0 || right_shape[rank - 2] != inner {
        return Err(MatMulError::Matrix);
    }
    let batch_shape: Vec<usize> = match stack(&left_shape, &right_shape) {
        Some(batch_shape) => batch_shape,
        None => {
            return Err(MatMulError::Batch);
        },
    };
    let mut output_shape: Vec<usize> = pad(batch_shape.as_slice(), rank - 2);
    assert(output_shape@ =~= batch_shape@);
    output_shape.push(rows);
    output_shape.push(columns);
    Ok(MatMulLayout { left_shape, right_shape, batch_shape, output_shape, rows, inner, columns })
}

/// Where the matrix that meets in `batch` starts in the data of a stack.
pub open spec fn matrix_start(batch: int, source: Seq<usize>, batch_shape: Seq<usize>) -> int {
    broadcast::source_offset(batch, batch_shape, source, batch_shape.len() as int)
}

/// The content of values, if any.
pub open spec fn values_view<T>(values: Option<Vec<T>>) -> Option<Seq<T>> {
    match values {
        Some(values) => Some(values@),
        None => None,
    }
}

/// Multiplying two matrices may give `values`, or fail where there are none.
pub open spec fn multiplies<T, P: Fn(&[T], &[T], usize, usize, usize) -> Option<Vec<T>>>(
    product: P,
    left: Seq<T>,
    right: Seq<T>,
    layout: Layout,
    values: Option<Seq<T>>,
) -> bool {
    exists|one: &[T], other: &[T], found: Option<Vec<T>>|
        {
            &&& one@ == left
            &&& other@ == right
            &&& values == values_view(found)
            &&& #[trigger] call_ensures(
                product,
                (one, other, layout.rows, layout.inner, layout.columns),
                found,
            )
        }
}

/// The left matrix that meets in a batch.
pub open spec fn left_matrix<T>(left: Seq<T>, layout: Layout, batch: int) -> Seq<T> {
    let start = matrix_start(batch, layout.left_shape, layout.batch_shape);
    left.subrange(start, start + layout.rows * layout.inner)
}

/// The right matrix that meets in a batch.
pub open spec fn right_matrix<T>(right: Seq<T>, layout: Layout, batch: int) -> Seq<T> {
    let start = matrix_start(batch, layout.right_shape, layout.batch_shape);
    right.subrange(start, start + layout.inner * layout.columns)
}

/// `values` are the products of the first `count` batches, one after the other.
pub open spec fn batch_products<T, P: Fn(&[T], &[T], usize, usize, usize) -> Option<Vec<T>>>(
    product: P,
    left: Seq<T>,
    right: Seq<T>,
    layout: Layout,
    parts: Seq<Seq<T>>,
) -> bool {
    forall|batch: int|
        0 <= batch < parts.len() ==> multiplies(
            product,
            left_matrix(left, layout, batch),
            right_matrix(right, layout, batch),
            layout,
            Some(#[trigger] parts[batch]),
        )
}

/// Values one after the other.
pub open spec fn flattened<T>(parts: Seq<Seq<T>>) -> Seq<T>
    decreases parts.len(),
{
    if parts.len() == 0 {
        Seq::empty()
    } else {
        flattened(parts.drop_last()) + parts.last()
    }
}

/// How the products of two stacks come out.
pub open spec fn stack_product<T, P: Fn(&[T], &[T], usize, usize, usize) -> Option<Vec<T>>>(
    product: P,
    left_shape: Seq<usize>,
    left: Seq<T>,
    right_shape: Seq<usize>,
    right: Seq<T>,
    result: Result<(Seq<usize>, Seq<T>), MatMulError>,
) -> bool {
    match layout_of(left_shape, right_shape) {
        Err(error) => result == Err::<(Seq<usize>, Seq<T>), MatMulError>(error),
        Ok(layout) => if !tensor::countable(layout.batch_shape) || tensor::elements(
            layout.batch_shape,
        ) == 0 {
            result == Err::<(Seq<usize>, Seq<T>), MatMulError>(MatMulError::BatchCount)
        } else if left.len() == 0 {
            result == Err::<(Seq<usize>, Seq<T>), MatMulError>(MatMulError::LeftBounds)
        } else if right.len() == 0 {
            result == Err::<(Seq<usize>, Seq<T>), MatMulError>(MatMulError::RightBounds)
        } else {
            exists|parts: Seq<Seq<T>>|
                {
                    &&& #[trigger] batch_products(product, left, right, layout, parts)
                    &&& parts.len() <= tensor::elements(layout.batch_shape)
                    &&& if parts.len() == tensor::elements(layout.batch_shape) {
                        result == Ok::<(Seq<usize>, Seq<T>), MatMulError>(
                            (layout.output_shape, flattened(parts)),
                        )
                    } else {
                        multiplies(
                            product,
                            left_matrix(left, layout, parts.len() as int),
                            right_matrix(right, layout, parts.len() as int),
                            layout,
                            None,
                        ) && result == Err::<(Seq<usize>, Seq<T>), MatMulError>(
                            MatMulError::Product,
                        )
                    }
                }
        },
    }
}

/// Only the first coordinates matter.
proof fn lemma_offset_prefix(
    place: int,
    output: Seq<usize>,
    longer: Seq<usize>,
    source: Seq<usize>,
    count: int,
)
    requires
        0 <= count <= output.len() <= longer.len(),
        forall|axis: int| 0 <= axis < output.len() ==> #[trigger] output[axis] == longer[axis],
    ensures
        broadcast::source_offset(place, output, source, count) == broadcast::source_offset(
            place,
            longer,
            source,
            count,
        ),
    decreases count,
{
    if count > 0 {
        assert(output[count - 1] == longer[count - 1]);
        lemma_offset_prefix(
            place / output[count - 1] as int,
            output,
            longer,
            source,
            count - 1,
        );
    }
}

/// No product of trailing dimensions is larger than the product of all.
proof fn lemma_tails_shrink(shape: Seq<usize>, output: Seq<usize>, axis: int)
    requires
        broadcast::stretches(shape, output),
        0 <= axis <= shape.len(),
    ensures
        broadcast::tail(shape, axis) <= broadcast::tail(shape, 0),
    decreases axis,
{
    if axis > 0 {
        lemma_tails_shrink(shape, output, axis - 1);
        broadcast::lemma_tail_positive(shape, output, axis);
        let size = shape[axis - 1] as int;
        let rest = broadcast::tail(shape, axis);
        assert(size >= 1) by {
            assert(shape[axis - 1] == 1 || shape[axis - 1] == output[axis - 1]);
        }
        assert(rest <= size * rest) by (nonlinear_arith)
            requires
                size >= 1,
                rest >= 1,
        ;
    }
}

/// The shape of a stack of matrices.
pub open spec fn full_shape(batch_shape: Seq<usize>, height: usize, width: usize) -> Seq<usize> {
    batch_shape.push(height).push(width)
}

/// Along an axis, two stacks broadcast to the larger of their sizes.
spec fn meets(own: Seq<usize>, other: Seq<usize>, batch_shape: Seq<usize>, axis: int) -> bool {
    &&& own[axis] == other[axis] || own[axis] == 1 || other[axis] == 1
    &&& batch_shape[axis] == if own[axis] < other[axis] {
        other[axis]
    } else {
        own[axis]
    }
}

/// The matrices of a stack lie within its data.
proof fn lemma_stack(
    shape: Seq<usize>,
    own: Seq<usize>,
    other: Seq<usize>,
    batch_shape: Seq<usize>,
    len: int,
)
    requires
        2 <= own.len() == other.len(),
        shape.len() <= own.len(),
        own == broadcast::padded(shape, own.len() as int),
        tensor::elements(shape) == len,
        0 < len,
        batch_shape.len() == own.len() - 2,
        forall|axis: int|
            0 <= axis < batch_shape.len() ==> #[trigger] meets(own, other, batch_shape, axis),
    ensures
        broadcast::stretches(
            own,
            full_shape(batch_shape, own[own.len() - 2], own[own.len() - 1]),
        ),
        broadcast::tail(own, 0) == len,
        broadcast::tail(own, own.len() - 2) == own[own.len() - 2] * own[own.len() - 1],
{
    let rank = own.len() as int;
    broadcast::lemma_padding_keeps_elements(shape, rank);
    broadcast::lemma_tail_is_elements(own, 0);
    assert(tensor::elements(own.take(0)) == 1);
    assert(broadcast::tail(own, 0) == tensor::elements(own));
    let full = full_shape(batch_shape, own[rank - 2], own[rank - 1]);
    assert forall|axis: int| 0 <= axis < full.len() implies #[trigger] full[axis] > 0 by {
        broadcast::lemma_dimensions_positive(own, axis);
        if axis < batch_shape.len() {
            assert(meets(own, other, batch_shape, axis));
            assert(full[axis] == batch_shape[axis]);
        }
    }
    assert forall|axis: int| 0 <= axis < full.len() implies (#[trigger] own[axis]) == 1
        || own[axis] == full[axis] by {
        broadcast::lemma_dimensions_positive(own, axis);
        if axis < batch_shape.len() {
            assert(meets(own, other, batch_shape, axis));
            assert(full[axis] == batch_shape[axis]);
        }
    }
    assert(broadcast::tail(own, rank) == 1);
    assert(broadcast::tail(own, rank - 1) == own[rank - 1]);
}

/// A copy of a shape with two more dimensions.
fn extend_shape(shape: &Vec<usize>, height: usize, width: usize) -> (result: Vec<usize>)
    ensures
        result@ == full_shape(shape@, height, width),
{
    let mut result: Vec<usize> = pad(shape.as_slice(), shape.len());
    assert(result@ =~= shape@);
    result.push(height);
    result.push(width);
    result
}

/// The matrix of a stack that meets in `batch`.
fn matrix_of<'a, T>(
    data: &'a [T],
    batch: usize,
    batch_shape: &Vec<usize>,
    full: &Vec<usize>,
    source: &Vec<usize>,
    strides: &Vec<usize>,
    size: usize,
) -> (result: &'a [T])
    requires
        broadcast::stretches(source@, full@),
        broadcast::tail(source@, 0) == data@.len(),
        batch_shape@.len() + 2 == full@.len(),
        forall|axis: int|
            0 <= axis < batch_shape@.len() ==> #[trigger] batch_shape@[axis] == full@[axis],
        broadcast::tail(source@, batch_shape@.len() as int) == size,
        strides@.len() == source@.len(),
        forall|axis: int|
            0 <= axis < source@.len() ==> #[trigger] strides@[axis] == broadcast::tail(
                source@,
                axis + 1,
            ),
    ensures
        result@ == data@.subrange(
            matrix_start(batch as int, source@, batch_shape@),
            matrix_start(batch as int, source@, batch_shape@) + size,
        ),
{
    let len: usize = data.len();
    let axes: usize = batch_shape.len();
    let start: usize = find_offset(batch, full, source, strides, axes);
    proof {
        lemma_offset_prefix(batch as int, batch_shape@, full@, source@, axes as int);
    }
    slice_subrange(data, start, start + size)
}

/// The content of a product, or the error.
pub open spec fn product_view<T>(result: Result<(Vec<usize>, Vec<T>), MatMulError>) -> Result<
    (Seq<usize>, Seq<T>),
    MatMulError,
> {
    match result {
        Ok((shape, values)) => Ok((shape@, values@)),
        Err(error) => Err(error),
    }
}

/// Multiplies stacks of matrices, batch by batch.
pub fn batched_matmul<T: Copy, P: Fn(&[T], &[T], usize, usize, usize) -> Option<Vec<T>>>(
    product: &P,
    left_shape: &[usize],
    left: &[T],
    right_shape: &[usize],
    right: &[T],
) -> (result: Result<(Vec<usize>, Vec<T>), MatMulError>)
    requires
        forall|one: &[T], other: &[T], rows: usize, inner: usize, columns: usize|
            call_requires(*product, (one, other, rows, inner, columns)),
        tensor::elements(left_shape@) == left@.len(),
        tensor::elements(right_shape@) == right@.len(),
    ensures
        stack_product(
            *product,
            left_shape@,
            left@,
            right_shape@,
            right@,
            product_view(result),
        ),
{
    let layout: MatMulLayout = match matmul_layout(left_shape, right_shape) {
        Ok(layout) => layout,
        Err(error) => {
            return Err(error);
        },
    };
    let ghost content = layout@;
    let batches: usize = match shape_elements(layout.batch_shape.as_slice()) {
        Ok(batches) => batches,
        Err(_) => {
            return Err(MatMulError::BatchCount);
        },
    };
    if batches == 0 {
        return Err(MatMulError::BatchCount);
    }
    if left.len() == 0 {
        return Err(MatMulError::LeftBounds);
    }
    if right.len() == 0 {
        return Err(MatMulError::RightBounds);
    }
    let ghost rank = content.left_shape.len() as int;
    proof {
        let left_stack = content.left_shape.take(rank - 2);
        let right_stack = content.right_shape.take(rank - 2);
        assert forall|axis: int| 0 <= axis < content.batch_shape.len() implies #[trigger] meets(
            content.left_shape,
            content.right_shape,
            content.batch_shape,
            axis,
        ) by {
            assert(left_stack[axis] == right_stack[axis] || left_stack[axis] == 1
                || right_stack[axis] == 1);
        }
        assert forall|axis: int| 0 <= axis < content.batch_shape.len() implies #[trigger] meets(
            content.right_shape,
            content.left_shape,
            content.batch_shape,
            axis,
        ) by {
            assert(left_stack[axis] == right_stack[axis] || left_stack[axis] == 1
                || right_stack[axis] == 1);
        }
        lemma_stack(
            left_shape@,
            content.left_shape,
            content.right_shape,
            content.batch_shape,
            left@.len() as int,
        );
        lemma_stack(
            right_shape@,
            content.right_shape,
            content.left_shape,
            content.batch_shape,
            right@.len() as int,
        );
    }
    let left_full: Vec<usize> = extend_shape(&layout.batch_shape, layout.rows, layout.inner);
    let right_full: Vec<usize> = extend_shape(&layout.batch_shape, layout.inner, layout.columns);
    let left_len: usize = left.len();
    let right_len: usize = right.len();
    proof {
        assert forall|axis: int| 0 < axis < content.left_shape.len() implies #[trigger] broadcast::tail(
            content.left_shape,
            axis,
        ) <= usize::MAX by {
            lemma_tails_shrink(content.left_shape, left_full@, axis);
        }
        assert forall|axis: int| 0 < axis < content.right_shape.len() implies #[trigger] broadcast::tail(
            content.right_shape,
            axis,
        ) <= usize::MAX by {
            lemma_tails_shrink(content.right_shape, right_full@, axis);
        }
        lemma_tails_shrink(content.left_shape, left_full@, rank - 2);
        lemma_tails_shrink(content.right_shape, right_full@, rank - 2);
    }
    let left_strides: Vec<usize> = match contiguous_strides(&layout.left_shape) {
        Some(strides) => strides,
        None => {
            return Err(MatMulError::BatchCount);
        },
    };
    let right_strides: Vec<usize> = match contiguous_strides(&layout.right_shape) {
        Some(strides) => strides,
        None => {
            return Err(MatMulError::BatchCount);
        },
    };
    let left_size: usize = layout.rows * layout.inner;
    let right_size: usize = layout.inner * layout.columns;
    let ghost mut parts: Seq<Seq<T>> = Seq::empty();
    let mut output: Vec<T> = Vec::new();
    let mut batch: usize = 0;
    while batch < batches
        invariant
            forall|one: &[T], other: &[T], rows: usize, inner: usize, columns: usize|
                call_requires(*product, (one, other, rows, inner, columns)),
            layout_of(left_shape@, right_shape@) == Ok::<Layout, MatMulError>(content),
            content == layout@,
            tensor::countable(content.batch_shape),
            batches == tensor::elements(content.batch_shape),
            batches > 0,
            left@.len() > 0,
            right@.len() > 0,
            batch <= batches,
            left_size == content.rows * content.inner,
            right_size == content.inner * content.columns,
            left_full@ == full_shape(content.batch_shape, content.rows, content.inner),
            right_full@ == full_shape(content.batch_shape, content.inner, content.columns),
            broadcast::stretches(content.left_shape, left_full@),
            broadcast::stretches(content.right_shape, right_full@),
            broadcast::tail(content.left_shape, 0) == left@.len(),
            broadcast::tail(content.right_shape, 0) == right@.len(),
            broadcast::tail(content.left_shape, content.batch_shape.len() as int) == left_size,
            broadcast::tail(content.right_shape, content.batch_shape.len() as int) == right_size,
            left_strides@.len() == content.left_shape.len(),
            right_strides@.len() == content.right_shape.len(),
            forall|axis: int|
                0 <= axis < content.left_shape.len() ==> #[trigger] left_strides@[axis]
                    == broadcast::tail(content.left_shape, axis + 1),
            forall|axis: int|
                0 <= axis < content.right_shape.len() ==> #[trigger] right_strides@[axis]
                    == broadcast::tail(content.right_shape, axis + 1),
            parts.len() == batch,
            batch_products(*product, left@, right@, content, parts),
            output@ == flattened(parts),
        decreases batches - batch,
    {
        let one: &[T] = matrix_of(
            left,
            batch,
            &layout.batch_shape,
            &left_full,
            &layout.left_shape,
            &left_strides,
            left_size,
        );
        let other: &[T] = matrix_of(
            right,
            batch,
            &layout.batch_shape,
            &right_full,
            &layout.right_shape,
            &right_strides,
            right_size,
        );
        let found: Option<Vec<T>> = product(
            one,
            other,
            layout.rows,
            layout.inner,
            layout.columns,
        );
        let ghost seen = values_view(found);
        assert(multiplies(
            *product,
            left_matrix(left@, content, batch as int),
            right_matrix(right@, content, batch as int),
            content,
            seen,
        )) by {
            assert(call_ensures(
                *product,
                (one, other, content.rows, content.inner, content.columns),
                found,
            ));
        }
        match found {
            Some(mut values) => {
                let ghost before = parts;
                proof {
                    parts = parts.push(values@);
                    assert(parts.drop_last() =~= before);
                }
                output.append(&mut values);
            },
            None => {
                return Err(MatMulError::Product);
            },
        }
        batch = batch + 1;
    }
    Ok((layout.output_shape, output))
}

/// Products of one size stand one after the other, batch by batch.
pub proof fn law_products_stand_by_batch<T>(
    parts: Seq<Seq<T>>,
    size: int,
    batch: int,
    place: int,
)
    requires
        forall|at: int| 0 <= at < parts.len() ==> (#[trigger] parts[at]).len() == size,
        0 <= batch < parts.len(),
        0 <= place < size,
    ensures
        flattened(parts).len() == parts.len() * size,
        0 <= batch * size + place < parts.len() * size,
        flattened(parts)[batch * size + place] == parts[batch][place],
    decreases parts.len(),
{
    lemma_flattened_length(parts, size);
    let shorter = parts.drop_last();
    assert forall|at: int| 0 <= at < shorter.len() implies (#[trigger] shorter[at]).len()
        == size by {
        assert(shorter[at] == parts[at]);
    }
    lemma_flattened_length(shorter, size);
    assert(0 <= batch * size && batch * size + size <= parts.len() * size) by (nonlinear_arith)
        requires
            0 <= batch,
            batch + 1 <= parts.len(),
            0 <= size,
    ;
    if batch < shorter.len() {
        law_products_stand_by_batch(shorter, size, batch, place);
        assert(shorter[batch] == parts[batch]);
    } else {
        assert(parts.last() == parts[batch]);
    }
}

proof fn lemma_flattened_length<T>(parts: Seq<Seq<T>>, size: int)
    requires
        forall|at: int| 0 <= at < parts.len() ==> (#[trigger] parts[at]).len() == size,
    ensures
        flattened(parts).len() == parts.len() * size,
    decreases parts.len(),
{
    if parts.len() > 0 {
        let shorter = parts.drop_last();
        assert forall|at: int| 0 <= at < shorter.len() implies (#[trigger] shorter[at]).len()
            == size by {
            assert(shorter[at] == parts[at]);
        }
        lemma_flattened_length(shorter, size);
        assert(parts.last() == parts[parts.len() - 1]);
        assert(parts.len() * size == shorter.len() * size + size) by (nonlinear_arith)
            requires
                parts.len() == shorter.len() + 1,
        ;
    } else {
        assert(parts.len() * size == 0) by (nonlinear_arith)
            requires
                parts.len() == 0,
        ;
    }
}

/// Two stacks meet in the shape that both stretch to, and their products are as high as the left
/// matrices and as wide as the right ones.
pub proof fn law_stacks_meet_in_their_common_shape(left: Seq<usize>, right: Seq<usize>)
    requires
        layout_of(left, right) is Ok,
        left.len() == right.len(),
        forall|axis: int| 0 <= axis < left.len() ==> #[trigger] left[axis] > 0,
        forall|axis: int| 0 <= axis < right.len() ==> #[trigger] right[axis] > 0,
    ensures
        ({
            let layout = layout_of(left, right)->Ok_0;
            let rank = left.len() as int;
            &&& layout.batch_shape == broadcast::stretched(
                left.take(rank - 2),
                right.take(rank - 2),
            )
            &&& layout.output_shape.len() == rank
            &&& layout.output_shape[rank - 2] == left[rank - 2]
            &&& layout.output_shape[rank - 1] == right[rank - 1]
            &&& left[rank - 1] == right[rank - 2]
        }),
{
    let layout = layout_of(left, right)->Ok_0;
    let rank = left.len() as int;
    assert(broadcast::padded(left, rank) =~= left);
    assert(broadcast::padded(right, rank) =~= right);
    let one = left.take(rank - 2);
    let other = right.take(rank - 2);
    assert forall|axis: int| 0 <= axis < rank - 2 implies layout.batch_shape[axis]
        == broadcast::stretched(one, other)[axis] by {
        assert(one[axis] == left[axis] && other[axis] == right[axis]);
        assert(left[axis] > 0 && right[axis] > 0);
    }
    assert(layout.batch_shape =~= broadcast::stretched(one, other));
}

}
