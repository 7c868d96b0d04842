//! What the shapes of operands say of an operation.

use vstd::arithmetic::div_mod::*;
use vstd::prelude::*;

use crate::convolution::Conv2dParams;
use crate::encoder::copy_part;
use crate::tensor;
use crate::tensor::shape_elements;

verus! {

/// Why operands do not fit an operation.
#[derive(Clone, Copy, Debug, PartialEq, Eq, Structural)]
pub enum OperandError {
    /// The operands have too few or too many dimensions.
    Rank,
    /// There is no last dimension.
    NoWidth,
    /// The last dimension is zero.
    ZeroWidth,
    /// The shape has too many elements to count.
    Overflow,
    /// Dimensions are neither kept nor dropped.
    KeepDimensions,
    /// The axes are not the last one alone.
    Axes,
}

/// The rows, inner size and columns of a product of a matrix with a transposed one.
pub fn matrix_sizes(left: &[usize], right: &[usize]) -> (result: Result<
    (usize, usize, usize),
    OperandError,
>)
    ensures
        result == if left@.len() == 2 && right@.len() == 2 {
            Ok::<(usize, usize, usize), OperandError>((left@[0], left@[1], right@[0]))
        } else {
            Err(OperandError::Rank)
        },
{
    if left.len() != 2 || right.len() != 2 {
        return Err(OperandError::Rank);
    }
    Ok((left[0], left[1], right[0]))
}

/// How many rows there are along the last dimension, and how wide they are.
pub fn row_sizes(shape: &[usize]) -> (result: Result<(usize, usize), OperandError>)
    ensures
        match result {
            Ok((rows, width)) => shape@.len() > 0 && shape@.last() > 0 && tensor::countable(shape@)
                && rows == tensor::elements(shape@.drop_last()) && width == shape@.last(),
            Err(error) => if shape@.len() == 0 {
                error == OperandError::NoWidth
            } else if shape@.last() == 0 {
                error == OperandError::ZeroWidth
            } else {
                !tensor::countable(shape@) && error == OperandError::Overflow
            },
        },
{
    let rank: usize = shape.len();
    if rank == 0 {
        return Err(OperandError::NoWidth);
    }
    let width: usize = shape[rank - 1];
    if width == 0 {
        return Err(OperandError::ZeroWidth);
    }
    match shape_elements(shape) {
        Ok(count) => {
            proof {
                let rows = tensor::elements(shape@.drop_last());
                tensor::lemma_elements_nonnegative(shape@.drop_last());
                lemma_div_by_multiple(rows, width as int);
            }
            Ok((count / width, width))
        },
        Err(_) => Err(OperandError::Overflow),
    }
}

/// The rows of a shape fill it.
pub proof fn law_rows_fill_the_shape(shape: Seq<usize>)
    requires
        shape.len() > 0,
    ensures
        tensor::elements(shape.drop_last()) * shape.last() == tensor::elements(shape),
{
}

/// The rows and the width for normalising each row by itself; only matrices have them.
pub fn matrix_row_sizes(shape: &[usize]) -> (result: Result<(usize, usize), OperandError>)
    ensures
        match result {
            Ok((rows, width)) => shape@.len() == 2 && rows == shape@[0] && width == shape@[1]
                && width > 0 && rows * width <= usize::MAX,
            Err(error) => if shape@.len() != 2 {
                error == OperandError::Rank
            } else if shape@[1] == 0 {
                error == OperandError::ZeroWidth
            } else {
                shape@[0] * shape@[1] > usize::MAX && error == OperandError::Overflow
            },
        },
{
    if shape.len() != 2 {
        return Err(OperandError::Rank);
    }
    let rows: usize = shape[0];
    let width: usize = shape[1];
    if width == 0 {
        return Err(OperandError::ZeroWidth);
    }
    match rows.checked_mul(width) {
        Some(_) => Ok((rows, width)),
        None => Err(OperandError::Overflow),
    }
}

/// The shape after each row is summed up.
pub open spec fn summed_shape(shape: Seq<usize>, keep: bool) -> Seq<usize> {
    if keep {
        shape.drop_last().push(1)
    } else {
        shape.drop_last()
    }
}

/// Whether a sum keeps the dimension that it sums up.
pub fn keeps_dimensions(attribute: i64) -> (result: Result<bool, OperandError>)
    ensures
        result == if attribute == 0 {
            Ok::<bool, OperandError>(false)
        } else if attribute == 1 {
            Ok(true)
        } else {
            Err(OperandError::KeepDimensions)
        },
{
    if attribute == 0 {
        Ok(false)
    } else if attribute == 1 {
        Ok(true)
    } else {
        Err(OperandError::KeepDimensions)
    }
}

/// The rows and the width that a sum over the last dimension has, and the shape of its result.
pub fn sum_sizes(shape: &[usize], axes: &[i64], keep: bool) -> (result: Result<
    (usize, usize, Vec<usize>),
    OperandError,
>)
    ensures
        match result {
            Ok((rows, width, summed)) => axes@ == seq![-1i64] && shape@.len() > 0 && shape@.last()
                > 0 && tensor::countable(shape@) && rows == tensor::elements(shape@.drop_last())
                && width == shape@.last() && summed@ == summed_shape(shape@, keep),
            Err(error) => if axes@ != seq![-1i64] {
                error == OperandError::Axes
            } else if shape@.len() == 0 {
                error == OperandError::NoWidth
            } else if shape@.last() == 0 {
                error == OperandError::ZeroWidth
            } else {
                !tensor::countable(shape@) && error == OperandError::Overflow
            },
        },
{
    if axes.len() != 1 || axes[0] != -1 {
        return Err(OperandError::Axes);
    }
    assert(axes@ =~= seq![-1i64]);
    match row_sizes(shape) {
        Ok((rows, width)) => {
            let mut summed: Vec<usize> = copy_part(shape, 0, shape.len() - 1);
            assert(summed@ =~= shape@.drop_last());
            if keep {
                summed.push(1);
            }
            Ok((rows, width, summed))
        },
        Err(error) => Err(error),
    }
}

/// The sizes of a convolution of planes with kernels. A depthwise one keeps the channels and moves
/// by single steps.
pub fn conv_params(
    input: &[usize],
    weights: &[usize],
    depthwise: bool,
    stride_height: usize,
    stride_width: usize,
) -> (result: Result<Conv2dParams, OperandError>)
    ensures
        result == if input@.len() == 4 && weights@.len() == 4 {
            Ok::<Conv2dParams, OperandError>(
                Conv2dParams {
                    batch: input@[0],
                    input_channels: input@[1],
                    input_height: input@[2],
                    input_width: input@[3],
                    output_channels: if depthwise {
                        input@[1]
                    } else {
                        weights@[0]
                    },
                    kernel_height: weights@[2],
                    kernel_width: weights@[3],
                    stride_height: if depthwise {
                        1
                    } else {
                        stride_height
                    },
                    stride_width: if depthwise {
                        1
                    } else {
                        stride_width
                    },
                },
            )
        } else {
            Err(OperandError::Rank)
        },
{
    if input.len() != 4 || weights.len() != 4 {
        return Err(OperandError::Rank);
    }
    Ok(
        Conv2dParams {
            batch: input[0],
            input_channels: input[1],
            input_height: input[2],
            input_width: input[3],
            output_channels: if depthwise {
                input[1]
            } else {
                weights[0]
            },
            kernel_height: weights[2],
            kernel_width: weights[3],
            stride_height: if depthwise {
                1
            } else {
                stride_height
            },
            stride_width: if depthwise {
                1
            } else {
                stride_width
            },
        },
    )
}

}
