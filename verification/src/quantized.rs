//! Linear layers on quantised numbers, summed up exactly.

use vstd::prelude::*;

use crate::kernels;
use crate::kernels::{is_product, offset};

verus! {

/// Why a quantised layer cannot be computed.
#[derive(Clone, Copy, Debug, PartialEq, Eq, Structural)]
pub enum QuantizedError {
    /// The sizes do not match.
    Dimensions,
    /// A sum does not fit.
    Overflow,
}

/// The values of small integers.
pub open spec fn byte_values(values: Seq<i8>) -> Seq<int> {
    Seq::new(values.len(), |index: int| values[index] as int)
}

/// The values of integers.
pub open spec fn word_values(values: Seq<i16>) -> Seq<int> {
    Seq::new(values.len(), |index: int| values[index] as int)
}

/// The sum of the first `count` products of a row of the input with a row of the weights.
pub open spec fn dot(
    input: Seq<int>,
    weights: Seq<int>,
    inner: int,
    row: int,
    column: int,
    count: int,
) -> int
    decreases count,
{
    if count <= 0 {
        0
    } else {
        dot(input, weights, inner, row, column, count - 1) + input[kernels::cell(
            row,
            count - 1,
            inner,
        )] * weights[kernels::cell(column, count - 1, inner)]
    }
}

/// A number fits into 32 bits.
pub open spec fn fits(value: int) -> bool {
    i32::MIN <= value <= i32::MAX
}

/// The sums on the way to one value of a layer all fit.
pub open spec fn cell_fits(
    input: Seq<int>,
    weights: Seq<int>,
    inner: int,
    row: int,
    column: int,
) -> bool {
    forall|count: int|
        0 <= count <= inner ==> fits(#[trigger] dot(input, weights, inner, row, column, count))
}

/// The sums on the way to all values of a layer fit.
pub open spec fn layer_fits(
    input: Seq<int>,
    weights: Seq<int>,
    rows: int,
    columns: int,
    inner: int,
) -> bool {
    forall|row: int, column: int|
        0 <= row < rows && 0 <= column < columns ==> #[trigger] cell_fits(
            input,
            weights,
            inner,
            row,
            column,
        )
}

/// `output` is what a layer gives.
pub open spec fn is_layer(
    input: Seq<int>,
    weights: Seq<int>,
    rows: int,
    columns: int,
    inner: int,
    output: Seq<i32>,
) -> bool {
    &&& output.len() == rows * columns
    &&& forall|row: int, column: int|
        0 <= row < rows && 0 <= column < columns ==> (#[trigger] output[kernels::cell(
            row,
            column,
            columns,
        )]) == dot(input, weights, inner, row, column, inner)
}

/// What a layer gives, or why it gives nothing.
pub open spec fn layer_result(
    input: Seq<int>,
    weights: Seq<int>,
    rows: int,
    columns: int,
    inner: int,
    result: Result<Seq<i32>, QuantizedError>,
) -> bool {
    if input.len() != rows * inner || weights.len() != columns * inner {
        result == Err::<Seq<i32>, QuantizedError>(QuantizedError::Dimensions)
    } else if !layer_fits(input, weights, rows, columns, inner) {
        result == Err::<Seq<i32>, QuantizedError>(QuantizedError::Overflow)
    } else {
        result matches Ok(output) && is_layer(input, weights, rows, columns, inner, output)
    }
}

/// The content of a result.
pub open spec fn result_view(result: Result<Vec<i32>, QuantizedError>) -> Result<
    Seq<i32>,
    QuantizedError,
> {
    match result {
        Ok(values) => Ok(values@),
        Err(error) => Err(error),
    }
}

/// One value of a layer, unless a sum on the way does not fit.
fn cell_value(
    input: &[i16],
    weights: &[i16],
    input_start: usize,
    weights_start: usize,
    inner: usize,
    row: Ghost<int>,
    column: Ghost<int>,
) -> (result: Option<i32>)
    requires
        input_start == row@ * inner,
        weights_start == column@ * inner,
        input_start + inner <= input@.len(),
        weights_start + inner <= weights@.len(),
    ensures
        match result {
            Some(value) => cell_fits(
                word_values(input@),
                word_values(weights@),
                inner as int,
                row@,
                column@,
            ) && value == dot(
                word_values(input@),
                word_values(weights@),
                inner as int,
                row@,
                column@,
                inner as int,
            ),
            None => !cell_fits(
                word_values(input@),
                word_values(weights@),
                inner as int,
                row@,
                column@,
            ),
        },
{
    let ghost left = word_values(input@);
    let ghost right = word_values(weights@);
    let input_len: usize = input.len();
    let weights_len: usize = weights.len();
    let mut sum: i32 = 0;
    for index in 0..inner
        invariant
            left == word_values(input@),
            right == word_values(weights@),
            input_len == input@.len(),
            weights_len == weights@.len(),
            input_start == row@ * inner,
            weights_start == column@ * inner,
            input_start + inner <= input_len,
            weights_start + inner <= weights_len,
            sum == dot(left, right, inner as int, row@, column@, index as int),
            forall|count: int|
                0 <= count <= index ==> fits(
                    #[trigger] dot(left, right, inner as int, row@, column@, count),
                ),
    {
        let one: i32 = input[input_start + index] as i32;
        let other: i32 = weights[weights_start + index] as i32;
        assert(-0x4000_0000 <= one * other <= 0x4000_0000) by (nonlinear_arith)
            requires
                -0x8000 <= one <= 0x7fff,
                -0x8000 <= other <= 0x7fff,
        ;
        let product: i32 = one * other;
        match sum.checked_add(product) {
            Some(next) => {
                sum = next;
            },
            None => {
                assert(!fits(dot(left, right, inner as int, row@, column@, index + 1)));
                return None;
            },
        }
    }
    Some(sum)
}

/// A linear layer on quantised numbers.
pub fn quantized_linear(
    input: &[i16],
    weights: &[i16],
    rows: usize,
    columns: usize,
    inner: usize,
) -> (result: Result<Vec<i32>, QuantizedError>)
    ensures
        layer_result(
            word_values(input@),
            word_values(weights@),
            rows as int,
            columns as int,
            inner as int,
            result_view(result),
        ),
{
    if !is_product(input.len(), rows, inner) || !is_product(weights.len(), columns, inner) {
        return Err(QuantizedError::Dimensions);
    }
    let ghost left = word_values(input@);
    let ghost right = word_values(weights@);
    let mut output: Vec<i32> = Vec::new();
    assert(0 * columns == 0) by (nonlinear_arith);
    for row in 0..rows
        invariant
            left == word_values(input@),
            right == word_values(weights@),
            input@.len() == rows * inner,
            weights@.len() == columns * inner,
            is_layer(left, right, row as int, columns as int, inner as int, output@),
            layer_fits(left, right, row as int, columns as int, inner as int),
    {
        let ghost above = output@;
        for column in 0..columns
            invariant
                left == word_values(input@),
                right == word_values(weights@),
                input@.len() == rows * inner,
                weights@.len() == columns * inner,
                row < rows,
                is_layer(left, right, row as int, columns as int, inner as int, above),
                output@.len() == above.len() + column,
                forall|place: int| 0 <= place < above.len() ==> output@[place] == above[place],
                forall|other: int|
                    0 <= other < column ==> #[trigger] cell_fits(
                        left,
                        right,
                        inner as int,
                        row as int,
                        other,
                    ),
                forall|other: int|
                    0 <= other < column ==> (#[trigger] output@[above.len() + other]) == dot(
                        left,
                        right,
                        inner as int,
                        row as int,
                        other,
                        inner as int,
                    ),
        {
            let input_start: usize = offset(row, inner, rows, input.len());
            let weights_start: usize = offset(column, inner, columns, weights.len());
            match cell_value(
                input,
                weights,
                input_start,
                weights_start,
                inner,
                Ghost(row as int),
                Ghost(column as int),
            ) {
                Some(value) => {
                    output.push(value);
                },
                None => {
                    assert(!cell_fits(left, right, inner as int, row as int, column as int));
                    return Err(QuantizedError::Overflow);
                },
            }
        }
        proof {
            assert((row + 1) * columns == row * columns + columns) by (nonlinear_arith);
            assert forall|other: int, column: int|
                0 <= other < row + 1 && 0 <= column < columns implies (
            #[trigger] output@[kernels::cell(other, column, columns as int)]) == dot(
                left,
                right,
                inner as int,
                other,
                column,
                inner as int,
            ) by {
                if other < row {
                    kernels::lemma_cell_inside(other, row as int, column, columns as int);
                    let cell = kernels::cell(other, column, columns as int);
                    assert(output@[cell] == above[cell]);
                } else {
                    assert(kernels::cell(other, column, columns as int) == above.len() + column);
                }
            }
        }
    }
    Ok(output)
}

/// Small integers as larger ones.
fn widen(values: &[i8]) -> (result: Vec<i16>)
    ensures
        word_values(result@) == byte_values(values@),
{
    let mut result: Vec<i16> = Vec::new();
    for index in 0..values.len()
        invariant
            result@.len() == index,
            forall|place: int| 0 <= place < index ==> #[trigger] result@[place] == values@[place],
    {
        result.push(values[index] as i16);
    }
    assert(word_values(result@) =~= byte_values(values@));
    result
}

/// A linear layer on small quantised numbers.
pub fn punctuation_quantized_linear(
    input: &[i8],
    weights: &[i8],
    rows: usize,
    columns: usize,
    inner: usize,
) -> (result: Result<Vec<i32>, QuantizedError>)
    ensures
        layer_result(
            byte_values(input@),
            byte_values(weights@),
            rows as int,
            columns as int,
            inner as int,
            result_view(result),
        ),
{
    let wide_input: Vec<i16> = widen(input);
    let wide_weights: Vec<i16> = widen(weights);
    quantized_linear(wide_input.as_slice(), wide_weights.as_slice(), rows, columns, inner)
}

/// Sums of small numbers always fit, as long as rows are not longer than 131 071.
pub proof fn law_small_numbers_fit(
    input: Seq<i8>,
    weights: Seq<i8>,
    rows: int,
    columns: int,
    inner: int,
)
    requires
        input.len() == rows * inner,
        weights.len() == columns * inner,
        0 <= inner <= 131_071,
    ensures
        layer_fits(byte_values(input), byte_values(weights), rows, columns, inner),
{
    assert forall|row: int, column: int|
        0 <= row < rows && 0 <= column < columns implies #[trigger] cell_fits(
        byte_values(input),
        byte_values(weights),
        inner,
        row,
        column,
    ) by {
        assert forall|count: int| 0 <= count <= inner implies fits(
            #[trigger] dot(byte_values(input), byte_values(weights), inner, row, column, count),
        ) by {
            lemma_small_sum(input, weights, rows, columns, inner, row, column, count);
        }
    }
}

proof fn lemma_small_sum(
    input: Seq<i8>,
    weights: Seq<i8>,
    rows: int,
    columns: int,
    inner: int,
    row: int,
    column: int,
    count: int,
)
    requires
        input.len() == rows * inner,
        weights.len() == columns * inner,
        0 <= row < rows,
        0 <= column < columns,
        0 <= count <= inner,
    ensures
        -16_384 * count <= dot(
            byte_values(input),
            byte_values(weights),
            inner,
            row,
            column,
            count,
        ) <= 16_384 * count,
    decreases count,
{
    if count > 0 {
        lemma_small_sum(input, weights, rows, columns, inner, row, column, count - 1);
        kernels::lemma_cell_inside(row, rows, count - 1, inner);
        kernels::lemma_cell_inside(column, columns, count - 1, inner);
        let one = input[kernels::cell(row, count - 1, inner)] as int;
        let other = weights[kernels::cell(column, count - 1, inner)] as int;
        assert(-16_384 <= one * other <= 16_384) by (nonlinear_arith)
            requires
                -128 <= one <= 127,
                -128 <= other <= 127,
        ;
    }
}

/// A value of a layer is the sum over all places of the products of an input row with a weight row.
pub proof fn law_layers_are_matrix_products(
    input: Seq<int>,
    weights: Seq<int>,
    inner: int,
    row: int,
    column: int,
    count: int,
)
    requires
        0 <= count <= inner,
    ensures
        dot(input, weights, inner, row, column, count) == kernels::total(
            |place: int|
                input[row * inner + place] * weights[column * inner + place],
            count,
        ),
    decreases count,
{
    if count > 0 {
        law_layers_are_matrix_products(input, weights, inner, row, column, count - 1);
    }
}

}
