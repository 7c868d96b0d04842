//! Matrix kernels over numbers of any kind.
//!
//! The arithmetic is handed in as functions. What is stated here is which numbers meet, and in
//! which order they are added up: floating-point sums depend on it.

use vstd::arithmetic::div_mod::*;
use vstd::prelude::*;

verus! {

/// Why a kernel cannot run.
#[derive(Clone, Copy, Debug, PartialEq, Eq, Structural)]
pub struct DimensionError;

/// `result` comes out of `start` by taking in the pairs one after the other.
pub open spec fn folds<T, A, F: Fn(A, T, T) -> A>(
    take: F,
    pairs: Seq<(T, T)>,
    start: A,
    result: A,
) -> bool
    decreases pairs.len(),
{
    if pairs.len() == 0 {
        result == start
    } else {
        exists|before: A|
            {
                &&& folds(take, pairs.drop_last(), start, before)
                &&& #[trigger] call_ensures(take, (before, pairs.last().0, pairs.last().1), result)
            }
    }
}

/// A place in a matrix of `columns` columns.
pub open spec fn cell(row: int, column: int, columns: int) -> int {
    row * columns + column
}

/// Cells of one matrix with cells of another: from an offset on, each a stride apart.
pub open spec fn strided<T>(
    left: Seq<T>,
    left_start: int,
    left_stride: int,
    right: Seq<T>,
    right_start: int,
    right_stride: int,
    count: int,
) -> Seq<(T, T)> {
    Seq::new(
        count as nat,
        |index: int|
            (left[left_start + index * left_stride], right[right_start + index * right_stride]),
    )
}

/// A cell lies within its matrix.
pub proof fn lemma_cell_inside(row: int, rows: int, column: int, columns: int)
    requires
        0 <= row < rows,
        0 <= column < columns,
    ensures
        0 <= row * columns,
        row * columns + columns <= rows * columns,
        0 <= cell(row, column, columns) < rows * columns,
{
    assert(0 <= row * columns) by (nonlinear_arith)
        requires
            0 <= row,
            0 <= columns,
    ;
    assert(row * columns + columns <= rows * columns) by (nonlinear_arith)
        requires
            row + 1 <= rows,
            0 <= columns,
    ;
}

/// Takes in one more pair.
pub proof fn lemma_folds_push<T, A, F: Fn(A, T, T) -> A>(
    take: F,
    pairs: Seq<(T, T)>,
    start: A,
    before: A,
    pair: (T, T),
    result: A,
)
    requires
        folds(take, pairs, start, before),
        call_ensures(take, (before, pair.0, pair.1), result),
    ensures
        folds(take, pairs.push(pair), start, result),
{
    let longer = pairs.push(pair);
    assert(longer.drop_last() =~= pairs);
    assert(longer.last() == pair);
    assert(call_ensures(take, (before, longer.last().0, longer.last().1), result));
}

/// Whether a length is the product of two numbers.
pub fn is_product(length: usize, left: usize, right: usize) -> (result: bool)
    ensures
        result == (length == left * right),
{
    match left.checked_mul(right) {
        Some(product) => length == product,
        None => false,
    }
}

/// The last cell of a series lies within `len` cells.
pub open spec fn series_inside(start: int, stride: int, count: int, len: int) -> bool {
    count > 0 ==> start + (count - 1) * stride < len
}

pub proof fn lemma_series_inside(start: int, stride: int, count: int, len: int, index: int)
    requires
        series_inside(start, stride, count, len),
        0 <= index < count,
        0 <= stride,
        0 <= start,
    ensures
        0 <= index * stride,
        0 <= start + index * stride < len,
{
    assert(0 <= index * stride <= (count - 1) * stride) by (nonlinear_arith)
        requires
            0 <= index <= count - 1,
            0 <= stride,
    ;
}

/// Takes in cells of two matrices, from an offset on, each a stride apart.
pub fn fold_strided<T: Copy, A, F: Fn(A, T, T) -> A>(
    take: &F,
    start: A,
    left: &[T],
    left_start: usize,
    left_stride: usize,
    right: &[T],
    right_start: usize,
    right_stride: usize,
    count: usize,
) -> (result: A)
    requires
        forall|sum: A, one: T, other: T| call_requires(*take, (sum, one, other)),
        series_inside(left_start as int, left_stride as int, count as int, left@.len() as int),
        series_inside(right_start as int, right_stride as int, count as int, right@.len() as int),
    ensures
        folds(
            *take,
            strided(
                left@,
                left_start as int,
                left_stride as int,
                right@,
                right_start as int,
                right_stride as int,
                count as int,
            ),
            start,
            result,
        ),
{
    let left_len: usize = left.len();
    let right_len: usize = right.len();
    let ghost pairs = strided(
        left@,
        left_start as int,
        left_stride as int,
        right@,
        right_start as int,
        right_stride as int,
        count as int,
    );
    let mut result: A = start;
    assert(pairs.take(0) =~= Seq::empty());
    for index in 0..count
        invariant
            forall|sum: A, one: T, other: T| call_requires(*take, (sum, one, other)),
            left_len == left@.len(),
            right_len == right@.len(),
            series_inside(left_start as int, left_stride as int, count as int, left_len as int),
            series_inside(right_start as int, right_stride as int, count as int, right_len as int),
            pairs == strided(
                left@,
                left_start as int,
                left_stride as int,
                right@,
                right_start as int,
                right_stride as int,
                count as int,
            ),
            folds(*take, pairs.take(index as int), start, result),
    {
        proof {
            lemma_series_inside(
                left_start as int,
                left_stride as int,
                count as int,
                left_len as int,
                index as int,
            );
            lemma_series_inside(
                right_start as int,
                right_stride as int,
                count as int,
                right_len as int,
                index as int,
            );
        }
        let ghost before = result;
        result = take(
            result,
            left[left_start + index * left_stride],
            right[right_start + index * right_stride],
        );
        proof {
            lemma_folds_push(
                *take,
                pairs.take(index as int),
                start,
                before,
                pairs[index as int],
                result,
            );
            assert(pairs.take(index as int).push(pairs[index as int]) =~= pairs.take(index + 1));
        }
    }
    assert(pairs.take(count as int) =~= pairs);
    result
}

/// A matrix whose cells are made one after the other, row by row.
pub fn build<T, E: Fn(usize, usize) -> T>(rows: usize, columns: usize, element: &E) -> (result: Vec<
    T,
>)
    requires
        forall|row: usize, column: usize|
            row < rows && column < columns ==> call_requires(*element, (row, column)),
    ensures
        result@.len() == rows * columns,
        forall|row: usize, column: usize|
            row < rows && column < columns ==> call_ensures(
                *element,
                (row, column),
                #[trigger] result@[cell(row as int, column as int, columns as int)],
            ),
{
    let mut result: Vec<T> = Vec::new();
    assert(0 * columns == 0) by (nonlinear_arith);
    for row in 0..rows
        invariant
            forall|row: usize, column: usize|
                row < rows && column < columns ==> call_requires(*element, (row, column)),
            result@.len() == row * columns,
            forall|above: usize, column: usize|
                above < row && column < columns ==> call_ensures(
                    *element,
                    (above, column),
                    #[trigger] result@[cell(above as int, column as int, columns as int)],
                ),
    {
        for column in 0..columns
            invariant
                row < rows,
                forall|row: usize, column: usize|
                    row < rows && column < columns ==> call_requires(*element, (row, column)),
                result@.len() == row * columns + column,
                forall|above: usize, other: usize|
                    (above < row && other < columns) || (above == row && other < column)
                        ==> call_ensures(
                        *element,
                        (above, other),
                        #[trigger] result@[cell(above as int, other as int, columns as int)],
                    ),
        {
            let ghost before = result@;
            let value: T = element(row, column);
            result.push(value);
            assert forall|above: usize, other: usize|
                (above < row && other < columns) || (above == row && other < column
                    + 1) implies call_ensures(
                *element,
                (above, other),
                #[trigger] result@[cell(above as int, other as int, columns as int)],
            ) by {
                if above < row {
                    lemma_cell_inside(above as int, row as int, other as int, columns as int);
                    assert(result@[cell(above as int, other as int, columns as int)] == before[cell(
                        above as int,
                        other as int,
                        columns as int,
                    )]);
                } else if other < column {
                    lemma_cell_inside(above as int, row + 1, other as int, columns as int);
                    assert(result@[cell(above as int, other as int, columns as int)] == before[cell(
                        above as int,
                        other as int,
                        columns as int,
                    )]);
                } else {
                    assert(result@[cell(row as int, column as int, columns as int)] == value);
                }
            }
        }
        assert((row + 1) * columns == row * columns + columns) by (nonlinear_arith);
    }
    result
}

/// One cell of a product of a matrix with a transposed one, on top of a bias: summed up in the
/// wide kind of number, and rounded once.
pub open spec fn gemm_cell<T, A, W: Fn(T) -> A, F: Fn(A, T, T) -> A, R: Fn(A) -> T>(
    widen: W,
    take: F,
    round: R,
    left: Seq<T>,
    right: Seq<T>,
    bias: Seq<T>,
    inner: int,
    row: int,
    column: int,
    value: T,
) -> bool {
    exists|start: A, sum: A|
        {
            &&& #[trigger] call_ensures(widen, (bias[column],), start)
            &&& folds(
                take,
                strided(left, row * inner, 1, right, column * inner, 1, inner),
                start,
                sum,
            )
            &&& #[trigger] call_ensures(round, (sum,), value)
        }
}

/// The sizes of a product of a matrix with a transposed one.
pub open spec fn gemm_sizes(
    left: int,
    right: int,
    bias: int,
    rows: int,
    inner: int,
    columns: int,
) -> bool {
    left == rows * inner && right == columns * inner && bias == columns
}

/// The product of a matrix with a transposed one, on top of a bias.
pub fn gemm_f16<T: Copy, A, W: Fn(T) -> A, F: Fn(A, T, T) -> A, R: Fn(A) -> T>(
    widen: &W,
    take: &F,
    round: &R,
    left: &[T],
    right: &[T],
    bias: &[T],
    rows: usize,
    inner: usize,
    columns: usize,
) -> (result: Result<Vec<T>, DimensionError>)
    requires
        forall|value: T| call_requires(*widen, (value,)),
        forall|sum: A, one: T, other: T| call_requires(*take, (sum, one, other)),
        forall|sum: A| call_requires(*round, (sum,)),
    ensures
        result is Ok <==> gemm_sizes(
            left@.len() as int,
            right@.len() as int,
            bias@.len() as int,
            rows as int,
            inner as int,
            columns as int,
        ),
        result matches Ok(output) ==> output@.len() == rows * columns && forall|
            row: usize,
            column: usize,
        |
            row < rows && column < columns ==> gemm_cell(
                *widen,
                *take,
                *round,
                left@,
                right@,
                bias@,
                inner as int,
                row as int,
                column as int,
                #[trigger] output@[cell(row as int, column as int, columns as int)],
            ),
{
    if !is_product(left.len(), rows, inner) || !is_product(right.len(), columns, inner)
        || bias.len() != columns {
        return Err(DimensionError);
    }
    let element = |row: usize, column: usize| -> (value: T)
        requires
            row < rows,
            column < columns,
        ensures
            gemm_cell(
                *widen,
                *take,
                *round,
                left@,
                right@,
                bias@,
                inner as int,
                row as int,
                column as int,
                value,
            ),
        {
            let left_start: usize = offset(row, inner, rows, left.len());
            let right_start: usize = offset(column, inner, columns, right.len());
            let start: A = widen(bias[column]);
            let sum: A = fold_strided(
                take,
                start,
                left,
                left_start,
                1,
                right,
                right_start,
                1,
                inner,
            );
            round(sum)
        };
    Ok(build(rows, columns, &element))
}

/// Where a row of a matrix starts.
pub fn offset(row: usize, width: usize, rows: usize, len: usize) -> (result: usize)
    requires
        row < rows,
        rows * width == len,
    ensures
        result == row * width,
        result + width <= len,
{
    proof {
        let wide = width as int;
        assert(row * wide + wide <= rows * wide && 0 <= row * wide) by (nonlinear_arith)
            requires
                row + 1 <= rows,
                0 <= row,
                0 <= wide,
        ;
    }
    row * width
}

/// The rows of a number of matrices.
pub open spec fn batched(batches: int, rows: int, width: int, len: int) -> bool {
    batches * rows <= usize::MAX && len == batches * rows * width
}

/// The batch that a row belongs to lies within the batches.
proof fn lemma_batch_of(row: int, batches: int, rows: int)
    requires
        0 <= row < batches * rows,
        0 < rows,
    ensures
        0 <= row / rows < batches,
        0 <= row / rows * rows <= row < row / rows * rows + rows,
        row / rows * rows + rows <= batches * rows,
{
    lemma_fundamental_div_mod(row, rows);
    lemma_mod_bound(row, rows);
    lemma_div_pos_is_pos(row, rows);
    let batch = row / rows;
    assert(batch * rows == rows * batch) by (nonlinear_arith);
    assert(batch < batches) by (nonlinear_arith)
        requires
            batch * rows <= row,
            row < batches * rows,
            rows > 0,
    ;
    assert(batch * rows + rows <= batches * rows) by (nonlinear_arith)
        requires
            batch + 1 <= batches,
            rows > 0,
    ;
    assert(0 <= batch * rows) by (nonlinear_arith)
        requires
            0 <= batch,
            0 <= rows,
    ;
}

/// One cell of the products of queries with the keys of their batch.
pub open spec fn qk_cell<T, F: Fn(T, T, T) -> T>(
    take: F,
    zero: T,
    query: Seq<T>,
    key: Seq<T>,
    rows: int,
    inner: int,
    row: int,
    column: int,
    value: T,
) -> bool {
    folds(
        take,
        strided(query, row * inner, 1, key, (row / rows * rows + column) * inner, 1, inner),
        zero,
        value,
    )
}

/// The products of queries with the keys of their batch. Rows are counted over all batches.
pub fn punctuation_qk<T: Copy, F: Fn(T, T, T) -> T>(
    take: &F,
    zero: T,
    query: &[T],
    key: &[T],
    batches: usize,
    rows: usize,
    inner: usize,
) -> (result: Result<Vec<T>, DimensionError>)
    requires
        forall|sum: T, one: T, other: T| call_requires(*take, (sum, one, other)),
    ensures
        result is Ok <==> batched(
            batches as int,
            rows as int,
            inner as int,
            query@.len() as int,
        ) && batched(batches as int, rows as int, inner as int, key@.len() as int),
        result matches Ok(output) ==> output@.len() == batches * rows * rows && forall|
            row: usize,
            column: usize,
        |
            row < batches * rows && column < rows ==> qk_cell(
                *take,
                zero,
                query@,
                key@,
                rows as int,
                inner as int,
                row as int,
                column as int,
                #[trigger] output@[cell(row as int, column as int, rows as int)],
            ),
{
    let all: usize = match batches.checked_mul(rows) {
        Some(all) => all,
        None => {
            return Err(DimensionError);
        },
    };
    if !is_product(query.len(), all, inner) || !is_product(key.len(), all, inner) {
        return Err(DimensionError);
    }
    let element = |row: usize, column: usize| -> (value: T)
        requires
            row < all,
            column < rows,
        ensures
            qk_cell(
                *take,
                zero,
                query@,
                key@,
                rows as int,
                inner as int,
                row as int,
                column as int,
                value,
            ),
        {
            proof {
                lemma_batch_of(row as int, batches as int, rows as int);
            }
            let first: usize = row / rows * rows;
            let query_start: usize = offset(row, inner, all, query.len());
            let key_start: usize = offset(first + column, inner, all, key.len());
            fold_strided(take, zero, query, query_start, 1, key, key_start, 1, inner)
        };
    Ok(build(all, rows, &element))
}

/// One cell of the products of weights with the values of their batch.
pub open spec fn context_cell<T, F: Fn(T, T, T) -> T>(
    take: F,
    zero: T,
    probabilities: Seq<T>,
    values: Seq<T>,
    rows: int,
    inner: int,
    columns: int,
    row: int,
    column: int,
    value: T,
) -> bool {
    folds(
        take,
        strided(
            probabilities,
            row * inner,
            1,
            values,
            row / rows * inner * columns + column,
            columns,
            inner,
        ),
        zero,
        value,
    )
}

/// The cells of a column of one batch lie within the values.
proof fn lemma_batch_column(batch: int, batches: int, inner: int, columns: int, column: int)
    requires
        0 <= batch < batches,
        0 <= inner,
        0 <= column < columns,
    ensures
        0 <= batch * inner * columns,
        series_inside(
            batch * inner * columns + column,
            columns,
            inner,
            batches * inner * columns,
        ),
        inner > 0 ==> batch * inner * columns + column < batches * inner * columns,
        batch * inner * columns + columns <= batches * inner * columns || inner == 0,
{
    assert(0 <= batch * inner) by (nonlinear_arith)
        requires
            0 <= batch,
            0 <= inner,
    ;
    assert(0 <= batch * inner * columns) by (nonlinear_arith)
        requires
            0 <= batch * inner,
            0 <= columns,
    ;
    if inner > 0 {
        lemma_cell_inside(batch, batches, inner - 1, inner);
        lemma_cell_inside(batch, batches, 0, inner);
        lemma_cell_inside(batch * inner + inner - 1, batches * inner, column, columns);
        lemma_cell_inside(batch * inner, batches * inner, column, columns);
        assert((batch * inner + inner - 1) * columns == batch * inner * columns + (inner - 1)
            * columns) by (nonlinear_arith);
    }
}

/// The products of weights with the values of their batch. Rows are counted over all batches.
pub fn punctuation_context<T: Copy, F: Fn(T, T, T) -> T>(
    take: &F,
    zero: T,
    probabilities: &[T],
    values: &[T],
    batches: usize,
    rows: usize,
    inner: usize,
    columns: usize,
) -> (result: Result<Vec<T>, DimensionError>)
    requires
        forall|sum: T, one: T, other: T| call_requires(*take, (sum, one, other)),
    ensures
        result is Ok <==> batched(
            batches as int,
            rows as int,
            inner as int,
            probabilities@.len() as int,
        ) && batched(batches as int, inner as int, columns as int, values@.len() as int),
        result matches Ok(output) ==> output@.len() == batches * rows * columns && forall|
            row: usize,
            column: usize,
        |
            row < batches * rows && column < columns ==> context_cell(
                *take,
                zero,
                probabilities@,
                values@,
                rows as int,
                inner as int,
                columns as int,
                row as int,
                column as int,
                #[trigger] output@[cell(row as int, column as int, columns as int)],
            ),
{
    let all: usize = match batches.checked_mul(rows) {
        Some(all) => all,
        None => {
            return Err(DimensionError);
        },
    };
    let value_rows: usize = match batches.checked_mul(inner) {
        Some(value_rows) => value_rows,
        None => {
            return Err(DimensionError);
        },
    };
    if !is_product(probabilities.len(), all, inner) || !is_product(
        values.len(),
        value_rows,
        columns,
    ) {
        return Err(DimensionError);
    }
    let element = |row: usize, column: usize| -> (value: T)
        requires
            row < all,
            column < columns,
        ensures
            context_cell(
                *take,
                zero,
                probabilities@,
                values@,
                rows as int,
                inner as int,
                columns as int,
                row as int,
                column as int,
                value,
            ),
        {
            if inner == 0 {
                assert(strided(
                    probabilities@,
                    row * inner,
                    1,
                    values@,
                    row as int / rows as int * inner * columns + column,
                    columns as int,
                    inner as int,
                ) =~= Seq::empty());
                return zero;
            }
            proof {
                lemma_batch_of(row as int, batches as int, rows as int);
                lemma_batch_column(
                    row as int / rows as int,
                    batches as int,
                    inner as int,
                    columns as int,
                    column as int,
                );
                lemma_cell_inside(
                    row as int / rows as int,
                    batches as int,
                    0,
                    inner as int,
                );
            }
            let values_len: usize = values.len();
            let batch: usize = row / rows;
            let row_start: usize = offset(row, inner, all, probabilities.len());
            let value_start: usize = batch * inner * columns + column;
            fold_strided(
                take,
                zero,
                probabilities,
                row_start,
                1,
                values,
                value_start,
                columns,
                inner,
            )
        };
    Ok(build(all, columns, &element))
}

/// The sum of the first `count` terms.
pub open spec fn total(terms: spec_fn(int) -> int, count: int) -> int
    decreases count,
{
    if count <= 0 {
        0
    } else {
        total(terms, count - 1) + terms(count - 1)
    }
}

/// Equal terms have equal sums.
pub proof fn lemma_same_total(left: spec_fn(int) -> int, right: spec_fn(int) -> int, count: int)
    requires
        forall|index: int| 0 <= index < count ==> #[trigger] left(index) == right(index),
    ensures
        total(left, count) == total(right, count),
    decreases count,
{
    if count > 0 {
        lemma_same_total(left, right, count - 1);
    }
}

/// A sum can be taken in two parts.
pub proof fn lemma_split_total(terms: spec_fn(int) -> int, first: int, second: int)
    requires
        0 <= first,
        0 <= second,
    ensures
        total(terms, first + second) == total(terms, first) + total(
            |index: int| terms(first + index),
            second,
        ),
    decreases second,
{
    if second > 0 {
        lemma_split_total(terms, first, second - 1);
    }
}

/// A sum can be taken over even and odd places apart.
pub proof fn lemma_total_of_two(terms: spec_fn(int) -> int, count: int)
    requires
        0 <= count,
    ensures
        total(terms, 2 * count) == total(|index: int| terms(2 * index), count) + total(
            |index: int| terms(2 * index + 1),
            count,
        ),
    decreases count,
{
    if count > 0 {
        lemma_total_of_two(terms, count - 1);
        assert(total(terms, 2 * count) == total(terms, 2 * count - 1) + terms(2 * count - 1));
        assert(total(terms, 2 * count - 1) == total(terms, 2 * count - 2) + terms(2 * count - 2));
    }
}

/// A sum can be taken in four that run side by side.
pub proof fn lemma_total_of_four(terms: spec_fn(int) -> int, count: int)
    requires
        0 <= count,
    ensures
        total(terms, 4 * count) == total(|index: int| terms(4 * index), count)
            + total(|index: int| terms(4 * index + 1), count) + total(
            |index: int| terms(4 * index + 2),
            count,
        ) + total(|index: int| terms(4 * index + 3), count),
    decreases count,
{
    if count > 0 {
        lemma_total_of_four(terms, count - 1);
        reveal_with_fuel(total, 5);
        assert(4 * count - 4 == 4 * (count - 1));
        assert(total(terms, 4 * count) == total(terms, 4 * count - 4) + terms(
            4 * count - 4,
        ) + terms(4 * count - 3) + terms(4 * count - 2) + terms(4 * count - 1));
    }
}

/// Additions and multiplications that are exact.
pub open spec fn exact<F: Fn(i64, i64, i64) -> i64>(take: F) -> bool {
    forall|sum: i64, one: i64, other: i64, result: i64|
        #[trigger] call_ensures(take, (sum, one, other), result) ==> result == sum + one * other
}

/// Additions that are exact.
pub open spec fn exact_sum<F: Fn(i64, i64) -> i64>(join: F) -> bool {
    forall|one: i64, other: i64, result: i64|
        #[trigger] call_ensures(join, (one, other), result) ==> result == one + other
}

/// A change that keeps numbers as they are.
pub open spec fn keeps<F: Fn(i64) -> i64>(change: F) -> bool {
    forall|value: i64, result: i64| #[trigger] call_ensures(change, (value,), result) ==> result
        == value
}

/// Exact folding adds up the products of the pairs.
pub proof fn law_folds_add_up_products<F: Fn(i64, i64, i64) -> i64>(
    take: F,
    pairs: Seq<(i64, i64)>,
    start: i64,
    result: i64,
)
    requires
        exact(take),
        folds(take, pairs, start, result),
    ensures
        result == start + total(|index: int| pairs[index].0 * pairs[index].1, pairs.len() as int),
    decreases pairs.len(),
{
    if pairs.len() > 0 {
        let shorter = pairs.drop_last();
        let before = choose|before: i64|
            {
                &&& folds(take, shorter, start, before)
                &&& #[trigger] call_ensures(take, (before, pairs.last().0, pairs.last().1), result)
            };
        law_folds_add_up_products(take, shorter, start, before);
        lemma_same_total(
            |index: int| shorter[index].0 * shorter[index].1,
            |index: int| pairs[index].0 * pairs[index].1,
            shorter.len() as int,
        );
    }
}

/// Exact folding of two series adds up the products of their members.
pub proof fn lemma_strided_total<F: Fn(i64, i64, i64) -> i64>(
    take: F,
    left: Seq<i64>,
    left_start: int,
    left_stride: int,
    right: Seq<i64>,
    right_start: int,
    right_stride: int,
    count: int,
    terms: spec_fn(int) -> int,
    start: i64,
    result: i64,
)
    requires
        exact(take),
        0 <= count,
        folds(
            take,
            strided(left, left_start, left_stride, right, right_start, right_stride, count),
            start,
            result,
        ),
        forall|index: int|
            0 <= index < count ==> #[trigger] terms(index) == left[left_start + index * left_stride]
                * right[right_start + index * right_stride],
    ensures
        result == start + total(terms, count),
{
    let pairs = strided(left, left_start, left_stride, right, right_start, right_stride, count);
    law_folds_add_up_products(take, pairs, start, result);
    lemma_same_total(terms, |index: int| pairs[index].0 * pairs[index].1, count);
}

/// With exact numbers, a cell of the product with a transposed matrix is the bias of its column and
/// the products of its row with that column.
pub proof fn law_gemm_is_the_matrix_product<
    W: Fn(i64) -> i64,
    F: Fn(i64, i64, i64) -> i64,
    R: Fn(i64) -> i64,
>(
    widen: W,
    take: F,
    round: R,
    left: Seq<i64>,
    right: Seq<i64>,
    bias: Seq<i64>,
    inner: int,
    row: int,
    column: int,
    value: i64,
)
    requires
        keeps(widen),
        exact(take),
        keeps(round),
        0 <= inner,
        gemm_cell(widen, take, round, left, right, bias, inner, row, column, value),
    ensures
        value == bias[column] + total(
            |place: int| left[cell(row, place, inner)] * right[cell(column, place, inner)],
            inner,
        ),
{
    let (start, sum) = choose|start: i64, sum: i64|
        {
            &&& #[trigger] call_ensures(widen, (bias[column],), start)
            &&& folds(
                take,
                strided(left, row * inner, 1, right, column * inner, 1, inner),
                start,
                sum,
            )
            &&& #[trigger] call_ensures(round, (sum,), value)
        };
    lemma_strided_total(
        take,
        left,
        row * inner,
        1,
        right,
        column * inner,
        1,
        inner,
        |place: int| left[cell(row, place, inner)] * right[cell(column, place, inner)],
        start,
        sum,
    );
}

/// With exact numbers, a query's product with a key of its batch is the products of their channels.
pub proof fn law_queries_meet_the_keys_of_their_batch<F: Fn(i64, i64, i64) -> i64>(
    take: F,
    query: Seq<i64>,
    key: Seq<i64>,
    rows: int,
    inner: int,
    batch: int,
    row: int,
    column: int,
    value: i64,
)
    requires
        exact(take),
        0 <= inner,
        0 <= row < rows,
        0 <= batch,
        qk_cell(take, 0, query, key, rows, inner, cell(batch, row, rows), column, value),
    ensures
        value == total(
            |place: int|
                query[cell(cell(batch, row, rows), place, inner)] * key[cell(
                    cell(batch, column, rows),
                    place,
                    inner,
                )],
            inner,
        ),
{
    let all = cell(batch, row, rows);
    lemma_fundamental_div_mod_converse(all, rows, batch, row);
    assert((all / rows * rows + column) == cell(batch, column, rows));
    lemma_strided_total(
        take,
        query,
        all * inner,
        1,
        key,
        (all / rows * rows + column) * inner,
        1,
        inner,
        |place: int|
            query[cell(cell(batch, row, rows), place, inner)] * key[cell(
                cell(batch, column, rows),
                place,
                inner,
            )],
        0,
        value,
    );
}

/// With exact numbers, a context is the values of its batch, each by the weight that it has.
pub proof fn law_contexts_weigh_the_values_of_their_batch<F: Fn(i64, i64, i64) -> i64>(
    take: F,
    probabilities: Seq<i64>,
    values: Seq<i64>,
    rows: int,
    inner: int,
    columns: int,
    batch: int,
    row: int,
    column: int,
    value: i64,
)
    requires
        exact(take),
        0 <= inner,
        0 <= row < rows,
        0 <= batch,
        context_cell(
            take,
            0,
            probabilities,
            values,
            rows,
            inner,
            columns,
            cell(batch, row, rows),
            column,
            value,
        ),
    ensures
        value == total(
            |place: int|
                probabilities[cell(cell(batch, row, rows), place, inner)] * values[cell(
                    cell(batch, place, inner),
                    column,
                    columns,
                )],
            inner,
        ),
{
    let all = cell(batch, row, rows);
    lemma_fundamental_div_mod_converse(all, rows, batch, row);
    let terms = |place: int|
        probabilities[cell(cell(batch, row, rows), place, inner)] * values[cell(
            cell(batch, place, inner),
            column,
            columns,
        )];
    assert forall|place: int| 0 <= place < inner implies #[trigger] terms(place)
        == probabilities[all * inner + place * 1] * values[(all / rows * inner * columns + column)
        + place * columns] by {
        assert(cell(cell(batch, place, inner), column, columns) == (batch * inner * columns
            + column) + place * columns) by (nonlinear_arith)
            requires
                cell(cell(batch, place, inner), column, columns) == (batch * inner + place)
                    * columns + column,
        ;
    }
    lemma_strided_total(
        take,
        probabilities,
        all * inner,
        1,
        values,
        all / rows * inner * columns + column,
        columns,
        inner,
        terms,
        0,
        value,
    );
}

}
