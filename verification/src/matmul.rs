//! Matrix products whose sums are taken in parts.

use vstd::prelude::*;

use crate::kernels;
use crate::kernels::{build, fold_strided, is_product, offset, DimensionError};

verus! {

/// How many products are summed up in the narrow kind of number at a time.
pub const BLOCK: usize = 8;

/// How many sums run side by side.
pub const LANES: usize = 4;

/// `sum` comes out of `start` by adding the sums of the first `count` blocks of products.
pub open spec fn sums_blocks<T, A, F: Fn(T, T, T) -> T, S: Fn(A, T) -> A>(
    take: F,
    spill: S,
    zero: T,
    start: A,
    left: Seq<T>,
    right: Seq<T>,
    inner: int,
    columns: int,
    row: int,
    column: int,
    count: int,
    sum: A,
) -> bool
    decreases count,
{
    if count <= 0 {
        sum == start
    } else {
        exists|before: A, part: T|
            {
                &&& sums_blocks(
                    take,
                    spill,
                    zero,
                    start,
                    left,
                    right,
                    inner,
                    columns,
                    row,
                    column,
                    count - 1,
                    before,
                )
                &&& kernels::folds(
                    take,
                    block_pairs(left, right, inner, columns, row, column, count - 1),
                    zero,
                    part,
                )
                &&& #[trigger] call_ensures(spill, (before, part), sum)
            }
    }
}

/// The cells that meet in one block of a row and a column.
pub open spec fn block_pairs<T>(
    left: Seq<T>,
    right: Seq<T>,
    inner: int,
    columns: int,
    row: int,
    column: int,
    block: int,
) -> Seq<(T, T)> {
    kernels::strided(
        left,
        row * inner + block * BLOCK,
        1,
        right,
        block * BLOCK * columns + column,
        columns,
        BLOCK as int,
    )
}

/// One cell of a product whose sums are taken in blocks.
pub open spec fn matmul_cell<T, A, F: Fn(T, T, T) -> T, S: Fn(A, T) -> A, R: Fn(A) -> T>(
    take: F,
    spill: S,
    round: R,
    zero: T,
    start: A,
    left: Seq<T>,
    right: Seq<T>,
    inner: int,
    columns: int,
    row: int,
    column: int,
    value: T,
) -> bool {
    exists|sum: A|
        {
            &&& sums_blocks(
                take,
                spill,
                zero,
                start,
                left,
                right,
                inner,
                columns,
                row,
                column,
                inner / (BLOCK as int),
                sum,
            )
            &&& #[trigger] call_ensures(round, (sum,), value)
        }
}

/// The sizes of a product whose sums are taken in blocks.
pub open spec fn matmul_sizes(left: int, right: int, rows: int, inner: int, columns: int) -> bool {
    &&& left == rows * inner
    &&& right == inner * columns
    &&& rows > 0 && inner > 0 && columns > 0
    &&& inner % (BLOCK as int) == 0
}

/// A block of a row and a column lies within the matrices.
proof fn lemma_block_inside(inner: int, columns: int, column: int, block: int)
    requires
        0 <= column < columns,
        0 <= block < inner / (BLOCK as int),
    ensures
        0 <= block * BLOCK,
        block * BLOCK + BLOCK <= inner,
        0 <= block * BLOCK * columns,
        block * BLOCK * columns + column < inner * columns,
        kernels::series_inside(
            block * BLOCK * columns + column,
            columns,
            BLOCK as int,
            inner * columns,
        ),
{
    let first = block * BLOCK;
    let last = first + BLOCK - 1;
    kernels::lemma_cell_inside(first, inner, column, columns);
    kernels::lemma_cell_inside(last, inner, column, columns);
    assert(last * columns == first * columns + (BLOCK - 1) * columns) by (nonlinear_arith)
        requires
            last == first + 7,
            BLOCK == 8,
    ;
}

/// The sums of the blocks of a row and a column.
fn sum_blocks<T: Copy, A, F: Fn(T, T, T) -> T, S: Fn(A, T) -> A>(
    take: &F,
    spill: &S,
    zero: T,
    start: A,
    left: &[T],
    right: &[T],
    rows: usize,
    inner: usize,
    columns: usize,
    row: usize,
    column: usize,
) -> (sum: A)
    requires
        forall|sum: T, one: T, other: T| call_requires(*take, (sum, one, other)),
        forall|sum: A, part: T| call_requires(*spill, (sum, part)),
        rows * inner == left@.len(),
        inner * columns == right@.len(),
        row < rows,
        column < columns,
    ensures
        sums_blocks(
            *take,
            *spill,
            zero,
            start,
            left@,
            right@,
            inner as int,
            columns as int,
            row as int,
            column as int,
            inner as int / BLOCK as int,
            sum,
        ),
{
    let left_len: usize = left.len();
    let right_len: usize = right.len();
    let row_start: usize = offset(row, inner, rows, left_len);
    let mut sum: A = start;
    for block in 0..inner / BLOCK
        invariant
            forall|sum: T, one: T, other: T| call_requires(*take, (sum, one, other)),
            forall|sum: A, part: T| call_requires(*spill, (sum, part)),
            left_len == left@.len(),
            right_len == right@.len(),
            inner * columns == right_len,
            row_start == row * inner,
            row_start + inner <= left_len,
            column < columns,
            sums_blocks(
                *take,
                *spill,
                zero,
                start,
                left@,
                right@,
                inner as int,
                columns as int,
                row as int,
                column as int,
                block as int,
                sum,
            ),
    {
        proof {
            lemma_block_inside(inner as int, columns as int, column as int, block as int);
        }
        let first: usize = block * BLOCK;
        let part: T = fold_strided(
            take,
            zero,
            left,
            row_start + first,
            1,
            right,
            first * columns + column,
            columns,
            BLOCK,
        );
        let ghost before = sum;
        sum = spill(sum, part);
        assert(call_ensures(*spill, (before, part), sum));
    }
    sum
}

/// The product of two matrices. Each block of products is summed up in the narrow kind of number,
/// the blocks in the wide one, and the sum is rounded.
pub fn matmul_f16<T: Copy, A: Copy, F: Fn(T, T, T) -> T, S: Fn(A, T) -> A, R: Fn(A) -> T>(
    take: &F,
    spill: &S,
    round: &R,
    zero: T,
    start: A,
    left: &[T],
    right: &[T],
    rows: usize,
    inner: usize,
    columns: usize,
) -> (result: Result<Vec<T>, DimensionError>)
    requires
        forall|sum: T, one: T, other: T| call_requires(*take, (sum, one, other)),
        forall|sum: A, part: T| call_requires(*spill, (sum, part)),
        forall|sum: A| call_requires(*round, (sum,)),
    ensures
        result is Ok <==> matmul_sizes(
            left@.len() as int,
            right@.len() as int,
            rows as int,
            inner as int,
            columns as int,
        ),
        result matches Ok(output) ==> output@.len() == rows * columns && forall|
            row: usize,
            column: usize,
        |
            row < rows && column < columns ==> matmul_cell(
                *take,
                *spill,
                *round,
                zero,
                start,
                left@,
                right@,
                inner as int,
                columns as int,
                row as int,
                column as int,
                #[trigger] output@[kernels::cell(row as int, column as int, columns as int)],
            ),
{
    if !is_product(left.len(), rows, inner) || !is_product(right.len(), inner, columns) || rows == 0
        || inner == 0 || columns == 0 || inner % BLOCK != 0 {
        return Err(DimensionError);
    }
    let element = |row: usize, column: usize| -> (value: T)
        requires
            row < rows,
            column < columns,
        ensures
            matmul_cell(
                *take,
                *spill,
                *round,
                zero,
                start,
                left@,
                right@,
                inner as int,
                columns as int,
                row as int,
                column as int,
                value,
            ),
        {
            let sum: A = sum_blocks(
                take,
                spill,
                zero,
                start,
                left,
                right,
                rows,
                inner,
                columns,
                row,
                column,
            );
            round(sum)
        };
    Ok(build(rows, columns, &element))
}

/// The cells of the row and of a column that meet in one of the sums that run side by side.
pub open spec fn lane_pairs<T>(
    left: Seq<T>,
    right: Seq<T>,
    inner: int,
    columns: int,
    column: int,
    lane: int,
) -> Seq<(T, T)> {
    kernels::strided(
        left,
        lane,
        LANES as int,
        right,
        lane * columns + column,
        LANES * columns,
        inner / (LANES as int),
    )
}

/// One value of a row times a matrix. In a column that has a neighbour, four sums run side by
/// side and are added in pairs, and the rest follows; in a last column of its own, each product is
/// rounded and added in turn.
pub open spec fn row_cell<T, F: Fn(T, T, T) -> T, G: Fn(T, T) -> T, H: Fn(T, T, T) -> T>(
    fuse: F,
    join: G,
    take: H,
    zero: T,
    left: Seq<T>,
    right: Seq<T>,
    inner: int,
    columns: int,
    column: int,
    value: T,
) -> bool {
    if column < columns - columns % 2 {
        let main = inner - inner % (LANES as int);
        exists|sums: (T, T, T, T), pairs: (T, T), result: T|
            {
                &&& kernels::folds(
                    fuse,
                    lane_pairs(left, right, inner, columns, column, 0),
                    zero,
                    sums.0,
                )
                &&& kernels::folds(
                    fuse,
                    lane_pairs(left, right, inner, columns, column, 1),
                    zero,
                    sums.1,
                )
                &&& kernels::folds(
                    fuse,
                    lane_pairs(left, right, inner, columns, column, 2),
                    zero,
                    sums.2,
                )
                &&& kernels::folds(
                    fuse,
                    lane_pairs(left, right, inner, columns, column, 3),
                    zero,
                    sums.3,
                )
                &&& #[trigger] call_ensures(join, (sums.0, sums.1), pairs.0)
                &&& #[trigger] call_ensures(join, (sums.2, sums.3), pairs.1)
                &&& #[trigger] call_ensures(join, (pairs.0, pairs.1), result)
                &&& kernels::folds(
                    fuse,
                    kernels::strided(
                        left,
                        main,
                        1,
                        right,
                        main * columns + column,
                        columns,
                        inner % (LANES as int),
                    ),
                    result,
                    value,
                )
            }
    } else {
        kernels::folds(
            take,
            kernels::strided(left, 0, 1, right, column, columns, inner),
            zero,
            value,
        )
    }
}

/// A lane of a column lies within the matrix.
proof fn lemma_lane_inside(inner: int, columns: int, column: int, lane: int)
    requires
        0 <= column < columns,
        0 <= lane < LANES,
        0 < inner,
    ensures
        0 <= lane * columns,
        inner / (LANES as int) > 0 ==> lane * columns + column < inner * columns,
        kernels::series_inside(lane, LANES as int, inner / (LANES as int), inner),
        kernels::series_inside(
            lane * columns + column,
            LANES * columns,
            inner / (LANES as int),
            inner * columns,
        ),
{
    let count = inner / (LANES as int);
    assert(0 <= lane * columns) by (nonlinear_arith)
        requires
            0 <= lane,
            0 <= columns,
    ;
    if count > 0 {
        let last = lane + (count - 1) * LANES;
        kernels::lemma_cell_inside(lane, inner, column, columns);
        kernels::lemma_cell_inside(last, inner, column, columns);
        assert(last * columns == lane * columns + (count - 1) * (LANES * columns))
            by (nonlinear_arith)
            requires
                last == lane + (count - 1) * LANES,
        ;
    }
}

/// Cells of a column from `first` on lie within the matrix.
proof fn lemma_column_inside(inner: int, columns: int, column: int, first: int)
    requires
        0 <= column < columns,
        0 <= first <= inner,
    ensures
        0 <= first * columns,
        first < inner ==> first * columns + column < inner * columns,
        kernels::series_inside(
            first * columns + column,
            columns,
            inner - first,
            inner * columns,
        ),
{
    assert(0 <= first * columns) by (nonlinear_arith)
        requires
            0 <= first,
            0 <= columns,
    ;
    if first < inner {
        kernels::lemma_cell_inside(first, inner, column, columns);
        kernels::lemma_cell_inside(inner - 1, inner, column, columns);
        assert((inner - 1) * columns == first * columns + (inner - first - 1) * columns)
            by (nonlinear_arith);
    }
}

/// One of the sums of a column that run side by side.
fn lane_sum<T: Copy, F: Fn(T, T, T) -> T>(
    fuse: &F,
    zero: T,
    left: &[T],
    right: &[T],
    inner: usize,
    columns: usize,
    column: usize,
    lane: usize,
) -> (sum: T)
    requires
        forall|sum: T, one: T, other: T| call_requires(*fuse, (sum, one, other)),
        left@.len() == inner,
        right@.len() == inner * columns,
        inner > 0,
        column < columns,
        lane < LANES,
    ensures
        kernels::folds(
            *fuse,
            lane_pairs(left@, right@, inner as int, columns as int, column as int, lane as int),
            zero,
            sum,
        ),
{
    let right_len: usize = right.len();
    let count: usize = inner / LANES;
    if count == 0 {
        assert(lane_pairs(
            left@,
            right@,
            inner as int,
            columns as int,
            column as int,
            lane as int,
        ) =~= Seq::empty());
        return zero;
    }
    proof {
        lemma_lane_inside(inner as int, columns as int, column as int, lane as int);
        assert(LANES * columns <= inner * columns) by (nonlinear_arith)
            requires
                LANES <= inner,
                0 <= columns,
        ;
    }
    fold_strided(
        fuse,
        zero,
        left,
        lane,
        LANES,
        right,
        lane * columns + column,
        LANES * columns,
        count,
    )
}

/// One value of a row times a matrix.
fn row_value<T: Copy, F: Fn(T, T, T) -> T, G: Fn(T, T) -> T, H: Fn(T, T, T) -> T>(
    fuse: &F,
    join: &G,
    take: &H,
    zero: T,
    left: &[T],
    right: &[T],
    inner: usize,
    columns: usize,
    column: usize,
) -> (value: T)
    requires
        forall|sum: T, one: T, other: T| call_requires(*fuse, (sum, one, other)),
        forall|one: T, other: T| call_requires(*join, (one, other)),
        forall|sum: T, one: T, other: T| call_requires(*take, (sum, one, other)),
        left@.len() == inner,
        right@.len() == inner * columns,
        inner > 0,
        column < columns,
    ensures
        row_cell(
            *fuse,
            *join,
            *take,
            zero,
            left@,
            right@,
            inner as int,
            columns as int,
            column as int,
            value,
        ),
{
    let right_len: usize = right.len();
    if column < columns - columns % 2 {
        let sums: (T, T, T, T) = (
            lane_sum(fuse, zero, left, right, inner, columns, column, 0),
            lane_sum(fuse, zero, left, right, inner, columns, column, 1),
            lane_sum(fuse, zero, left, right, inner, columns, column, 2),
            lane_sum(fuse, zero, left, right, inner, columns, column, 3),
        );
        let pairs: (T, T) = (join(sums.0, sums.1), join(sums.2, sums.3));
        let result: T = join(pairs.0, pairs.1);
        let tail: usize = inner % LANES;
        let main: usize = inner - tail;
        let ghost rest = kernels::strided(
            left@,
            main as int,
            1,
            right@,
            main * columns + column,
            columns as int,
            tail as int,
        );
        if tail == 0 {
            assert(rest =~= Seq::empty());
            assert(call_ensures(*join, (pairs.0, pairs.1), result));
            return result;
        }
        proof {
            lemma_column_inside(inner as int, columns as int, column as int, main as int);
        }
        let value: T = fold_strided(
            fuse,
            result,
            left,
            main,
            1,
            right,
            main * columns + column,
            columns,
            tail,
        );
        assert(call_ensures(*join, (pairs.0, pairs.1), result));
        value
    } else {
        proof {
            lemma_column_inside(inner as int, columns as int, column as int, 0);
        }
        fold_strided(take, zero, left, 0, 1, right, column, columns, inner)
    }
}

/// The sizes of a row times a matrix.
pub open spec fn row_sizes(left: int, right: int, rows: int, inner: int, columns: int) -> bool {
    &&& left == rows * inner
    &&& right == inner * columns
    &&& rows == 1 && inner > 0 && columns > 0
}

/// A row times a matrix.
pub fn decoder_matmul<T: Copy, F: Fn(T, T, T) -> T, G: Fn(T, T) -> T, H: Fn(T, T, T) -> T>(
    fuse: &F,
    join: &G,
    take: &H,
    zero: T,
    left: &[T],
    right: &[T],
    rows: usize,
    inner: usize,
    columns: usize,
) -> (result: Result<Vec<T>, DimensionError>)
    requires
        forall|sum: T, one: T, other: T| call_requires(*fuse, (sum, one, other)),
        forall|one: T, other: T| call_requires(*join, (one, other)),
        forall|sum: T, one: T, other: T| call_requires(*take, (sum, one, other)),
    ensures
        result is Ok <==> row_sizes(
            left@.len() as int,
            right@.len() as int,
            rows as int,
            inner as int,
            columns as int,
        ),
        result matches Ok(output) ==> output@.len() == columns && forall|column: int|
            0 <= column < columns ==> row_cell(
                *fuse,
                *join,
                *take,
                zero,
                left@,
                right@,
                inner as int,
                columns as int,
                column,
                #[trigger] output@[column],
            ),
{
    if !is_product(left.len(), rows, inner) || !is_product(right.len(), inner, columns) || rows != 1
        || inner == 0 || columns == 0 {
        return Err(DimensionError);
    }
    let mut output: Vec<T> = Vec::new();
    for column in 0..columns
        invariant
            forall|sum: T, one: T, other: T| call_requires(*fuse, (sum, one, other)),
            forall|one: T, other: T| call_requires(*join, (one, other)),
            forall|sum: T, one: T, other: T| call_requires(*take, (sum, one, other)),
            left@.len() == inner,
            right@.len() == inner * columns,
            inner > 0,
            output@.len() == column,
            forall|place: int|
                0 <= place < column ==> row_cell(
                    *fuse,
                    *join,
                    *take,
                    zero,
                    left@,
                    right@,
                    inner as int,
                    columns as int,
                    place,
                    #[trigger] output@[place],
                ),
    {
        let value: T = row_value(fuse, join, take, zero, left, right, inner, columns, column);
        output.push(value);
    }
    Ok(output)
}

/// With exact numbers, blocks add up to the products of the row with the column.
proof fn lemma_blocks_total<F: Fn(i64, i64, i64) -> i64, S: Fn(i64, i64) -> i64>(
    take: F,
    spill: S,
    left: Seq<i64>,
    right: Seq<i64>,
    inner: int,
    columns: int,
    row: int,
    column: int,
    count: int,
    terms: spec_fn(int) -> int,
    sum: i64,
)
    requires
        kernels::exact(take),
        kernels::exact_sum(spill),
        0 <= count,
        forall|place: int|
            #[trigger] terms(place) == left[kernels::cell(row, place, inner)]
                * right[kernels::cell(place, column, columns)],
        sums_blocks(take, spill, 0, 0, left, right, inner, columns, row, column, count, sum),
    ensures
        sum == kernels::total(terms, count * BLOCK),
    decreases count,
{
    if count > 0 {
        let (before, part) = choose|before: i64, part: i64|
            {
                &&& sums_blocks(
                    take,
                    spill,
                    0,
                    0,
                    left,
                    right,
                    inner,
                    columns,
                    row,
                    column,
                    count - 1,
                    before,
                )
                &&& kernels::folds(
                    take,
                    block_pairs(left, right, inner, columns, row, column, count - 1),
                    0,
                    part,
                )
                &&& #[trigger] call_ensures(spill, (before, part), sum)
            };
        lemma_blocks_total(
            take,
            spill,
            left,
            right,
            inner,
            columns,
            row,
            column,
            count - 1,
            terms,
            before,
        );
        let first = (count - 1) * BLOCK;
        let block = |index: int| terms(first + index);
        assert forall|index: int| 0 <= index < BLOCK implies #[trigger] block(index) == left[(row
            * inner + first) + index * 1] * right[(first * columns + column) + index * columns] by {
            let place = first + index;
            assert(terms(place) == left[kernels::cell(row, place, inner)] * right[kernels::cell(
                place,
                column,
                columns,
            )]);
            assert(kernels::cell(place, column, columns) == (first * columns + column) + index
                * columns) by (nonlinear_arith)
                requires
                    kernels::cell(place, column, columns) == place * columns + column,
                    place == first + index,
            ;
        }
        kernels::lemma_strided_total(
            take,
            left,
            row * inner + first,
            1,
            right,
            first * columns + column,
            columns,
            BLOCK as int,
            block,
            0,
            part,
        );
        kernels::lemma_split_total(terms, first, BLOCK as int);
    }
}

/// With exact numbers, a cell of a product whose sums are taken in blocks is the products of its row
/// with its column.
pub proof fn law_blocks_make_the_matrix_product<
    F: Fn(i64, i64, i64) -> i64,
    S: Fn(i64, i64) -> i64,
    R: Fn(i64) -> i64,
>(
    take: F,
    spill: S,
    round: R,
    left: Seq<i64>,
    right: Seq<i64>,
    inner: int,
    columns: int,
    row: int,
    column: int,
    value: i64,
)
    requires
        kernels::exact(take),
        kernels::exact_sum(spill),
        kernels::keeps(round),
        0 <= inner,
        inner % (BLOCK as int) == 0,
        matmul_cell(take, spill, round, 0, 0, left, right, inner, columns, row, column, value),
    ensures
        value == kernels::total(
            |place: int|
                left[kernels::cell(row, place, inner)] * right[kernels::cell(
                    place,
                    column,
                    columns,
                )],
            inner,
        ),
{
    let count = inner / (BLOCK as int);
    let sum = choose|sum: i64|
        {
            &&& sums_blocks(take, spill, 0, 0, left, right, inner, columns, row, column, count, sum)
            &&& #[trigger] call_ensures(round, (sum,), value)
        };
    let terms = |place: int|
        left[kernels::cell(row, place, inner)] * right[kernels::cell(place, column, columns)];
    lemma_blocks_total(
        take,
        spill,
        left,
        right,
        inner,
        columns,
        row,
        column,
        count,
        terms,
        sum,
    );
    assert(count * BLOCK == inner);
}

/// One of the sums that run side by side is that of its products.
proof fn lemma_lane_total<F: Fn(i64, i64, i64) -> i64>(
    fuse: F,
    left: Seq<i64>,
    right: Seq<i64>,
    inner: int,
    columns: int,
    column: int,
    lane: int,
    terms: spec_fn(int) -> int,
    sum: i64,
)
    requires
        kernels::exact(fuse),
        0 <= inner,
        forall|place: int|
            #[trigger] terms(place) == left[place] * right[kernels::cell(place, column, columns)],
        kernels::folds(fuse, lane_pairs(left, right, inner, columns, column, lane), 0, sum),
    ensures
        sum == kernels::total(|index: int| terms(4 * index + lane), inner / 4),
{
    let own = |index: int| terms(4 * index + lane);
    assert forall|index: int| 0 <= index < inner / 4 implies #[trigger] own(index) == left[lane
        + index * LANES] * right[(lane * columns + column) + index * (LANES * columns)] by {
        let place = 4 * index + lane;
        assert(terms(place) == left[place] * right[kernels::cell(place, column, columns)]);
        assert(kernels::cell(place, column, columns) == (lane * columns + column) + index * (LANES
            * columns)) by (nonlinear_arith)
            requires
                kernels::cell(place, column, columns) == place * columns + column,
                place == 4 * index + lane,
                LANES == 4,
        ;
    }
    kernels::lemma_strided_total(
        fuse,
        left,
        lane,
        LANES as int,
        right,
        lane * columns + column,
        LANES * columns,
        inner / (LANES as int),
        own,
        0,
        sum,
    );
}

/// With exact numbers, a value of a row times a matrix is the products of the row with the column,
/// whichever way it is summed up.
pub proof fn law_rows_meet_columns<
    F: Fn(i64, i64, i64) -> i64,
    G: Fn(i64, i64) -> i64,
    H: Fn(i64, i64, i64) -> i64,
>(
    fuse: F,
    join: G,
    take: H,
    left: Seq<i64>,
    right: Seq<i64>,
    inner: int,
    columns: int,
    column: int,
    value: i64,
)
    requires
        kernels::exact(fuse),
        kernels::exact_sum(join),
        kernels::exact(take),
        0 <= inner,
        row_cell(fuse, join, take, 0, left, right, inner, columns, column, value),
    ensures
        value == kernels::total(
            |place: int| left[place] * right[kernels::cell(place, column, columns)],
            inner,
        ),
{
    let terms = |place: int| left[place] * right[kernels::cell(place, column, columns)];
    if column < columns - columns % 2 {
        let main = inner - inner % (LANES as int);
        let (sums, pairs, result) = choose|
            sums: (i64, i64, i64, i64),
            pairs: (i64, i64),
            result: i64,
        |
            {
                &&& kernels::folds(
                    fuse,
                    lane_pairs(left, right, inner, columns, column, 0),
                    0,
                    sums.0,
                )
                &&& kernels::folds(
                    fuse,
                    lane_pairs(left, right, inner, columns, column, 1),
                    0,
                    sums.1,
                )
                &&& kernels::folds(
                    fuse,
                    lane_pairs(left, right, inner, columns, column, 2),
                    0,
                    sums.2,
                )
                &&& kernels::folds(
                    fuse,
                    lane_pairs(left, right, inner, columns, column, 3),
                    0,
                    sums.3,
                )
                &&& #[trigger] call_ensures(join, (sums.0, sums.1), pairs.0)
                &&& #[trigger] call_ensures(join, (sums.2, sums.3), pairs.1)
                &&& #[trigger] call_ensures(join, (pairs.0, pairs.1), result)
                &&& kernels::folds(
                    fuse,
                    kernels::strided(
                        left,
                        main,
                        1,
                        right,
                        main * columns + column,
                        columns,
                        inner % (LANES as int),
                    ),
                    result,
                    value,
                )
            };
        lemma_lane_total(fuse, left, right, inner, columns, column, 0, terms, sums.0);
        lemma_lane_total(fuse, left, right, inner, columns, column, 1, terms, sums.1);
        lemma_lane_total(fuse, left, right, inner, columns, column, 2, terms, sums.2);
        lemma_lane_total(fuse, left, right, inner, columns, column, 3, terms, sums.3);
        kernels::lemma_same_total(
            |index: int| terms(4 * index + 0),
            |index: int| terms(4 * index),
            inner / 4,
        );
        kernels::lemma_total_of_four(terms, inner / 4);
        assert(main == 4 * (inner / 4));
        let rest = |index: int| terms(main + index);
        assert forall|index: int| 0 <= index < inner % 4 implies #[trigger] rest(index) == left[main
            + index * 1] * right[(main * columns + column) + index * columns] by {
            assert(kernels::cell(main + index, column, columns) == (main * columns + column) + index
                * columns) by (nonlinear_arith)
                requires
                    kernels::cell(main + index, column, columns) == (main + index) * columns
                        + column,
            ;
        }
        kernels::lemma_strided_total(
            fuse,
            left,
            main,
            1,
            right,
            main * columns + column,
            columns,
            inner % 4,
            rest,
            result,
            value,
        );
        kernels::lemma_split_total(terms, main, inner % 4);
    } else {
        assert forall|index: int| 0 <= index < inner implies #[trigger] terms(index) == left[0
            + index * 1] * right[column + index * columns] by {}
        kernels::lemma_strided_total(
            take,
            left,
            0,
            1,
            right,
            column,
            columns,
            inner,
            terms,
            0,
            value,
        );
    }
}

}
