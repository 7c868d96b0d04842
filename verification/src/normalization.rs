//! Normalising the rows of a matrix over numbers of any kind.
//!
//! The arithmetic is handed in as functions. What is stated here is what each row is normalised
//! by, and in which order numbers are added up.

use vstd::prelude::*;
use vstd::slice::slice_subrange;

use crate::kernels;
use crate::kernels::{is_product, DimensionError};

verus! {

/// How many sums of a row are kept side by side.
pub const LANES: usize = 4;

/// `result` comes out of `start` by taking in the values one after the other.
pub open spec fn gathers<T, A, F: Fn(A, T) -> A>(
    take: F,
    values: Seq<T>,
    start: A,
    result: A,
) -> bool
    decreases values.len(),
{
    if values.len() == 0 {
        result == start
    } else {
        exists|before: A|
            {
                &&& gathers(take, values.drop_last(), start, before)
                &&& #[trigger] call_ensures(take, (before, values.last()), result)
            }
    }
}

/// `result` comes out of `start` by taking in the values one after the other, each seen from
/// `center`.
pub open spec fn gathers_around<T, C, A, F: Fn(A, T, C) -> A>(
    take: F,
    values: Seq<T>,
    center: C,
    start: A,
    result: A,
) -> bool
    decreases values.len(),
{
    if values.len() == 0 {
        result == start
    } else {
        exists|before: A|
            {
                &&& gathers_around(take, values.drop_last(), center, start, before)
                &&& #[trigger] call_ensures(take, (before, values.last(), center), result)
            }
    }
}

/// The values from an offset on, each a stride apart.
pub open spec fn series<T>(values: Seq<T>, first: int, stride: int, count: int) -> Seq<T> {
    Seq::new(count as nat, |index: int| values[first + index * stride])
}

/// Takes in one more value.
proof fn lemma_gathers_push<T, A, F: Fn(A, T) -> A>(
    take: F,
    values: Seq<T>,
    start: A,
    before: A,
    value: T,
    result: A,
)
    requires
        gathers(take, values, start, before),
        call_ensures(take, (before, value), result),
    ensures
        gathers(take, values.push(value), start, result),
{
    let longer = values.push(value);
    assert(longer.drop_last() =~= values);
    assert(call_ensures(take, (before, longer.last()), result));
}

/// Takes in one more value, seen from `center`.
proof fn lemma_gathers_around_push<T, C, A, F: Fn(A, T, C) -> A>(
    take: F,
    values: Seq<T>,
    center: C,
    start: A,
    before: A,
    value: T,
    result: A,
)
    requires
        gathers_around(take, values, center, start, before),
        call_ensures(take, (before, value, center), result),
    ensures
        gathers_around(take, values.push(value), center, start, result),
{
    let longer = values.push(value);
    assert(longer.drop_last() =~= values);
    assert(call_ensures(take, (before, longer.last(), center), result));
}

/// Takes in values from an offset on, each a stride apart.
fn gather<T: Copy, A, F: Fn(A, T) -> A>(
    take: &F,
    start: A,
    values: &[T],
    first: usize,
    stride: usize,
    count: usize,
) -> (result: A)
    requires
        forall|sum: A, value: T| call_requires(*take, (sum, value)),
        kernels::series_inside(first as int, stride as int, count as int, values@.len() as int),
    ensures
        gathers(
            *take,
            series(values@, first as int, stride as int, count as int),
            start,
            result,
        ),
{
    let len: usize = values.len();
    let ghost all = series(values@, first as int, stride as int, count as int);
    let mut result: A = start;
    assert(all.take(0) =~= Seq::empty());
    for index in 0..count
        invariant
            forall|sum: A, value: T| call_requires(*take, (sum, value)),
            len == values@.len(),
            kernels::series_inside(first as int, stride as int, count as int, len as int),
            all == series(values@, first as int, stride as int, count as int),
            gathers(*take, all.take(index as int), start, result),
    {
        proof {
            kernels::lemma_series_inside(
                first as int,
                stride as int,
                count as int,
                len as int,
                index as int,
            );
        }
        let ghost before = result;
        result = take(result, values[first + index * stride]);
        proof {
            lemma_gathers_push(
                *take,
                all.take(index as int),
                start,
                before,
                all[index as int],
                result,
            );
            assert(all.take(index as int).push(all[index as int]) =~= all.take(index + 1));
        }
    }
    assert(all.take(count as int) =~= all);
    result
}

/// Takes in values from an offset on, each a stride apart and seen from `center`.
fn gather_around<T: Copy, C: Copy, A, F: Fn(A, T, C) -> A>(
    take: &F,
    center: C,
    start: A,
    values: &[T],
    first: usize,
    stride: usize,
    count: usize,
) -> (result: A)
    requires
        forall|sum: A, value: T, center: C| call_requires(*take, (sum, value, center)),
        kernels::series_inside(first as int, stride as int, count as int, values@.len() as int),
    ensures
        gathers_around(
            *take,
            series(values@, first as int, stride as int, count as int),
            center,
            start,
            result,
        ),
{
    let len: usize = values.len();
    let ghost all = series(values@, first as int, stride as int, count as int);
    let mut result: A = start;
    assert(all.take(0) =~= Seq::empty());
    for index in 0..count
        invariant
            forall|sum: A, value: T, center: C| call_requires(*take, (sum, value, center)),
            len == values@.len(),
            kernels::series_inside(first as int, stride as int, count as int, len as int),
            all == series(values@, first as int, stride as int, count as int),
            gathers_around(*take, all.take(index as int), center, start, result),
    {
        proof {
            kernels::lemma_series_inside(
                first as int,
                stride as int,
                count as int,
                len as int,
                index as int,
            );
        }
        let ghost before = result;
        result = take(result, values[first + index * stride], center);
        proof {
            lemma_gathers_around_push(
                *take,
                all.take(index as int),
                center,
                start,
                before,
                all[index as int],
                result,
            );
            assert(all.take(index as int).push(all[index as int]) =~= all.take(index + 1));
        }
    }
    assert(all.take(count as int) =~= all);
    result
}

/// `result` holds what comes of each value, seen from `center`.
pub open spec fn maps_around<T, C, U, F: Fn(T, C) -> U>(
    change: F,
    values: Seq<T>,
    center: C,
    result: Seq<U>,
) -> bool {
    &&& result.len() == values.len()
    &&& forall|index: int|
        0 <= index < values.len() ==> call_ensures(
            change,
            (values[index], center),
            #[trigger] result[index],
        )
}

/// Changes each value, seen from `center`.
fn map_around<T: Copy, C: Copy, U, F: Fn(T, C) -> U>(change: &F, values: &[T], center: C) -> (result:
    Vec<U>)
    requires
        forall|value: T, center: C| call_requires(*change, (value, center)),
    ensures
        maps_around(*change, values@, center, result@),
{
    let mut result: Vec<U> = Vec::new();
    for index in 0..values.len()
        invariant
            forall|value: T, center: C| call_requires(*change, (value, center)),
            result@.len() == index,
            forall|place: int|
                0 <= place < index ==> call_ensures(
                    *change,
                    (values@[place], center),
                    #[trigger] result@[place],
                ),
    {
        let ghost before = result@;
        let value: U = change(values[index], center);
        result.push(value);
        assert(forall|place: int| 0 <= place < index ==> #[trigger] result@[place] == before[place]);
    }
    result
}

/// A row of a matrix.
pub open spec fn row_of<T>(values: Seq<T>, row: int, width: int) -> Seq<T> {
    values.subrange(row * width, row * width + width)
}

/// A row lies within its matrix.
proof fn lemma_row_inside(row: int, rows: int, width: int)
    requires
        0 <= row < rows,
        0 <= width,
    ensures
        0 <= row * width,
        row * width + width <= rows * width,
{
    assert(0 <= row * width) by (nonlinear_arith)
        requires
            0 <= row,
            0 <= width,
    ;
    assert(row * width + width <= rows * width) by (nonlinear_arith)
        requires
            row + 1 <= rows,
            0 <= width,
    ;
}

/// A row put below the others leaves them as they are.
proof fn lemma_row_appended<T>(above: Seq<T>, more: Seq<T>, rows: int, width: int)
    requires
        0 <= rows,
        above.len() == rows * width,
        more.len() == width,
    ensures
        (above + more).len() == (rows + 1) * width,
        row_of(above + more, rows, width) == more,
        forall|row: int|
            0 <= row < rows ==> #[trigger] row_of(above + more, row, width) == row_of(
                above,
                row,
                width,
            ),
{
    assert((rows + 1) * width == rows * width + width) by (nonlinear_arith);
    assert(row_of(above + more, rows, width) =~= more);
    assert forall|row: int| 0 <= row < rows implies #[trigger] row_of(above + more, row, width)
        == row_of(above, row, width) by {
        lemma_row_inside(row, rows, width);
        assert(row_of(above + more, row, width) =~= row_of(above, row, width));
    }
}

/// Takes in all values.
pub(crate) fn gather_all<T: Copy, A, F: Fn(A, T) -> A>(take: &F, start: A, values: &[T]) -> (result: A)
    requires
        forall|sum: A, value: T| call_requires(*take, (sum, value)),
    ensures
        gathers(*take, values@, start, result),
{
    let len: usize = values.len();
    assert(series(values@, 0, 1, len as int) =~= values@);
    gather(take, start, values, 0, 1, len)
}

/// Adds up each row.
pub fn decoder_reduce_sum<T: Copy, A: Copy, F: Fn(A, T) -> A>(
    take: &F,
    zero: A,
    input: &[T],
    rows: usize,
    width: usize,
) -> (result: Result<Vec<A>, DimensionError>)
    requires
        forall|sum: A, value: T| call_requires(*take, (sum, value)),
    ensures
        result is Ok <==> input@.len() == rows * width,
        result matches Ok(sums) ==> sums@.len() == rows && forall|row: int|
            0 <= row < rows ==> gathers(
                *take,
                row_of(input@, row, width as int),
                zero,
                #[trigger] sums@[row],
            ),
{
    let len: usize = input.len();
    if !is_product(len, rows, width) {
        return Err(DimensionError);
    }
    let mut sums: Vec<A> = Vec::new();
    for row in 0..rows
        invariant
            forall|sum: A, value: T| call_requires(*take, (sum, value)),
            len == input@.len() == rows * width,
            sums@.len() == row,
            forall|above: int|
                0 <= above < row ==> gathers(
                    *take,
                    row_of(input@, above, width as int),
                    zero,
                    #[trigger] sums@[above],
                ),
    {
        proof {
            lemma_row_inside(row as int, rows as int, width as int);
        }
        let start: usize = row * width;
        let ghost before = sums@;
        let sum: A = gather_all(take, zero, slice_subrange(input, start, start + width));
        sums.push(sum);
        assert(forall|above: int| 0 <= above < row ==> #[trigger] sums@[above] == before[above]);
    }
    Ok(sums)
}

/// A row after its greatest value was taken from each value, and the exponentials were brought to
/// a sum of one.
pub open spec fn softmax_row<
    T,
    A,
    L: Fn(A, T) -> A,
    E: Fn(T, A) -> A,
    P: Fn(A, A) -> A,
    R: Fn(A, A) -> T,
>(
    larger: L,
    exponential: E,
    plus: P,
    finish: R,
    lowest: A,
    zero: A,
    row: Seq<T>,
    result: Seq<T>,
) -> bool {
    exists|maximum: A, terms: Seq<A>, sum: A|
        {
            &&& #[trigger] gathers(larger, row, lowest, maximum)
            &&& maps_around(exponential, row, maximum, terms)
            &&& #[trigger] gathers(plus, terms, zero, sum)
            &&& maps_around(finish, terms, sum, result)
        }
}

/// Each row of a matrix by itself, brought to a sum of one. `exponential` sees a value from the
/// row's greatest one, and `finish` a term from the row's sum.
pub fn softmax_f16<
    T: Copy,
    A: Copy,
    L: Fn(A, T) -> A,
    E: Fn(T, A) -> A,
    P: Fn(A, A) -> A,
    R: Fn(A, A) -> T,
>(
    larger: &L,
    exponential: &E,
    plus: &P,
    finish: &R,
    lowest: A,
    zero: A,
    input: &[T],
    rows: usize,
    width: usize,
) -> (result: Result<Vec<T>, DimensionError>)
    requires
        forall|maximum: A, value: T| call_requires(*larger, (maximum, value)),
        forall|value: T, maximum: A| call_requires(*exponential, (value, maximum)),
        forall|sum: A, term: A| call_requires(*plus, (sum, term)),
        forall|term: A, sum: A| call_requires(*finish, (term, sum)),
    ensures
        result is Ok <==> input@.len() == rows * width && width > 0,
        result matches Ok(output) ==> output@.len() == rows * width && forall|row: int|
            0 <= row < rows ==> softmax_row(
                *larger,
                *exponential,
                *plus,
                *finish,
                lowest,
                zero,
                row_of(input@, row, width as int),
                #[trigger] row_of(output@, row, width as int),
            ),
{
    let len: usize = input.len();
    if !is_product(len, rows, width) || width == 0 {
        return Err(DimensionError);
    }
    let mut output: Vec<T> = Vec::new();
    assert(0 * width == 0) by (nonlinear_arith);
    for row in 0..rows
        invariant
            forall|maximum: A, value: T| call_requires(*larger, (maximum, value)),
            forall|value: T, maximum: A| call_requires(*exponential, (value, maximum)),
            forall|sum: A, term: A| call_requires(*plus, (sum, term)),
            forall|term: A, sum: A| call_requires(*finish, (term, sum)),
            len == input@.len() == rows * width,
            output@.len() == row * width,
            forall|above: int|
                0 <= above < row ==> softmax_row(
                    *larger,
                    *exponential,
                    *plus,
                    *finish,
                    lowest,
                    zero,
                    row_of(input@, above, width as int),
                    #[trigger] row_of(output@, above, width as int),
                ),
    {
        proof {
            lemma_row_inside(row as int, rows as int, width as int);
        }
        let start: usize = row * width;
        let values: &[T] = slice_subrange(input, start, start + width);
        let maximum: A = gather_all(larger, lowest, values);
        let terms: Vec<A> = map_around(exponential, values, maximum);
        let sum: A = gather_all(plus, zero, &terms);
        let mut finished: Vec<T> = map_around(finish, &terms, sum);
        let ghost before = output@;
        let ghost more = finished@;
        assert(softmax_row(
            *larger,
            *exponential,
            *plus,
            *finish,
            lowest,
            zero,
            row_of(input@, row as int, width as int),
            more,
        ));
        output.append(&mut finished);
        proof {
            lemma_row_appended(before, more, row as int, width as int);
            assert(output@ =~= before + more);
        }
    }
    Ok(output)
}

/// Each row of a matrix by itself, brought to a sum of one, with the terms divided by their sum.
pub fn punctuation_softmax<
    T: Copy,
    A: Copy,
    L: Fn(A, T) -> A,
    E: Fn(T, A) -> A,
    P: Fn(A, A) -> A,
    R: Fn(A, A) -> T,
>(
    larger: &L,
    exponential: &E,
    plus: &P,
    divide: &R,
    lowest: A,
    zero: A,
    input: &[T],
    rows: usize,
    columns: usize,
) -> (result: Result<Vec<T>, DimensionError>)
    requires
        forall|maximum: A, value: T| call_requires(*larger, (maximum, value)),
        forall|value: T, maximum: A| call_requires(*exponential, (value, maximum)),
        forall|sum: A, term: A| call_requires(*plus, (sum, term)),
        forall|term: A, sum: A| call_requires(*divide, (term, sum)),
    ensures
        result is Ok <==> input@.len() == rows * columns && columns > 0,
        result matches Ok(output) ==> output@.len() == rows * columns && forall|row: int|
            0 <= row < rows ==> softmax_row(
                *larger,
                *exponential,
                *plus,
                *divide,
                lowest,
                zero,
                row_of(input@, row, columns as int),
                #[trigger] row_of(output@, row, columns as int),
            ),
{
    softmax_f16(larger, exponential, plus, divide, lowest, zero, input, rows, columns)
}

/// The sums of a row in lanes, each over every fourth value.
pub open spec fn lane_sums<T, A, F: Fn(A, T) -> A>(
    take: F,
    row: Seq<T>,
    zero: A,
    sums: (A, A, A, A),
) -> bool {
    let count = row.len() as int / LANES as int;
    let lane = |first: int| series(row, first, LANES as int, count);
    &&& gathers(take, lane(0), zero, sums.0)
    &&& gathers(take, lane(1), zero, sums.1)
    &&& gathers(take, lane(2), zero, sums.2)
    &&& gathers(take, lane(3), zero, sums.3)
}

/// The sum of a row: its lanes are added to each other one after the other.
pub open spec fn lane_total<T, A, F: Fn(A, T) -> A, P: Fn(A, A) -> A>(
    take: F,
    plus: P,
    row: Seq<T>,
    zero: A,
    total: A,
) -> bool {
    exists|sums: (A, A, A, A), first: A, second: A|
        {
            &&& lane_sums(take, row, zero, sums)
            &&& #[trigger] call_ensures(plus, (sums.0, sums.1), first)
            &&& #[trigger] call_ensures(plus, (first, sums.2), second)
            &&& call_ensures(plus, (second, sums.3), total)
        }
}

/// Adds up a row in lanes.
fn add_lanes<T: Copy, A: Copy, F: Fn(A, T) -> A, P: Fn(A, A) -> A>(
    take: &F,
    plus: &P,
    zero: A,
    row: &[T],
) -> (total: A)
    requires
        forall|sum: A, value: T| call_requires(*take, (sum, value)),
        forall|one: A, other: A| call_requires(*plus, (one, other)),
    ensures
        lane_total(*take, *plus, row@, zero, total),
{
    let count: usize = row.len() / LANES;
    let sums: (A, A, A, A) = (
        gather(take, zero, row, 0, LANES, count),
        gather(take, zero, row, 1, LANES, count),
        gather(take, zero, row, 2, LANES, count),
        gather(take, zero, row, 3, LANES, count),
    );
    assert(lane_sums(*take, row@, zero, sums));
    let first: A = plus(sums.0, sums.1);
    let second: A = plus(first, sums.2);
    plus(second, sums.3)
}

/// The values of a row after they are brought to a common mean and spread, then scaled and moved.
pub open spec fn scaled_row<T, A, R: Fn(T, A, A, T, T) -> T>(
    finish: R,
    row: Seq<T>,
    mean: A,
    inverse: A,
    scale: Seq<T>,
    bias: Seq<T>,
    result: Seq<T>,
) -> bool {
    &&& result.len() == row.len()
    &&& forall|index: int|
        0 <= index < row.len() ==> call_ensures(
            finish,
            (row[index], mean, inverse, scale[index], bias[index]),
            #[trigger] result[index],
        )
}

fn scale_row<T: Copy, A: Copy, R: Fn(T, A, A, T, T) -> T>(
    finish: &R,
    row: &[T],
    mean: A,
    inverse: A,
    scale: &[T],
    bias: &[T],
) -> (result: Vec<T>)
    requires
        forall|value: T, mean: A, inverse: A, factor: T, offset: T|
            call_requires(*finish, (value, mean, inverse, factor, offset)),
        scale@.len() == row@.len(),
        bias@.len() == row@.len(),
    ensures
        scaled_row(*finish, row@, mean, inverse, scale@, bias@, result@),
{
    let mut result: Vec<T> = Vec::new();
    for index in 0..row.len()
        invariant
            forall|value: T, mean: A, inverse: A, factor: T, offset: T|
                call_requires(*finish, (value, mean, inverse, factor, offset)),
            scale@.len() == row@.len(),
            bias@.len() == row@.len(),
            result@.len() == index,
            forall|place: int|
                0 <= place < index ==> call_ensures(
                    *finish,
                    (row@[place], mean, inverse, scale@[place], bias@[place]),
                    #[trigger] result@[place],
                ),
    {
        let ghost before = result@;
        let value: T = finish(row[index], mean, inverse, scale[index], bias[index]);
        result.push(value);
        assert(forall|place: int| 0 <= place < index ==> #[trigger] result@[place] == before[place]);
    }
    result
}

/// A row brought to a common mean and spread: its mean comes of the sum of its values, and its
/// spread of the sum of their squares. Both sums are made in lanes.
pub open spec fn laned_norm_row<
    T,
    A,
    F: Fn(A, T) -> A,
    S: Fn(A, T) -> A,
    P: Fn(A, A) -> A,
    C: Fn(A, usize) -> A,
    V: Fn(A, A, usize) -> A,
    R: Fn(T, A, A, T, T) -> T,
>(
    take: F,
    square: S,
    plus: P,
    center: C,
    invert: V,
    finish: R,
    zero: A,
    row: Seq<T>,
    scale: Seq<T>,
    bias: Seq<T>,
    result: Seq<T>,
) -> bool {
    exists|sum: A, squares: A, mean: A, inverse: A|
        {
            &&& lane_total(take, plus, row, zero, sum)
            &&& lane_total(square, plus, row, zero, squares)
            &&& #[trigger] call_ensures(center, (sum, row.len() as usize), mean)
            &&& #[trigger] call_ensures(invert, (mean, squares, row.len() as usize), inverse)
            &&& scaled_row(finish, row, mean, inverse, scale, bias, result)
        }
}

/// Brings each row to a common mean and spread. The rows are cut into lanes, so their width must be
/// a multiple of the number of lanes.
pub fn layer_norm_f16<
    T: Copy,
    A: Copy,
    F: Fn(A, T) -> A,
    S: Fn(A, T) -> A,
    P: Fn(A, A) -> A,
    C: Fn(A, usize) -> A,
    V: Fn(A, A, usize) -> A,
    R: Fn(T, A, A, T, T) -> T,
>(
    take: &F,
    square: &S,
    plus: &P,
    center: &C,
    invert: &V,
    finish: &R,
    zero: A,
    input: &[T],
    scale: &[T],
    bias: &[T],
    rows: usize,
    width: usize,
) -> (result: Result<Vec<T>, DimensionError>)
    requires
        forall|sum: A, value: T| call_requires(*take, (sum, value)),
        forall|sum: A, value: T| call_requires(*square, (sum, value)),
        forall|one: A, other: A| call_requires(*plus, (one, other)),
        forall|sum: A, width: usize| call_requires(*center, (sum, width)),
        forall|mean: A, squares: A, width: usize| call_requires(*invert, (mean, squares, width)),
        forall|value: T, mean: A, inverse: A, factor: T, offset: T|
            call_requires(*finish, (value, mean, inverse, factor, offset)),
    ensures
        result is Ok <==> input@.len() == rows * width && scale@.len() == width && bias@.len()
            == width && width % LANES == 0,
        result matches Ok(output) ==> output@.len() == rows * width && forall|row: int|
            0 <= row < rows ==> laned_norm_row(
                *take,
                *square,
                *plus,
                *center,
                *invert,
                *finish,
                zero,
                row_of(input@, row, width as int),
                scale@,
                bias@,
                #[trigger] row_of(output@, row, width as int),
            ),
{
    let len: usize = input.len();
    if !is_product(len, rows, width) || scale.len() != width || bias.len() != width || width % LANES
        != 0 {
        return Err(DimensionError);
    }
    let mut output: Vec<T> = Vec::new();
    assert(0 * width == 0) by (nonlinear_arith);
    for row in 0..rows
        invariant
            forall|sum: A, value: T| call_requires(*take, (sum, value)),
            forall|sum: A, value: T| call_requires(*square, (sum, value)),
            forall|one: A, other: A| call_requires(*plus, (one, other)),
            forall|sum: A, width: usize| call_requires(*center, (sum, width)),
            forall|mean: A, squares: A, width: usize|
                call_requires(*invert, (mean, squares, width)),
            forall|value: T, mean: A, inverse: A, factor: T, offset: T|
                call_requires(*finish, (value, mean, inverse, factor, offset)),
            len == input@.len() == rows * width,
            scale@.len() == width,
            bias@.len() == width,
            output@.len() == row * width,
            forall|above: int|
                0 <= above < row ==> laned_norm_row(
                    *take,
                    *square,
                    *plus,
                    *center,
                    *invert,
                    *finish,
                    zero,
                    row_of(input@, above, width as int),
                    scale@,
                    bias@,
                    #[trigger] row_of(output@, above, width as int),
                ),
    {
        proof {
            lemma_row_inside(row as int, rows as int, width as int);
        }
        let start: usize = row * width;
        let values: &[T] = slice_subrange(input, start, start + width);
        let sum: A = add_lanes(take, plus, zero, values);
        let squares: A = add_lanes(square, plus, zero, values);
        let mean: A = center(sum, width);
        let inverse: A = invert(mean, squares, width);
        let mut finished: Vec<T> = scale_row(finish, values, mean, inverse, scale, bias);
        let ghost before = output@;
        let ghost more = finished@;
        assert(values@.len() as usize == width);
        assert(call_ensures(*center, (sum, values@.len() as usize), mean));
        assert(call_ensures(*invert, (mean, squares, values@.len() as usize), inverse));
        assert(laned_norm_row(
            *take,
            *square,
            *plus,
            *center,
            *invert,
            *finish,
            zero,
            row_of(input@, row as int, width as int),
            scale@,
            bias@,
            more,
        ));
        output.append(&mut finished);
        proof {
            lemma_row_appended(before, more, row as int, width as int);
            assert(output@ =~= before + more);
        }
    }
    Ok(output)
}

/// A row brought to a common mean and spread: its mean comes of the sum of its values, and its
/// spread of the sum of what they are away from the mean.
pub open spec fn norm_row<
    T,
    A,
    F: Fn(A, T) -> A,
    D: Fn(A, T, A) -> A,
    C: Fn(A, usize) -> A,
    V: Fn(A, A, usize) -> A,
    R: Fn(T, A, A, T, T) -> T,
>(
    take: F,
    deviate: D,
    center: C,
    invert: V,
    finish: R,
    zero: A,
    row: Seq<T>,
    scale: Seq<T>,
    bias: Seq<T>,
    result: Seq<T>,
) -> bool {
    exists|sum: A, deviation: A, mean: A, inverse: A|
        {
            &&& gathers(take, row, zero, sum)
            &&& #[trigger] call_ensures(center, (sum, row.len() as usize), mean)
            &&& gathers_around(deviate, row, mean, zero, deviation)
            &&& #[trigger] call_ensures(invert, (mean, deviation, row.len() as usize), inverse)
            &&& scaled_row(finish, row, mean, inverse, scale, bias, result)
        }
}

/// Brings each row to a common mean and spread.
pub fn decoder_layer_norm<
    T: Copy,
    A: Copy,
    F: Fn(A, T) -> A,
    D: Fn(A, T, A) -> A,
    C: Fn(A, usize) -> A,
    V: Fn(A, A, usize) -> A,
    R: Fn(T, A, A, T, T) -> T,
>(
    take: &F,
    deviate: &D,
    center: &C,
    invert: &V,
    finish: &R,
    zero: A,
    input: &[T],
    scale: &[T],
    bias: &[T],
    rows: usize,
    width: usize,
) -> (result: Result<Vec<T>, DimensionError>)
    requires
        forall|sum: A, value: T| call_requires(*take, (sum, value)),
        forall|sum: A, value: T, mean: A| call_requires(*deviate, (sum, value, mean)),
        forall|sum: A, width: usize| call_requires(*center, (sum, width)),
        forall|mean: A, deviation: A, width: usize|
            call_requires(*invert, (mean, deviation, width)),
        forall|value: T, mean: A, inverse: A, factor: T, offset: T|
            call_requires(*finish, (value, mean, inverse, factor, offset)),
    ensures
        result is Ok <==> input@.len() == rows * width && scale@.len() == width && bias@.len()
            == width,
        result matches Ok(output) ==> output@.len() == rows * width && forall|row: int|
            0 <= row < rows ==> norm_row(
                *take,
                *deviate,
                *center,
                *invert,
                *finish,
                zero,
                row_of(input@, row, width as int),
                scale@,
                bias@,
                #[trigger] row_of(output@, row, width as int),
            ),
{
    let len: usize = input.len();
    if !is_product(len, rows, width) || scale.len() != width || bias.len() != width {
        return Err(DimensionError);
    }
    let mut output: Vec<T> = Vec::new();
    assert(0 * width == 0) by (nonlinear_arith);
    for row in 0..rows
        invariant
            forall|sum: A, value: T| call_requires(*take, (sum, value)),
            forall|sum: A, value: T, mean: A| call_requires(*deviate, (sum, value, mean)),
            forall|sum: A, width: usize| call_requires(*center, (sum, width)),
            forall|mean: A, deviation: A, width: usize|
                call_requires(*invert, (mean, deviation, width)),
            forall|value: T, mean: A, inverse: A, factor: T, offset: T|
                call_requires(*finish, (value, mean, inverse, factor, offset)),
            len == input@.len() == rows * width,
            scale@.len() == width,
            bias@.len() == width,
            output@.len() == row * width,
            forall|above: int|
                0 <= above < row ==> norm_row(
                    *take,
                    *deviate,
                    *center,
                    *invert,
                    *finish,
                    zero,
                    row_of(input@, above, width as int),
                    scale@,
                    bias@,
                    #[trigger] row_of(output@, above, width as int),
                ),
    {
        proof {
            lemma_row_inside(row as int, rows as int, width as int);
        }
        let start: usize = row * width;
        let values: &[T] = slice_subrange(input, start, start + width);
        let sum: A = gather_all(take, zero, values);
        let mean: A = center(sum, width);
        let deviation: A = gather_around(deviate, mean, zero, values, 0, 1, width);
        let inverse: A = invert(mean, deviation, width);
        let mut finished: Vec<T> = scale_row(finish, values, mean, inverse, scale, bias);
        let ghost before = output@;
        let ghost more = finished@;
        assert(series(values@, 0, 1, width as int) =~= values@);
        assert(values@.len() as usize == width);
        assert(call_ensures(*center, (sum, values@.len() as usize), mean));
        assert(call_ensures(*invert, (mean, deviation, values@.len() as usize), inverse));
        assert(norm_row(
            *take,
            *deviate,
            *center,
            *invert,
            *finish,
            zero,
            row_of(input@, row as int, width as int),
            scale@,
            bias@,
            more,
        ));
        output.append(&mut finished);
        proof {
            lemma_row_appended(before, more, row as int, width as int);
            assert(output@ =~= before + more);
        }
    }
    Ok(output)
}

/// The sums of a row's exponentials in lanes, each over every fourth value.
pub open spec fn exponential_lanes<T, A, F: Fn(A, T, A) -> A>(
    take: F,
    row: Seq<T>,
    maximum: A,
    zero: A,
    sums: (A, A, A, A),
) -> bool {
    let count = row.len() as int / LANES as int;
    let lane = |first: int| series(row, first, LANES as int, count);
    &&& gathers_around(take, lane(0), maximum, zero, sums.0)
    &&& gathers_around(take, lane(1), maximum, zero, sums.1)
    &&& gathers_around(take, lane(2), maximum, zero, sums.2)
    &&& gathers_around(take, lane(3), maximum, zero, sums.3)
}

/// The sum of a row's exponentials: two and two lanes are added to each other, and the values that
/// fill no lanes are taken in after them.
pub open spec fn exponential_sum<T, A, F: Fn(A, T, A) -> A, G: Fn(A, T, A) -> A, P: Fn(A, A) -> A>(
    take: F,
    take_rest: G,
    plus: P,
    row: Seq<T>,
    maximum: A,
    zero: A,
    result: A,
) -> bool {
    exists|sums: (A, A, A, A), first: A, second: A, joined: A|
        {
            &&& exponential_lanes(take, row, maximum, zero, sums)
            &&& #[trigger] call_ensures(plus, (sums.0, sums.1), first)
            &&& #[trigger] call_ensures(plus, (sums.2, sums.3), second)
            &&& #[trigger] call_ensures(plus, (first, second), joined)
            &&& gathers_around(
                take_rest,
                row.skip(row.len() as int / LANES as int * LANES as int),
                maximum,
                joined,
                result,
            )
        }
}

/// Adds up the exponentials of values, each seen from the greatest one.
pub fn decoder_log_softmax_denominator<
    T: Copy,
    A: Copy,
    F: Fn(A, T, A) -> A,
    G: Fn(A, T, A) -> A,
    P: Fn(A, A) -> A,
>(take: &F, take_rest: &G, plus: &P, zero: A, values: &[T], maximum: A) -> (result: A)
    requires
        forall|sum: A, value: T, maximum: A| call_requires(*take, (sum, value, maximum)),
        forall|sum: A, value: T, maximum: A| call_requires(*take_rest, (sum, value, maximum)),
        forall|one: A, other: A| call_requires(*plus, (one, other)),
    ensures
        exponential_sum(*take, *take_rest, *plus, values@, maximum, zero, result),
{
    let len: usize = values.len();
    let count: usize = len / LANES;
    let sums: (A, A, A, A) = (
        gather_around(take, maximum, zero, values, 0, LANES, count),
        gather_around(take, maximum, zero, values, 1, LANES, count),
        gather_around(take, maximum, zero, values, 2, LANES, count),
        gather_around(take, maximum, zero, values, 3, LANES, count),
    );
    assert(exponential_lanes(*take, values@, maximum, zero, sums));
    let first: A = plus(sums.0, sums.1);
    let second: A = plus(sums.2, sums.3);
    let joined: A = plus(first, second);
    let done: usize = count * LANES;
    let ghost rest = values@.skip(done as int);
    assert(series(values@, done as int, 1, len - done) =~= rest);
    gather_around(take_rest, maximum, joined, values, done, 1, len - done)
}

/// A row after its greatest value and the logarithm of its exponentials' sum were taken from each
/// value.
pub open spec fn log_softmax_row<
    T,
    A,
    L: Fn(A, T) -> A,
    F: Fn(A, T, A) -> A,
    G: Fn(A, T, A) -> A,
    P: Fn(A, A) -> A,
    N: Fn(A, A) -> A,
    R: Fn(T, A) -> T,
>(
    larger: L,
    take: F,
    take_rest: G,
    plus: P,
    normalize: N,
    finish: R,
    lowest: A,
    zero: A,
    row: Seq<T>,
    result: Seq<T>,
) -> bool {
    exists|maximum: A, denominator: A, normalizer: A|
        {
            &&& gathers(larger, row, lowest, maximum)
            &&& exponential_sum(take, take_rest, plus, row, maximum, zero, denominator)
            &&& #[trigger] call_ensures(normalize, (maximum, denominator), normalizer)
            &&& maps_around(finish, row, normalizer, result)
        }
}

/// The logarithms of each row's values after the row is brought to a sum of one.
pub fn decoder_log_softmax<
    T: Copy,
    A: Copy,
    L: Fn(A, T) -> A,
    F: Fn(A, T, A) -> A,
    G: Fn(A, T, A) -> A,
    P: Fn(A, A) -> A,
    N: Fn(A, A) -> A,
    R: Fn(T, A) -> T,
>(
    larger: &L,
    take: &F,
    take_rest: &G,
    plus: &P,
    normalize: &N,
    finish: &R,
    lowest: A,
    zero: A,
    input: &[T],
    rows: usize,
    width: usize,
) -> (result: Result<Vec<T>, DimensionError>)
    requires
        forall|maximum: A, value: T| call_requires(*larger, (maximum, value)),
        forall|sum: A, value: T, maximum: A| call_requires(*take, (sum, value, maximum)),
        forall|sum: A, value: T, maximum: A| call_requires(*take_rest, (sum, value, maximum)),
        forall|one: A, other: A| call_requires(*plus, (one, other)),
        forall|maximum: A, denominator: A| call_requires(*normalize, (maximum, denominator)),
        forall|value: T, normalizer: A| call_requires(*finish, (value, normalizer)),
    ensures
        result is Ok <==> input@.len() == rows * width && width > 0,
        result matches Ok(output) ==> output@.len() == rows * width && forall|row: int|
            0 <= row < rows ==> log_softmax_row(
                *larger,
                *take,
                *take_rest,
                *plus,
                *normalize,
                *finish,
                lowest,
                zero,
                row_of(input@, row, width as int),
                #[trigger] row_of(output@, row, width as int),
            ),
{
    let len: usize = input.len();
    if !is_product(len, rows, width) || width == 0 {
        return Err(DimensionError);
    }
    let mut output: Vec<T> = Vec::new();
    assert(0 * width == 0) by (nonlinear_arith);
    for row in 0..rows
        invariant
            forall|maximum: A, value: T| call_requires(*larger, (maximum, value)),
            forall|sum: A, value: T, maximum: A| call_requires(*take, (sum, value, maximum)),
            forall|sum: A, value: T, maximum: A| call_requires(*take_rest, (sum, value, maximum)),
            forall|one: A, other: A| call_requires(*plus, (one, other)),
            forall|maximum: A, denominator: A| call_requires(*normalize, (maximum, denominator)),
            forall|value: T, normalizer: A| call_requires(*finish, (value, normalizer)),
            len == input@.len() == rows * width,
            output@.len() == row * width,
            forall|above: int|
                0 <= above < row ==> log_softmax_row(
                    *larger,
                    *take,
                    *take_rest,
                    *plus,
                    *normalize,
                    *finish,
                    lowest,
                    zero,
                    row_of(input@, above, width as int),
                    #[trigger] row_of(output@, above, width as int),
                ),
    {
        proof {
            lemma_row_inside(row as int, rows as int, width as int);
        }
        let start: usize = row * width;
        let values: &[T] = slice_subrange(input, start, start + width);
        let maximum: A = gather_all(larger, lowest, values);
        let denominator: A = decoder_log_softmax_denominator(
            take,
            take_rest,
            plus,
            zero,
            values,
            maximum,
        );
        let normalizer: A = normalize(maximum, denominator);
        let mut finished: Vec<T> = map_around(finish, values, normalizer);
        let ghost before = output@;
        let ghost more = finished@;
        assert(log_softmax_row(
            *larger,
            *take,
            *take_rest,
            *plus,
            *normalize,
            *finish,
            lowest,
            zero,
            row_of(input@, row as int, width as int),
            more,
        ));
        output.append(&mut finished);
        proof {
            lemma_row_appended(before, more, row as int, width as int);
            assert(output@ =~= before + more);
        }
    }
    Ok(output)
}

/// Exact gathering adds up the values.
pub proof fn law_gathering_adds_up<F: Fn(i64, i64) -> i64>(
    take: F,
    values: Seq<i64>,
    start: i64,
    result: i64,
)
    requires
        kernels::exact_sum(take),
        gathers(take, values, start, result),
    ensures
        result == start + kernels::total(|index: int| values[index] as int, values.len() as int),
    decreases values.len(),
{
    if values.len() > 0 {
        let shorter = values.drop_last();
        let before = choose|before: i64|
            {
                &&& gathers(take, shorter, start, before)
                &&& #[trigger] call_ensures(take, (before, values.last()), result)
            };
        law_gathering_adds_up(take, shorter, start, before);
        kernels::lemma_same_total(
            |index: int| shorter[index] as int,
            |index: int| values[index] as int,
            shorter.len() as int,
        );
    }
}

/// The larger of two numbers is taken.
pub open spec fn takes_larger<F: Fn(i64, i64) -> i64>(larger: F) -> bool {
    forall|one: i64, other: i64, result: i64|
        #[trigger] call_ensures(larger, (one, other), result) ==> result >= one && result >= other
            && (result == one || result == other)
}

/// Gathering the larger number finds the greatest one.
pub proof fn law_gathering_finds_the_greatest<F: Fn(i64, i64) -> i64>(
    larger: F,
    values: Seq<i64>,
    start: i64,
    result: i64,
)
    requires
        takes_larger(larger),
        gathers(larger, values, start, result),
    ensures
        result >= start,
        forall|index: int| 0 <= index < values.len() ==> #[trigger] values[index] <= result,
        result == start || values.contains(result),
    decreases values.len(),
{
    if values.len() > 0 {
        let shorter = values.drop_last();
        let before = choose|before: i64|
            {
                &&& gathers(larger, shorter, start, before)
                &&& #[trigger] call_ensures(larger, (before, values.last()), result)
            };
        law_gathering_finds_the_greatest(larger, shorter, start, before);
        assert forall|index: int| 0 <= index < values.len() implies #[trigger] values[index]
            <= result by {
            if index < shorter.len() {
                assert(values[index] == shorter[index]);
            }
        }
        if result == values.last() {
            assert(values[values.len() - 1] == result);
        } else if result != start {
            let at = choose|at: int| 0 <= at < shorter.len() && shorter[at] == result;
            assert(values[at] == result);
        }
    }
}

/// What each value adds, seen from a center, is added exactly.
pub open spec fn exact_around<F: Fn(i64, i64, i64) -> i64>(
    take: F,
    term: spec_fn(i64, i64) -> int,
) -> bool {
    forall|sum: i64, value: i64, center: i64, result: i64|
        #[trigger] call_ensures(take, (sum, value, center), result) ==> result == sum + term(
            value,
            center,
        )
}

/// Exact gathering around a center adds up what each value adds.
pub proof fn law_gathering_around_adds_up<F: Fn(i64, i64, i64) -> i64>(
    take: F,
    term: spec_fn(i64, i64) -> int,
    values: Seq<i64>,
    center: i64,
    start: i64,
    result: i64,
)
    requires
        exact_around(take, term),
        gathers_around(take, values, center, start, result),
    ensures
        result == start + kernels::total(
            |index: int| term(values[index], center),
            values.len() as int,
        ),
    decreases values.len(),
{
    if values.len() > 0 {
        let shorter = values.drop_last();
        let before = choose|before: i64|
            {
                &&& gathers_around(take, shorter, center, start, before)
                &&& #[trigger] call_ensures(take, (before, values.last(), center), result)
            };
        law_gathering_around_adds_up(take, term, shorter, center, start, before);
        kernels::lemma_same_total(
            |index: int| term(shorter[index], center),
            |index: int| term(values[index], center),
            shorter.len() as int,
        );
    }
}

/// A row of weights is made of the row's greatest value and of the sum of all its exponentials: each
/// weight is finished from its own exponential, seen from the greatest value, and that sum.
pub proof fn law_softmax_divides_by_the_whole_sum<
    L: Fn(i64, i64) -> i64,
    E: Fn(i64, i64) -> i64,
    P: Fn(i64, i64) -> i64,
    R: Fn(i64, i64) -> i64,
>(
    larger: L,
    exponential: E,
    plus: P,
    finish: R,
    lowest: i64,
    row: Seq<i64>,
    result: Seq<i64>,
) -> (found: (i64, Seq<i64>, i64))
    requires
        takes_larger(larger),
        kernels::exact_sum(plus),
        forall|index: int| 0 <= index < row.len() ==> lowest <= #[trigger] row[index],
        row.len() > 0,
        softmax_row(larger, exponential, plus, finish, lowest, 0, row, result),
    ensures
        ({
            let (greatest, terms, sum) = found;
            &&& row.contains(greatest)
            &&& forall|index: int| 0 <= index < row.len() ==> #[trigger] row[index] <= greatest
            &&& terms.len() == row.len()
            &&& result.len() == row.len()
            &&& sum == kernels::total(|index: int| terms[index] as int, row.len() as int)
            &&& forall|index: int|
                0 <= index < row.len() ==> call_ensures(
                    exponential,
                    (row[index], greatest),
                    #[trigger] terms[index],
                ) && call_ensures(finish, (terms[index], sum), result[index])
        }),
{
    let (greatest, terms, sum) = choose|maximum: i64, terms: Seq<i64>, sum: i64|
        {
            &&& #[trigger] gathers(larger, row, lowest, maximum)
            &&& maps_around(exponential, row, maximum, terms)
            &&& #[trigger] gathers(plus, terms, 0, sum)
            &&& maps_around(finish, terms, sum, result)
        };
    law_gathering_finds_the_greatest(larger, row, lowest, greatest);
    law_gathering_adds_up(plus, terms, 0, sum);
    if greatest == lowest {
        assert(row[0] == greatest);
    }
    assert forall|index: int| 0 <= index < row.len() implies call_ensures(
        exponential,
        (row[index], greatest),
        #[trigger] terms[index],
    ) && call_ensures(finish, (terms[index], sum), result[index]) by {
        assert(call_ensures(finish, (terms[index], sum), result[index]));
    }
    (greatest, terms, sum)
}

/// The sum of a row's exponentials takes in every value of the row once, those that fill no lanes
/// too.
pub proof fn law_exponential_sums_take_in_every_value<
    F: Fn(i64, i64, i64) -> i64,
    G: Fn(i64, i64, i64) -> i64,
    P: Fn(i64, i64) -> i64,
>(
    take: F,
    take_rest: G,
    plus: P,
    term: spec_fn(i64, i64) -> int,
    row: Seq<i64>,
    maximum: i64,
    result: i64,
)
    requires
        exact_around(take, term),
        exact_around(take_rest, term),
        kernels::exact_sum(plus),
        exponential_sum(take, take_rest, plus, row, maximum, 0, result),
    ensures
        result == kernels::total(|index: int| term(row[index], maximum), row.len() as int),
{
    let count = row.len() as int / LANES as int;
    let main = count * LANES as int;
    let rest = row.skip(main);
    let (sums, first, second, joined) = choose|
        sums: (i64, i64, i64, i64),
        first: i64,
        second: i64,
        joined: i64,
    |
        {
            &&& exponential_lanes(take, row, maximum, 0, sums)
            &&& #[trigger] call_ensures(plus, (sums.0, sums.1), first)
            &&& #[trigger] call_ensures(plus, (sums.2, sums.3), second)
            &&& #[trigger] call_ensures(plus, (first, second), joined)
            &&& gathers_around(take_rest, rest, maximum, joined, result)
        };
    let terms = |index: int| term(row[index], maximum);
    law_gathering_around_adds_up(take, term, series(row, 0, 4, count), maximum, 0, sums.0);
    law_gathering_around_adds_up(take, term, series(row, 1, 4, count), maximum, 0, sums.1);
    law_gathering_around_adds_up(take, term, series(row, 2, 4, count), maximum, 0, sums.2);
    law_gathering_around_adds_up(take, term, series(row, 3, 4, count), maximum, 0, sums.3);
    law_gathering_around_adds_up(take_rest, term, rest, maximum, joined, result);
    kernels::lemma_same_total(
        |index: int| term(series(row, 0, 4, count)[index], maximum),
        |index: int| terms(4 * index),
        count,
    );
    kernels::lemma_same_total(
        |index: int| term(series(row, 1, 4, count)[index], maximum),
        |index: int| terms(4 * index + 1),
        count,
    );
    kernels::lemma_same_total(
        |index: int| term(series(row, 2, 4, count)[index], maximum),
        |index: int| terms(4 * index + 2),
        count,
    );
    kernels::lemma_same_total(
        |index: int| term(series(row, 3, 4, count)[index], maximum),
        |index: int| terms(4 * index + 3),
        count,
    );
    kernels::lemma_total_of_four(terms, count);
    kernels::lemma_same_total(
        |index: int| term(rest[index], maximum),
        |index: int| terms(main + index),
        rest.len() as int,
    );
    kernels::lemma_split_total(terms, main, rest.len() as int);
}

/// A row is brought to its own mean and spread: the mean comes of the sum of all its values, the
/// spread of what all of them are away from that mean, and each value is finished with both and with
/// the scale and the bias in its place.
pub proof fn law_norms_see_the_whole_row<
    F: Fn(i64, i64) -> i64,
    D: Fn(i64, i64, i64) -> i64,
    C: Fn(i64, usize) -> i64,
    V: Fn(i64, i64, usize) -> i64,
    R: Fn(i64, i64, i64, i64, i64) -> i64,
>(
    take: F,
    deviate: D,
    center: C,
    invert: V,
    finish: R,
    away: spec_fn(i64, i64) -> int,
    row: Seq<i64>,
    scale: Seq<i64>,
    bias: Seq<i64>,
    result: Seq<i64>,
) -> (found: (i64, i64, i64, i64))
    requires
        kernels::exact_sum(take),
        exact_around(deviate, away),
        norm_row(take, deviate, center, invert, finish, 0, row, scale, bias, result),
    ensures
        ({
            let (sum, deviation, mean, inverse) = found;
            &&& sum == kernels::total(|index: int| row[index] as int, row.len() as int)
            &&& call_ensures(center, (sum, row.len() as usize), mean)
            &&& deviation == kernels::total(
                |index: int| away(row[index], mean),
                row.len() as int,
            )
            &&& call_ensures(invert, (mean, deviation, row.len() as usize), inverse)
            &&& result.len() == row.len()
            &&& forall|index: int|
                0 <= index < row.len() ==> call_ensures(
                    finish,
                    (row[index], mean, inverse, scale[index], bias[index]),
                    #[trigger] result[index],
                )
        }),
{
    let (sum, deviation, mean, inverse) = choose|
        sum: i64,
        deviation: i64,
        mean: i64,
        inverse: i64,
    |
        {
            &&& gathers(take, row, 0, sum)
            &&& #[trigger] call_ensures(center, (sum, row.len() as usize), mean)
            &&& gathers_around(deviate, row, mean, 0, deviation)
            &&& #[trigger] call_ensures(invert, (mean, deviation, row.len() as usize), inverse)
            &&& scaled_row(finish, row, mean, inverse, scale, bias, result)
        };
    law_gathering_adds_up(take, row, 0, sum);
    law_gathering_around_adds_up(deviate, away, row, mean, 0, deviation);
    (sum, deviation, mean, inverse)
}

/// What each value adds is added exactly.
pub open spec fn exact_terms<F: Fn(i64, i64) -> i64>(
    take: F,
    term: spec_fn(i64) -> int,
) -> bool {
    forall|sum: i64, value: i64, result: i64|
        #[trigger] call_ensures(take, (sum, value), result) ==> result == sum + term(value)
}

proof fn lemma_gathered_terms<F: Fn(i64, i64) -> i64>(
    take: F,
    term: spec_fn(i64) -> int,
    values: Seq<i64>,
    terms: spec_fn(int) -> int,
    result: i64,
)
    requires
        exact_terms(take, term),
        gathers(take, values, 0, result),
        forall|index: int|
            0 <= index < values.len() ==> #[trigger] terms(index) == term(values[index]),
    ensures
        result == kernels::total(terms, values.len() as int),
    decreases values.len(),
{
    if values.len() > 0 {
        let shorter = values.drop_last();
        let before = choose|before: i64|
            {
                &&& gathers(take, shorter, 0, before)
                &&& #[trigger] call_ensures(take, (before, values.last()), result)
            };
        lemma_gathered_terms(take, term, shorter, terms, before);
        assert(terms(values.len() - 1) == term(values.last()));
    }
}

/// Lanes that are added to each other make the sum of what all values of the row add.
pub proof fn law_lanes_add_up_all_terms<F: Fn(i64, i64) -> i64, P: Fn(i64, i64) -> i64>(
    take: F,
    plus: P,
    term: spec_fn(i64) -> int,
    row: Seq<i64>,
    sum: i64,
)
    requires
        exact_terms(take, term),
        kernels::exact_sum(plus),
        row.len() % 4 == 0,
        lane_total(take, plus, row, 0, sum),
    ensures
        sum == kernels::total(|index: int| term(row[index]), row.len() as int),
{
    let (sums, first, second) = choose|sums: (i64, i64, i64, i64), first: i64, second: i64|
        {
            &&& lane_sums(take, row, 0, sums)
            &&& #[trigger] call_ensures(plus, (sums.0, sums.1), first)
            &&& #[trigger] call_ensures(plus, (first, sums.2), second)
            &&& call_ensures(plus, (second, sums.3), sum)
        };
    let count = row.len() as int / LANES as int;
    let terms = |index: int| term(row[index]);
    lemma_gathered_terms(
        take,
        term,
        series(row, 0, 4, count),
        |index: int| terms(4 * index),
        sums.0,
    );
    lemma_gathered_terms(
        take,
        term,
        series(row, 1, 4, count),
        |index: int| terms(4 * index + 1),
        sums.1,
    );
    lemma_gathered_terms(
        take,
        term,
        series(row, 2, 4, count),
        |index: int| terms(4 * index + 2),
        sums.2,
    );
    lemma_gathered_terms(
        take,
        term,
        series(row, 3, 4, count),
        |index: int| terms(4 * index + 3),
        sums.3,
    );
    kernels::lemma_total_of_four(terms, count);
    assert(4 * count == row.len());
}

/// A row whose sums are made in lanes is brought to its own mean and spread too: both come of all its
/// values, and each value is finished with both and with the scale and the bias in its place.
pub proof fn law_laned_norms_see_the_whole_row<
    F: Fn(i64, i64) -> i64,
    S: Fn(i64, i64) -> i64,
    P: Fn(i64, i64) -> i64,
    C: Fn(i64, usize) -> i64,
    V: Fn(i64, i64, usize) -> i64,
    R: Fn(i64, i64, i64, i64, i64) -> i64,
>(
    take: F,
    square: S,
    plus: P,
    center: C,
    invert: V,
    finish: R,
    row: Seq<i64>,
    scale: Seq<i64>,
    bias: Seq<i64>,
    result: Seq<i64>,
) -> (found: (i64, i64, i64, i64))
    requires
        exact_terms(take, |value: i64| value as int),
        exact_terms(square, |value: i64| value * value),
        kernels::exact_sum(plus),
        row.len() % 4 == 0,
        laned_norm_row(
            take,
            square,
            plus,
            center,
            invert,
            finish,
            0,
            row,
            scale,
            bias,
            result,
        ),
    ensures
        ({
            let (sum, squares, mean, inverse) = found;
            &&& sum == kernels::total(|index: int| row[index] as int, row.len() as int)
            &&& squares == kernels::total(|index: int| row[index] * row[index], row.len() as int)
            &&& call_ensures(center, (sum, row.len() as usize), mean)
            &&& call_ensures(invert, (mean, squares, row.len() as usize), inverse)
            &&& result.len() == row.len()
            &&& forall|index: int|
                0 <= index < row.len() ==> call_ensures(
                    finish,
                    (row[index], mean, inverse, scale[index], bias[index]),
                    #[trigger] result[index],
                )
        }),
{
    let (sum, squares, mean, inverse) = choose|sum: i64, squares: i64, mean: i64, inverse: i64|
        {
            &&& lane_total(take, plus, row, 0, sum)
            &&& lane_total(square, plus, row, 0, squares)
            &&& #[trigger] call_ensures(center, (sum, row.len() as usize), mean)
            &&& #[trigger] call_ensures(invert, (mean, squares, row.len() as usize), inverse)
            &&& scaled_row(finish, row, mean, inverse, scale, bias, result)
        };
    let own = |value: i64| value as int;
    let squared = |value: i64| value * value;
    law_lanes_add_up_all_terms(take, plus, own, row, sum);
    law_lanes_add_up_all_terms(square, plus, squared, row, squares);
    kernels::lemma_same_total(
        |index: int| own(row[index]),
        |index: int| row[index] as int,
        row.len() as int,
    );
    kernels::lemma_same_total(
        |index: int| squared(row[index]),
        |index: int| row[index] * row[index],
        row.len() as int,
    );
    (sum, squares, mean, inverse)
}

}
