//! The layers of the labelling models over numbers of any kind.
//!
//! The arithmetic is handed in as functions. What is stated here is which numbers of which rows
//! meet.

use vstd::prelude::*;
use vstd::slice::slice_subrange;

use crate::heads;
use crate::heads::{broadcast_place, merge_heads, split_heads};
use crate::kernels;
use crate::kernels::{
    build, is_product, offset, punctuation_context, punctuation_qk, DimensionError,
};
use crate::normalization;
use crate::normalization::punctuation_softmax;

verus! {

/// `result` holds what comes of each value.
pub open spec fn maps<T, U, F: Fn(T) -> U>(change: F, values: Seq<T>, result: Seq<U>) -> bool {
    &&& result.len() == values.len()
    &&& forall|index: int|
        0 <= index < values.len() ==> call_ensures(
            change,
            (values[index],),
            #[trigger] result[index],
        )
}

/// Changes each value.
pub fn map_values<T: Copy, U, F: Fn(T) -> U>(change: &F, values: &[T]) -> (result: Vec<U>)
    requires
        forall|value: T| call_requires(*change, (value,)),
    ensures
        maps(*change, values@, result@),
{
    let mut result: Vec<U> = Vec::new();
    for index in 0..values.len()
        invariant
            forall|value: T| call_requires(*change, (value,)),
            result@.len() == index,
            forall|place: int|
                0 <= place < index ==> call_ensures(
                    *change,
                    (values@[place],),
                    #[trigger] result@[place],
                ),
    {
        let ghost before = result@;
        let value: U = change(values[index]);
        result.push(value);
        assert(forall|place: int| 0 <= place < index ==> #[trigger] result@[place] == before[place]);
    }
    result
}

/// The products of each query with the keys of its head.
pub open spec fn are_products<T, F: Fn(T, T, T) -> T>(
    take: F,
    zero: T,
    query: Seq<T>,
    key: Seq<T>,
    heads: int,
    rows: int,
    width: int,
    products: Seq<T>,
) -> bool {
    &&& products.len() == heads * rows * rows
    &&& forall|row: usize, column: usize|
        row < heads * rows && column < rows ==> kernels::qk_cell(
            take,
            zero,
            query,
            key,
            rows,
            width,
            row as int,
            column as int,
            #[trigger] products[kernels::cell(row as int, column as int, rows)],
        )
}

/// The values of each head, weighed for each of its rows.
pub open spec fn are_contexts<T, F: Fn(T, T, T) -> T>(
    take: F,
    zero: T,
    weights: Seq<T>,
    values: Seq<T>,
    heads: int,
    rows: int,
    width: int,
    context: Seq<T>,
) -> bool {
    &&& context.len() == heads * rows * width
    &&& forall|row: usize, column: usize|
        row < heads * rows && column < width ==> kernels::context_cell(
            take,
            zero,
            weights,
            values,
            rows,
            rows,
            width,
            row as int,
            column as int,
            #[trigger] context[kernels::cell(row as int, column as int, width)],
        )
}

/// The weights that scores give: each row of scores is brought to a sum of one.
pub open spec fn are_weights<
    T,
    L: Fn(T, T) -> T,
    E: Fn(T, T) -> T,
    P: Fn(T, T) -> T,
    R: Fn(T, T) -> T,
>(
    larger: L,
    exponential: E,
    plus: P,
    divide: R,
    lowest: T,
    zero: T,
    scores: Seq<T>,
    lines: int,
    rows: int,
    weights: Seq<T>,
) -> bool {
    &&& weights.len() == lines * rows
    &&& forall|line: int|
        0 <= line < lines ==> normalization::softmax_row(
            larger,
            exponential,
            plus,
            divide,
            lowest,
            zero,
            normalization::row_of(scores, line, rows),
            #[trigger] normalization::row_of(weights, line, rows),
        )
}

/// What each row gathers from all rows, head by head: queries are scaled by `before` and their
/// products with the keys by `after`, and the values are weighed by what the scores give.
pub open spec fn attends<
    T,
    F: Fn(T, T, T) -> T,
    B: Fn(T) -> T,
    C: Fn(T) -> T,
    L: Fn(T, T) -> T,
    E: Fn(T, T) -> T,
    P: Fn(T, T) -> T,
    R: Fn(T, T) -> T,
>(
    take: F,
    before: B,
    after: C,
    larger: L,
    exponential: E,
    plus: P,
    divide: R,
    lowest: T,
    zero: T,
    joint: Seq<T>,
    rows: int,
    heads: int,
    width: int,
    result: Seq<T>,
) -> bool {
    exists|query: Seq<T>, products: Seq<T>, scores: Seq<T>, weights: Seq<T>, context: Seq<T>|
        {
            &&& #[trigger] maps(before, heads::heads_of(joint, rows, 0, heads, width), query)
            &&& #[trigger] are_products(
                take,
                zero,
                query,
                heads::heads_of(joint, rows, 1, heads, width),
                heads,
                rows,
                width,
                products,
            )
            &&& #[trigger] maps(after, products, scores)
            &&& #[trigger] are_weights(
                larger,
                exponential,
                plus,
                divide,
                lowest,
                zero,
                scores,
                heads * rows,
                rows,
                weights,
            )
            &&& #[trigger] are_contexts(
                take,
                zero,
                weights,
                heads::heads_of(joint, rows, 2, heads, width),
                heads,
                rows,
                width,
                context,
            )
            &&& result == heads::rows_of(context, rows, heads, width)
        }
}

/// The joint rows hold queries, keys and values of all heads.
pub open spec fn is_joint(len: int, rows: int, heads: int, width: int) -> bool {
    rows > 0 && width > 0 && len == rows * 3 * heads * width
}

fn check_joint(len: usize, rows: usize, heads: usize, width: usize) -> (result: bool)
    ensures
        result == is_joint(len as int, rows as int, heads as int, width as int),
        result ==> heads * rows <= usize::MAX && heads * width <= usize::MAX,
{
    if rows == 0 || width == 0 {
        return false;
    }
    proof {
        let lines = rows * 3 * heads;
        assert(lines <= lines * width && (heads == 0 ==> lines * width == 0)) by (nonlinear_arith)
            requires
                lines == rows * 3 * heads,
                rows >= 1,
                heads >= 0,
                width >= 1,
        ;
        assert(heads * rows <= lines * width && heads * width <= lines * width)
            by (nonlinear_arith)
            requires
                lines == rows * 3 * heads,
                rows >= 1,
                heads >= 0,
                width >= 1,
        ;
        assert(heads > 0 ==> rows * 3 <= lines) by (nonlinear_arith)
            requires
                lines == rows * 3 * heads,
                rows >= 1,
                heads >= 0,
        ;
    }
    if heads == 0 {
        return len == 0;
    }
    match rows.checked_mul(3) {
        Some(parts) => match parts.checked_mul(heads) {
            Some(lines) => match lines.checked_mul(width) {
                Some(total) => len == total,
                None => false,
            },
            None => false,
        },
        None => false,
    }
}

/// Lets each row gather from all rows, head by head.
pub fn self_attention<
    T: Copy,
    F: Fn(T, T, T) -> T,
    B: Fn(T) -> T,
    C: Fn(T) -> T,
    L: Fn(T, T) -> T,
    E: Fn(T, T) -> T,
    P: Fn(T, T) -> T,
    R: Fn(T, T) -> T,
>(
    take: &F,
    before: &B,
    after: &C,
    larger: &L,
    exponential: &E,
    plus: &P,
    divide: &R,
    lowest: T,
    zero: T,
    joint: &[T],
    rows: usize,
    heads: usize,
    width: usize,
) -> (result: Result<Vec<T>, DimensionError>)
    requires
        forall|sum: T, one: T, other: T| call_requires(*take, (sum, one, other)),
        forall|value: T| call_requires(*before, (value,)),
        forall|value: T| call_requires(*after, (value,)),
        forall|maximum: T, value: T| call_requires(*larger, (maximum, value)),
        forall|value: T, maximum: T| call_requires(*exponential, (value, maximum)),
        forall|sum: T, term: T| call_requires(*plus, (sum, term)),
        forall|term: T, sum: T| call_requires(*divide, (term, sum)),
    ensures
        result is Ok <==> is_joint(joint@.len() as int, rows as int, heads as int, width as int),
        result matches Ok(output) ==> attends(
            *take,
            *before,
            *after,
            *larger,
            *exponential,
            *plus,
            *divide,
            lowest,
            zero,
            joint@,
            rows as int,
            heads as int,
            width as int,
            output@,
        ),
{
    if !check_joint(joint.len(), rows, heads, width) {
        return Err(DimensionError);
    }
    let lines: usize = heads * rows;
    let query: Vec<T> = map_values(before, &split_heads(joint, rows, 0, heads, width));
    let key: Vec<T> = split_heads(joint, rows, 1, heads, width);
    let values: Vec<T> = split_heads(joint, rows, 2, heads, width);
    let products: Vec<T> = match punctuation_qk(take, zero, &query, &key, heads, rows, width) {
        Ok(products) => products,
        Err(error) => {
            return Err(error);
        },
    };
    let scores: Vec<T> = map_values(after, &products);
    let weights: Vec<T> = match punctuation_softmax(
        larger,
        exponential,
        plus,
        divide,
        lowest,
        zero,
        &scores,
        lines,
        rows,
    ) {
        Ok(weights) => weights,
        Err(error) => {
            return Err(error);
        },
    };
    let context: Vec<T> = match punctuation_context(
        take,
        zero,
        &weights,
        &values,
        heads,
        rows,
        rows,
        width,
    ) {
        Ok(context) => context,
        Err(error) => {
            return Err(error);
        },
    };
    assert(are_products(
        *take,
        zero,
        query@,
        key@,
        heads as int,
        rows as int,
        width as int,
        products@,
    ));
    assert(are_weights(
        *larger,
        *exponential,
        *plus,
        *divide,
        lowest,
        zero,
        scores@,
        heads * rows,
        rows as int,
        weights@,
    ));
    assert(are_contexts(
        *take,
        zero,
        weights@,
        values@,
        heads as int,
        rows as int,
        width as int,
        context@,
    ));
    Ok(merge_heads(&context, rows, heads, width))
}

/// Adds values to others, each to the one in its place.
pub fn add_in_place<T: Copy, P: Fn(T, T) -> T>(plus: &P, left: &mut Vec<T>, right: &[T]) -> (result:
    Result<(), DimensionError>)
    requires
        forall|one: T, other: T| call_requires(*plus, (one, other)),
    ensures
        result is Ok <==> old(left)@.len() == right@.len(),
        result is Err ==> final(left)@ == old(left)@,
        result is Ok ==> final(left)@.len() == right@.len() && forall|index: int|
            0 <= index < right@.len() ==> call_ensures(
                *plus,
                (old(left)@[index], right@[index]),
                #[trigger] final(left)@[index],
            ),
{
    let count: usize = left.len();
    if count != right.len() {
        return Err(DimensionError);
    }
    let mut sums: Vec<T> = Vec::new();
    for index in 0..count
        invariant
            forall|one: T, other: T| call_requires(*plus, (one, other)),
            count == left@.len() == right@.len(),
            sums@.len() == index,
            forall|place: int|
                0 <= place < index ==> call_ensures(
                    *plus,
                    (left@[place], right@[place]),
                    #[trigger] sums@[place],
                ),
    {
        let ghost before = sums@;
        let sum: T = plus(left[index], right[index]);
        sums.push(sum);
        assert(forall|place: int| 0 <= place < index ==> #[trigger] sums@[place] == before[place]);
    }
    *left = sums;
    Ok(())
}

/// The value for a place: values that are fewer than the places come round again, and no values
/// give none.
pub open spec fn broadcast_value<T>(values: Seq<T>, place: int) -> Option<T> {
    if values.len() == 0 {
        None
    } else {
        Some(values[place % values.len() as int])
    }
}

fn value_at<T: Copy>(values: &[T], place: usize) -> (result: Option<T>)
    ensures
        result == broadcast_value(values@, place as int),
{
    match broadcast_place(values.len(), place) {
        Some(place) => Some(values[place]),
        None => None,
    }
}

/// Turns values into whole numbers, each by the scale of its place.
pub fn quantize_values<T: Copy, Q, F: Fn(T, Option<T>) -> Q>(
    quantize: &F,
    values: &[T],
    scale: &[T],
) -> (result: Vec<Q>)
    requires
        forall|value: T, scale: Option<T>| call_requires(*quantize, (value, scale)),
    ensures
        result@.len() == values@.len(),
        forall|index: int|
            0 <= index < values@.len() ==> call_ensures(
                *quantize,
                (values@[index], broadcast_value(scale@, index)),
                #[trigger] result@[index],
            ),
{
    let mut result: Vec<Q> = Vec::new();
    for index in 0..values.len()
        invariant
            forall|value: T, scale: Option<T>| call_requires(*quantize, (value, scale)),
            result@.len() == index,
            forall|place: int|
                0 <= place < index ==> call_ensures(
                    *quantize,
                    (values@[place], broadcast_value(scale@, place)),
                    #[trigger] result@[place],
                ),
    {
        let ghost before = result@;
        let value: Q = quantize(values[index], value_at(scale, index));
        result.push(value);
        assert(forall|place: int| 0 <= place < index ==> #[trigger] result@[place] == before[place]);
    }
    result
}

/// Turns sums of whole numbers back, each by the scale and the bias of its column.
pub fn dequantize_values<T: Copy, F: Fn(i32, Option<T>, Option<T>) -> T>(
    dequantize: &F,
    sums: &[i32],
    columns: usize,
    scale: &[T],
    bias: &[T],
) -> (result: Vec<T>)
    requires
        forall|sum: i32, scale: Option<T>, bias: Option<T>|
            call_requires(*dequantize, (sum, scale, bias)),
        columns > 0,
    ensures
        result@.len() == sums@.len(),
        forall|index: int|
            0 <= index < sums@.len() ==> call_ensures(
                *dequantize,
                (
                    sums@[index],
                    broadcast_value(scale@, index % columns as int),
                    broadcast_value(bias@, index % columns as int),
                ),
                #[trigger] result@[index],
            ),
{
    let mut result: Vec<T> = Vec::new();
    for index in 0..sums.len()
        invariant
            forall|sum: i32, scale: Option<T>, bias: Option<T>|
                call_requires(*dequantize, (sum, scale, bias)),
            columns > 0,
            result@.len() == index,
            forall|place: int|
                0 <= place < index ==> call_ensures(
                    *dequantize,
                    (
                        sums@[place],
                        broadcast_value(scale@, place % columns as int),
                        broadcast_value(bias@, place % columns as int),
                    ),
                    #[trigger] result@[place],
                ),
    {
        let ghost before = result@;
        let column: usize = index % columns;
        let value: T = dequantize(sums[index], value_at(scale, column), value_at(bias, column));
        result.push(value);
        assert(forall|place: int| 0 <= place < index ==> #[trigger] result@[place] == before[place]);
    }
    result
}

/// Blends hidden values with those of labels, each by its gate.
pub fn blend_values<T: Copy, F: Fn(T, T, T) -> T>(
    blend: &F,
    hidden: &[T],
    labels: &[T],
    gates: &[T],
) -> (result: Result<Vec<T>, DimensionError>)
    requires
        forall|hidden: T, label: T, gate: T| call_requires(*blend, (hidden, label, gate)),
    ensures
        result is Ok <==> labels@.len() == hidden@.len() && gates@.len() == hidden@.len(),
        result matches Ok(blended) ==> blended@.len() == hidden@.len() && forall|index: int|
            0 <= index < hidden@.len() ==> call_ensures(
                *blend,
                (hidden@[index], labels@[index], gates@[index]),
                #[trigger] blended@[index],
            ),
{
    let count: usize = hidden.len();
    if labels.len() != count || gates.len() != count {
        return Err(DimensionError);
    }
    let mut result: Vec<T> = Vec::new();
    for index in 0..count
        invariant
            forall|hidden: T, label: T, gate: T| call_requires(*blend, (hidden, label, gate)),
            count == hidden@.len() == labels@.len() == gates@.len(),
            result@.len() == index,
            forall|place: int|
                0 <= place < index ==> call_ensures(
                    *blend,
                    (hidden@[place], labels@[place], gates@[place]),
                    #[trigger] result@[place],
                ),
    {
        let ghost before = result@;
        let value: T = blend(hidden[index], labels[index], gates[index]);
        result.push(value);
        assert(forall|place: int| 0 <= place < index ==> #[trigger] result@[place] == before[place]);
    }
    Ok(result)
}

/// What comes of a number in an embedding whose last two columns also tell the features of a row.
pub open spec fn feature_cell<T, F: Fn(T, bool) -> T>(
    mark: F,
    value: T,
    features: Seq<bool>,
    row: int,
    column: int,
    width: int,
    result: T,
) -> bool {
    if column + 2 < width {
        result == value
    } else {
        call_ensures(mark, (value, features[row * 2 + (column + 2 - width)]), result)
    }
}

/// Marks the last two columns of each row by the two features of the row.
pub fn mark_features<T: Copy, F: Fn(T, bool) -> T>(
    mark: &F,
    hidden: &[T],
    features: &[bool],
    rows: usize,
    width: usize,
) -> (result: Result<Vec<T>, DimensionError>)
    requires
        forall|value: T, feature: bool| call_requires(*mark, (value, feature)),
    ensures
        result is Ok <==> hidden@.len() == rows * width && features@.len() == rows * 2 && width >= 2,
        result matches Ok(marked) ==> marked@.len() == rows * width && forall|
            row: usize,
            column: usize,
        |
            row < rows && column < width ==> feature_cell(
                *mark,
                hidden@[kernels::cell(row as int, column as int, width as int)],
                features@,
                row as int,
                column as int,
                width as int,
                #[trigger] marked@[kernels::cell(row as int, column as int, width as int)],
            ),
{
    let len: usize = hidden.len();
    let feature_count: usize = features.len();
    if !is_product(len, rows, width) || !is_product(feature_count, rows, 2) || width < 2 {
        return Err(DimensionError);
    }
    let element = |row: usize, column: usize| -> (value: T)
        requires
            row < rows,
            column < width,
        ensures
            feature_cell(
                *mark,
                hidden@[kernels::cell(row as int, column as int, width as int)],
                features@,
                row as int,
                column as int,
                width as int,
                value,
            ),
        {
            let start: usize = offset(row, width, rows, len);
            let first: usize = offset(row, 2, rows, feature_count);
            let value: T = hidden[start + column];
            if column < width - 2 {
                value
            } else {
                mark(value, features[first + (column - (width - 2))])
            }
        };
    Ok(build(rows, width, &element))
}

/// What comes of a number to which its position is added: the first half of a row takes one wave
/// and the second half the other.
pub open spec fn position_cell<T, F: Fn(T, usize, usize) -> T, G: Fn(T, usize, usize) -> T>(
    sine: F,
    cosine: G,
    value: T,
    row: usize,
    column: usize,
    width: usize,
    result: T,
) -> bool {
    let half = width as int / 2;
    if column < half {
        call_ensures(sine, (value, row, column), result)
    } else if column < half * 2 {
        call_ensures(cosine, (value, row, (column - half) as usize), result)
    } else {
        result == value
    }
}

/// Adds the positions of rows to their numbers.
pub fn add_positional_encoding<
    T: Copy,
    F: Fn(T, usize, usize) -> T,
    G: Fn(T, usize, usize) -> T,
>(sine: &F, cosine: &G, values: &[T], rows: usize, width: usize) -> (result: Result<
    Vec<T>,
    DimensionError,
>)
    requires
        forall|value: T, row: usize, index: usize| call_requires(*sine, (value, row, index)),
        forall|value: T, row: usize, index: usize| call_requires(*cosine, (value, row, index)),
    ensures
        result is Ok <==> values@.len() == rows * width,
        result matches Ok(placed) ==> placed@.len() == rows * width && forall|
            row: usize,
            column: usize,
        |
            row < rows && column < width ==> position_cell(
                *sine,
                *cosine,
                values@[kernels::cell(row as int, column as int, width as int)],
                row,
                column,
                width,
                #[trigger] placed@[kernels::cell(row as int, column as int, width as int)],
            ),
{
    let len: usize = values.len();
    if !is_product(len, rows, width) {
        return Err(DimensionError);
    }
    let half: usize = width / 2;
    let element = |row: usize, column: usize| -> (value: T)
        requires
            row < rows,
            column < width,
        ensures
            position_cell(
                *sine,
                *cosine,
                values@[kernels::cell(row as int, column as int, width as int)],
                row,
                column,
                width,
                value,
            ),
        {
            let start: usize = offset(row, width, rows, len);
            let value: T = values[start + column];
            if column < half {
                sine(value, row, column)
            } else if column - half < half {
                cosine(value, row, column - half)
            } else {
                value
            }
        };
    Ok(build(rows, width, &element))
}

/// Adds to the embeddings of pieces those of their type and of their position. Types stand in pairs,
/// of which the first one counts.
pub fn embed_pieces<T: Copy, F: Fn(T, T, T) -> T>(
    join: &F,
    words: &[T],
    types: &[T],
    positions: &[T],
    rows: usize,
    width: usize,
) -> (result: Result<Vec<T>, DimensionError>)
    requires
        forall|word: T, kind: T, position: T| call_requires(*join, (word, kind, position)),
    ensures
        result is Ok <==> words@.len() == rows * width && positions@.len() >= rows * width && (width
            > 0 ==> types@.len() >= width * 2 - 1),
        result matches Ok(embedded) ==> embedded@.len() == rows * width && forall|
            row: usize,
            column: usize,
        |
            row < rows && column < width ==> call_ensures(
                *join,
                (
                    words@[kernels::cell(row as int, column as int, width as int)],
                    types@[column * 2],
                    positions@[kernels::cell(row as int, column as int, width as int)],
                ),
                #[trigger] embedded@[kernels::cell(row as int, column as int, width as int)],
            ),
{
    let len: usize = words.len();
    let type_count: usize = types.len();
    if !is_product(len, rows, width) || positions.len() < len || (width > 0 && (type_count == 0
        || (type_count - 1) / 2 < width - 1)) {
        return Err(DimensionError);
    }
    let element = |row: usize, column: usize| -> (value: T)
        requires
            row < rows,
            column < width,
        ensures
            call_ensures(
                *join,
                (
                    words@[kernels::cell(row as int, column as int, width as int)],
                    types@[column * 2],
                    positions@[kernels::cell(row as int, column as int, width as int)],
                ),
                value,
            ),
        {
            let start: usize = offset(row, width, rows, len);
            join(words[start + column], types[column * 2], positions[start + column])
        };
    Ok(build(rows, width, &element))
}

/// What stands in the last column of a row: whether the row is the last piece of a final input.
pub open spec fn final_mark<T>(unset: T, set: T, row: int, rows: int, final_input: bool) -> T {
    if final_input && row + 2 == rows {
        set
    } else {
        unset
    }
}

/// Writes into the last column of each row whether it is the last piece of a final input.
pub fn mark_final_piece<T: Copy>(
    values: &[T],
    unset: T,
    set: T,
    rows: usize,
    width: usize,
    final_input: bool,
) -> (result: Result<Vec<T>, DimensionError>)
    ensures
        result is Ok <==> values@.len() == rows * width,
        result matches Ok(marked) ==> marked@.len() == rows * width && forall|
            row: usize,
            column: usize,
        |
            row < rows && column < width ==> (#[trigger] marked@[kernels::cell(
                row as int,
                column as int,
                width as int,
            )]) == if column + 1 == width {
                final_mark(unset, set, row as int, rows as int, final_input)
            } else {
                values@[kernels::cell(row as int, column as int, width as int)]
            },
{
    let len: usize = values.len();
    if !is_product(len, rows, width) {
        return Err(DimensionError);
    }
    let element = |row: usize, column: usize| -> (value: T)
        requires
            row < rows,
            column < width,
        ensures
            value == if column + 1 == width {
                final_mark(unset, set, row as int, rows as int, final_input)
            } else {
                values@[kernels::cell(row as int, column as int, width as int)]
            },
        {
            let start: usize = offset(row, width, rows, len);
            if column < width - 1 {
                values[start + column]
            } else if final_input && rows - row == 2 {
                set
            } else {
                unset
            }
        };
    Ok(build(rows, width, &element))
}

/// `result` comes out of `start` by taking in, channel by channel, a projected number with the
/// offset of a label and a weight.
pub open spec fn label_sum<T, F: Fn(T, T, T, T) -> T>(
    take: F,
    projected: Seq<T>,
    offsets: Seq<T>,
    weights: Seq<T>,
    channels: int,
    start: T,
    result: T,
) -> bool
    decreases channels,
{
    if channels <= 0 {
        result == start
    } else {
        exists|before: T|
            {
                &&& label_sum(take, projected, offsets, weights, channels - 1, start, before)
                &&& #[trigger] call_ensures(
                    take,
                    (
                        before,
                        projected[channels - 1],
                        offsets[channels - 1],
                        weights[channels - 1],
                    ),
                    result,
                )
            }
    }
}

/// The score of one label for one row.
pub open spec fn label_score<T, F: Fn(T, T, T, T) -> T, P: Fn(T, T) -> T>(
    take: F,
    plus: P,
    zero: T,
    projected: Seq<T>,
    offsets: Seq<T>,
    weights: Seq<T>,
    scalar: T,
    score: T,
) -> bool {
    exists|sum: T|
        {
            &&& label_sum(
                take,
                projected,
                offsets,
                weights,
                weights.len() as int,
                zero,
                sum,
            )
            &&& #[trigger] call_ensures(plus, (sum, scalar), score)
        }
}

fn score_label<T: Copy, F: Fn(T, T, T, T) -> T, P: Fn(T, T) -> T>(
    take: &F,
    plus: &P,
    zero: T,
    projected: &[T],
    offsets: &[T],
    weights: &[T],
    scalar: T,
) -> (score: T)
    requires
        forall|sum: T, value: T, offset: T, weight: T|
            call_requires(*take, (sum, value, offset, weight)),
        forall|one: T, other: T| call_requires(*plus, (one, other)),
        projected@.len() == weights@.len(),
        offsets@.len() == weights@.len(),
    ensures
        label_score(*take, *plus, zero, projected@, offsets@, weights@, scalar, score),
{
    let count: usize = weights.len();
    let mut sum: T = zero;
    for channel in 0..count
        invariant
            forall|sum: T, value: T, offset: T, weight: T|
                call_requires(*take, (sum, value, offset, weight)),
            count == weights@.len() == projected@.len() == offsets@.len(),
            label_sum(*take, projected@, offsets@, weights@, channel as int, zero, sum),
    {
        let ghost before = sum;
        sum = take(sum, projected[channel], offsets[channel], weights[channel]);
        assert(call_ensures(
            *take,
            (
                before,
                projected@[channel + 1 - 1],
                offsets@[channel + 1 - 1],
                weights@[channel + 1 - 1],
            ),
            sum,
        ));
    }
    plus(sum, scalar)
}

/// The score of each label for each row.
pub fn label_scores<T: Copy, F: Fn(T, T, T, T) -> T, P: Fn(T, T) -> T>(
    take: &F,
    plus: &P,
    zero: T,
    projected: &[T],
    offsets: &[T],
    weights: &[T],
    scalar: T,
    rows: usize,
    labels: usize,
) -> (result: Result<Vec<T>, DimensionError>)
    requires
        forall|sum: T, value: T, offset: T, weight: T|
            call_requires(*take, (sum, value, offset, weight)),
        forall|one: T, other: T| call_requires(*plus, (one, other)),
    ensures
        result is Ok <==> projected@.len() == rows * weights@.len() && offsets@.len() == labels
            * weights@.len(),
        result matches Ok(scores) ==> scores@.len() == rows * labels && forall|
            row: usize,
            label: usize,
        |
            row < rows && label < labels ==> label_score(
                *take,
                *plus,
                zero,
                normalization::row_of(projected@, row as int, weights@.len() as int),
                normalization::row_of(offsets@, label as int, weights@.len() as int),
                weights@,
                scalar,
                #[trigger] scores@[kernels::cell(row as int, label as int, labels as int)],
            ),
{
    let width: usize = weights.len();
    let projected_len: usize = projected.len();
    let offsets_len: usize = offsets.len();
    if !is_product(projected_len, rows, width) || !is_product(offsets_len, labels, width) {
        return Err(DimensionError);
    }
    let element = |row: usize, label: usize| -> (value: T)
        requires
            row < rows,
            label < labels,
        ensures
            label_score(
                *take,
                *plus,
                zero,
                normalization::row_of(projected@, row as int, weights@.len() as int),
                normalization::row_of(offsets@, label as int, weights@.len() as int),
                weights@,
                scalar,
                value,
            ),
        {
            let start: usize = offset(row, width, rows, projected_len);
            let first: usize = offset(label, width, labels, offsets_len);
            score_label(
                take,
                plus,
                zero,
                slice_subrange(projected, start, start + width),
                slice_subrange(offsets, first, first + width),
                weights,
                scalar,
            )
        };
    Ok(build(rows, labels, &element))
}

/// Why a block gives nothing.
#[derive(Debug)]
pub enum BlockError<E> {
    /// A part of the block failed.
    Part(E),
    /// The block and its input differ in length.
    Length,
}

/// `sums` holds the sum of each value and the one in its place.
pub open spec fn are_sums<T, P: Fn(T, T) -> T>(
    plus: P,
    left: Seq<T>,
    right: Seq<T>,
    sums: Seq<T>,
) -> bool {
    &&& left.len() == right.len()
    &&& sums.len() == right.len()
    &&& forall|index: int|
        0 <= index < right.len() ==> call_ensures(
            plus,
            (left[index], right[index]),
            #[trigger] sums[index],
        )
}

/// What a block gives: `change` is what its stage gives for the input, which is added to the input
/// and then normalised.
pub open spec fn block_result<
    T,
    E,
    S: Fn(&Vec<T>) -> Result<Vec<T>, E>,
    P: Fn(T, T) -> T,
    N: Fn(&Vec<T>) -> Result<Vec<T>, E>,
>(
    stage: S,
    plus: P,
    normalize: N,
    hidden: Vec<T>,
    change: Result<Vec<T>, E>,
    result: Result<Vec<T>, BlockError<E>>,
) -> bool {
    &&& call_ensures(stage, (&hidden,), change)
    &&& match change {
        Err(error) => result == Err::<Vec<T>, BlockError<E>>(BlockError::Part(error)),
        Ok(change) => if change@.len() != hidden@.len() {
            result == Err::<Vec<T>, BlockError<E>>(BlockError::Length)
        } else {
            exists|sums: Vec<T>, finished: Result<Vec<T>, E>|
                {
                    &&& are_sums(plus, hidden@, change@, sums@)
                    &&& #[trigger] call_ensures(normalize, (&sums,), finished)
                    &&& result == match finished {
                        Ok(values) => Ok::<Vec<T>, BlockError<E>>(values),
                        Err(error) => Err(BlockError::Part(error)),
                    }
                }
        },
    }
}

/// Runs a block of a model: what a stage makes of the input is added to the input, and the sum is
/// normalised.
pub fn residual_block<
    T: Copy,
    E,
    S: Fn(&Vec<T>) -> Result<Vec<T>, E>,
    P: Fn(T, T) -> T,
    N: Fn(&Vec<T>) -> Result<Vec<T>, E>,
>(stage: &S, plus: &P, normalize: &N, hidden: Vec<T>) -> (result: Result<Vec<T>, BlockError<E>>)
    requires
        forall|values: &Vec<T>| call_requires(*stage, (values,)),
        forall|one: T, other: T| call_requires(*plus, (one, other)),
        forall|values: &Vec<T>| call_requires(*normalize, (values,)),
    ensures
        exists|change: Result<Vec<T>, E>| #[trigger]
            block_result(*stage, *plus, *normalize, hidden, change, result),
{
    let ghost before = hidden;
    let change: Result<Vec<T>, E> = stage(&hidden);
    let ghost given = change;
    let values: Vec<T> = match change {
        Ok(values) => values,
        Err(error) => {
            let result: Result<Vec<T>, BlockError<E>> = Err(BlockError::Part(error));
            assert(block_result(*stage, *plus, *normalize, before, given, result));
            return result;
        },
    };
    let mut sums: Vec<T> = hidden;
    if add_in_place(plus, &mut sums, &values).is_err() {
        let result: Result<Vec<T>, BlockError<E>> = Err(BlockError::Length);
        assert(block_result(*stage, *plus, *normalize, before, given, result));
        return result;
    }
    assert(are_sums(*plus, before@, values@, sums@));
    let result: Result<Vec<T>, BlockError<E>> = match normalize(&sums) {
        Ok(values) => Ok(values),
        Err(error) => Err(BlockError::Part(error)),
    };
    assert(block_result(*stage, *plus, *normalize, before, given, result));
    result
}

/// Where a number of a head stands in joint rows: by row, by part (query, key, value), by head and by
/// channel.
pub open spec fn joint_at(row: int, part: int, head: int, channel: int, heads: int, width: int) -> int {
    ((row * 3 + part) * heads + head) * width + channel
}

/// With exact numbers and no scaling, what a row gathers in a head comes from the joint rows alone:
/// its scores are the products of its query with the key of each row, these make its weights, and the
/// value of each row counts by its weight.
pub proof fn law_rows_gather_values_by_their_scores<
    F: Fn(i64, i64, i64) -> i64,
    B: Fn(i64) -> i64,
    C: Fn(i64) -> i64,
    L: Fn(i64, i64) -> i64,
    E: Fn(i64, i64) -> i64,
    P: Fn(i64, i64) -> i64,
    R: Fn(i64, i64) -> i64,
>(
    take: F,
    before: B,
    after: C,
    larger: L,
    exponential: E,
    plus: P,
    divide: R,
    lowest: i64,
    joint: Seq<i64>,
    rows: int,
    heads: int,
    width: int,
    result: Seq<i64>,
) -> (found: (Seq<i64>, Seq<i64>))
    requires
        kernels::exact(take),
        kernels::keeps(before),
        kernels::keeps(after),
        0 < rows <= usize::MAX,
        0 <= heads,
        0 < width <= usize::MAX,
        heads * rows <= usize::MAX,
        attends(
            take,
            before,
            after,
            larger,
            exponential,
            plus,
            divide,
            lowest,
            0,
            joint,
            rows,
            heads,
            width,
            result,
        ),
    ensures
        ({
            let (scores, weights) = found;
            &&& are_weights(
                larger,
                exponential,
                plus,
                divide,
                lowest,
                0,
                scores,
                heads * rows,
                rows,
                weights,
            )
            &&& forall|head: int, row: int, other: int|
                #![trigger scores[kernels::cell(kernels::cell(head, row, rows), other, rows)]]
                0 <= head < heads && 0 <= row < rows && 0 <= other < rows ==> scores[kernels::cell(
                    kernels::cell(head, row, rows),
                    other,
                    rows,
                )] == kernels::total(
                    |channel: int|
                        joint[joint_at(row, 0, head, channel, heads, width)] * joint[joint_at(
                            other,
                            1,
                            head,
                            channel,
                            heads,
                            width,
                        )],
                    width,
                )
            &&& forall|head: int, row: int, channel: int|
                #![trigger result[kernels::cell(row, kernels::cell(head, channel, width), heads * width)]]
                0 <= head < heads && 0 <= row < rows && 0 <= channel < width
                    ==> result[kernels::cell(
                    row,
                    kernels::cell(head, channel, width),
                    heads * width,
                )] == kernels::total(
                    |other: int|
                        weights[kernels::cell(kernels::cell(head, row, rows), other, rows)]
                            * joint[joint_at(other, 2, head, channel, heads, width)],
                    rows,
                )
        }),
{
    let (query, products, scores, weights, context) = choose|
        query: Seq<i64>,
        products: Seq<i64>,
        scores: Seq<i64>,
        weights: Seq<i64>,
        context: Seq<i64>,
    |
        {
            &&& #[trigger] maps(before, heads::heads_of(joint, rows, 0, heads, width), query)
            &&& #[trigger] are_products(
                take,
                0,
                query,
                heads::heads_of(joint, rows, 1, heads, width),
                heads,
                rows,
                width,
                products,
            )
            &&& #[trigger] maps(after, products, scores)
            &&& #[trigger] are_weights(
                larger,
                exponential,
                plus,
                divide,
                lowest,
                0,
                scores,
                heads * rows,
                rows,
                weights,
            )
            &&& #[trigger] are_contexts(
                take,
                0,
                weights,
                heads::heads_of(joint, rows, 2, heads, width),
                heads,
                rows,
                width,
                context,
            )
            &&& result == heads::rows_of(context, rows, heads, width)
        };
    let asked = heads::heads_of(joint, rows, 0, heads, width);
    let keys = heads::heads_of(joint, rows, 1, heads, width);
    let values = heads::heads_of(joint, rows, 2, heads, width);
    assert(query =~= asked) by {
        assert forall|index: int| 0 <= index < asked.len() implies query[index] == asked[index] by {
            assert(call_ensures(before, (asked[index],), query[index]));
        }
    }
    assert(scores =~= products) by {
        assert forall|index: int| 0 <= index < products.len() implies scores[index]
            == products[index] by {
            assert(call_ensures(after, (products[index],), scores[index]));
        }
    }
    assert forall|head: int, row: int, other: int|
        #![trigger scores[kernels::cell(kernels::cell(head, row, rows), other, rows)]]
        0 <= head < heads && 0 <= row < rows && 0 <= other < rows implies scores[kernels::cell(
        kernels::cell(head, row, rows),
        other,
        rows,
    )] == kernels::total(
        |channel: int|
            joint[joint_at(row, 0, head, channel, heads, width)] * joint[joint_at(
                other,
                1,
                head,
                channel,
                heads,
                width,
            )],
        width,
    ) by {
        let line = kernels::cell(head, row, rows);
        kernels::lemma_cell_inside(head, heads, row, rows);
        let score = products[kernels::cell(line, other, rows)];
        assert(kernels::qk_cell(
            take,
            0,
            query,
            keys,
            rows,
            width,
            (line as usize) as int,
            (other as usize) as int,
            score,
        ));
        kernels::law_queries_meet_the_keys_of_their_batch(
            take,
            query,
            keys,
            rows,
            width,
            head,
            row,
            other,
            score,
        );
        let split = |place: int|
            query[kernels::cell(kernels::cell(head, row, rows), place, width)]
                * keys[kernels::cell(kernels::cell(head, other, rows), place, width)];
        let whole = |channel: int|
            joint[joint_at(row, 0, head, channel, heads, width)] * joint[joint_at(
                other,
                1,
                head,
                channel,
                heads,
                width,
            )];
        assert forall|channel: int| 0 <= channel < width implies #[trigger] split(channel)
            == whole(channel) by {
            heads::law_heads_hold_their_channels(joint, rows, 0, heads, width, head, row, channel);
            heads::law_heads_hold_their_channels(
                joint,
                rows,
                1,
                heads,
                width,
                head,
                other,
                channel,
            );
        }
        kernels::lemma_same_total(split, whole, width);
    }
    assert forall|head: int, row: int, channel: int|
        #![trigger result[kernels::cell(row, kernels::cell(head, channel, width), heads * width)]]
        0 <= head < heads && 0 <= row < rows && 0 <= channel < width implies result[kernels::cell(
        row,
        kernels::cell(head, channel, width),
        heads * width,
    )] == kernels::total(
        |other: int|
            weights[kernels::cell(kernels::cell(head, row, rows), other, rows)] * joint[joint_at(
                other,
                2,
                head,
                channel,
                heads,
                width,
            )],
        rows,
    ) by {
        let line = kernels::cell(head, row, rows);
        kernels::lemma_cell_inside(head, heads, row, rows);
        heads::law_rows_hold_their_heads(context, rows, heads, width, head, row, channel);
        let value = context[kernels::cell(line, channel, width)];
        assert(kernels::context_cell(
            take,
            0,
            weights,
            values,
            rows,
            rows,
            width,
            (line as usize) as int,
            (channel as usize) as int,
            value,
        ));
        kernels::law_contexts_weigh_the_values_of_their_batch(
            take,
            weights,
            values,
            rows,
            rows,
            width,
            head,
            row,
            channel,
            value,
        );
        let split = |place: int|
            weights[kernels::cell(kernels::cell(head, row, rows), place, rows)]
                * values[kernels::cell(kernels::cell(head, place, rows), channel, width)];
        let whole = |other: int|
            weights[kernels::cell(kernels::cell(head, row, rows), other, rows)] * joint[joint_at(
                other,
                2,
                head,
                channel,
                heads,
                width,
            )];
        assert forall|other: int| 0 <= other < rows implies #[trigger] split(other) == whole(
            other,
        ) by {
            heads::law_heads_hold_their_channels(
                joint,
                rows,
                2,
                heads,
                width,
                head,
                other,
                channel,
            );
        }
        kernels::lemma_same_total(split, whole, rows);
    }
    (scores, weights)
}

/// With exact numbers, a label's score is its scalar and what every channel adds.
pub proof fn law_label_scores_take_in_every_channel<
    F: Fn(i64, i64, i64, i64) -> i64,
    P: Fn(i64, i64) -> i64,
>(
    take: F,
    plus: P,
    term: spec_fn(i64, i64, i64) -> int,
    projected: Seq<i64>,
    offsets: Seq<i64>,
    weights: Seq<i64>,
    scalar: i64,
    score: i64,
)
    requires
        forall|sum: i64, number: i64, offset: i64, weight: i64, result: i64|
            #[trigger] call_ensures(take, (sum, number, offset, weight), result) ==> result == sum
                + term(number, offset, weight),
        kernels::exact_sum(plus),
        label_score(take, plus, 0, projected, offsets, weights, scalar, score),
    ensures
        score == scalar + kernels::total(
            |channel: int| term(projected[channel], offsets[channel], weights[channel]),
            weights.len() as int,
        ),
{
    let sum = choose|sum: i64|
        {
            &&& label_sum(take, projected, offsets, weights, weights.len() as int, 0, sum)
            &&& #[trigger] call_ensures(plus, (sum, scalar), score)
        };
    lemma_label_sum(take, term, projected, offsets, weights, weights.len() as int, sum);
}

proof fn lemma_label_sum<F: Fn(i64, i64, i64, i64) -> i64>(
    take: F,
    term: spec_fn(i64, i64, i64) -> int,
    projected: Seq<i64>,
    offsets: Seq<i64>,
    weights: Seq<i64>,
    channels: int,
    result: i64,
)
    requires
        forall|sum: i64, number: i64, offset: i64, weight: i64, result: i64|
            #[trigger] call_ensures(take, (sum, number, offset, weight), result) ==> result == sum
                + term(number, offset, weight),
        label_sum(take, projected, offsets, weights, channels, 0, result),
    ensures
        result == kernels::total(
            |channel: int| term(projected[channel], offsets[channel], weights[channel]),
            channels,
        ),
    decreases channels,
{
    if channels > 0 {
        let before = choose|before: i64|
            {
                &&& label_sum(take, projected, offsets, weights, channels - 1, 0, before)
                &&& #[trigger] call_ensures(
                    take,
                    (
                        before,
                        projected[channels - 1],
                        offsets[channels - 1],
                        weights[channels - 1],
                    ),
                    result,
                )
            };
        lemma_label_sum(take, term, projected, offsets, weights, channels - 1, before);
    }
}

}
