//! How rows of a model are laid out: attention heads, joined rows, rows of a table.

use vstd::arithmetic::div_mod::*;
use vstd::prelude::*;

use crate::convolution;
use crate::kernels;
use crate::kernels::{build, offset};

verus! {

/// Where a number of a head stands in rows that hold, one after the other, the queries, keys and
/// values of all heads.
pub open spec fn joint_place(
    row: int,
    part: int,
    head: int,
    channel: int,
    heads: int,
    width: int,
) -> int {
    kernels::cell(kernels::cell(kernels::cell(row, part, 3), head, heads), channel, width)
}

/// A number of a head lies within the joint rows.
proof fn lemma_joint_place(
    rows: int,
    row: int,
    part: int,
    head: int,
    channel: int,
    heads: int,
    width: int,
)
    requires
        0 <= row < rows,
        0 <= part < 3,
        0 <= head < heads,
        0 <= channel < width,
    ensures
        0 <= kernels::cell(row, part, 3) < rows * 3,
        0 <= kernels::cell(row, part, 3) * heads,
        0 <= kernels::cell(kernels::cell(row, part, 3), head, heads) < rows * 3 * heads,
        0 <= kernels::cell(kernels::cell(row, part, 3), head, heads) * width,
        0 <= joint_place(row, part, head, channel, heads, width) < rows * 3 * heads * width,
        rows * 3 * heads <= rows * 3 * heads * width,
        rows * 3 <= rows * 3 * heads,
{
    kernels::lemma_cell_inside(row, rows, part, 3);
    let group = kernels::cell(row, part, 3);
    kernels::lemma_cell_inside(group, rows * 3, head, heads);
    let line = kernels::cell(group, head, heads);
    kernels::lemma_cell_inside(line, rows * 3 * heads, channel, width);
    assert(rows * 3 * heads <= rows * 3 * heads * width) by (nonlinear_arith)
        requires
            0 <= rows * 3 * heads,
            1 <= width,
    ;
    assert(rows * 3 <= rows * 3 * heads) by (nonlinear_arith)
        requires
            0 <= rows * 3,
            1 <= heads,
    ;
}

/// The numbers of one part of joint rows, head by head.
pub open spec fn heads_of<T>(joint: Seq<T>, rows: int, part: int, heads: int, width: int) -> Seq<T> {
    Seq::new(
        (heads * rows * width) as nat,
        |place: int|
            joint[joint_place(
                place / width % rows,
                part,
                place / width / rows,
                place % width,
                heads,
                width,
            )],
    )
}

/// Takes one part of joint rows apart, head by head.
pub fn split_heads<T: Copy>(joint: &[T], rows: usize, part: usize, heads: usize, width: usize) -> (
result: Vec<T>)
    requires
        joint@.len() == rows * 3 * heads * width,
        part < 3,
        heads * rows <= usize::MAX,
    ensures
        result@ == heads_of(joint@, rows as int, part as int, heads as int, width as int),
{
    let len: usize = joint.len();
    let lines: usize = heads * rows;
    let element = |line: usize, channel: usize| -> (value: T)
        requires
            line < lines,
            channel < width,
        ensures
            value == joint@[joint_place(
                line as int % rows as int,
                part as int,
                line as int / rows as int,
                channel as int,
                heads as int,
                width as int,
            )],
        {
            assert(rows > 0) by (nonlinear_arith)
                requires
                    lines == heads * rows,
                    lines > 0,
                    rows >= 0,
            ;
            proof {
                convolution::lemma_split(line as int, heads as int, rows as int);
                lemma_joint_place(
                    rows as int,
                    line as int % rows as int,
                    part as int,
                    line as int / rows as int,
                    channel as int,
                    heads as int,
                    width as int,
                );
            }
            let row: usize = line % rows;
            let head: usize = line / rows;
            joint[((row * 3 + part) * heads + head) * width + channel]
        };
    let result: Vec<T> = build(lines, width, &element);
    proof {
        let expected = heads_of(joint@, rows as int, part as int, heads as int, width as int);
        assert forall|place: int| 0 <= place < result@.len() implies result@[place]
            == expected[place] by {
            assert(width > 0) by (nonlinear_arith)
                requires
                    0 <= place < lines * width,
                    width >= 0,
            ;
            convolution::lemma_split(place, lines as int, width as int);
            let line = (place / width as int) as usize;
            let channel = (place % width as int) as usize;
            assert(result@[kernels::cell(line as int, channel as int, width as int)]
                == result@[place]);
            assert(call_ensures(element, (line, channel), result@[place]));
        }
        assert(result@ =~= expected);
    }
    result
}

/// The numbers of all heads, row by row.
pub open spec fn rows_of<T>(split: Seq<T>, rows: int, heads: int, width: int) -> Seq<T> {
    Seq::new(
        (rows * (heads * width)) as nat,
        |place: int|
            split[kernels::cell(
                kernels::cell(
                    place % (heads * width) / width,
                    place / (heads * width),
                    rows,
                ),
                place % (heads * width) % width,
                width,
            )],
    )
}

/// Puts the numbers of heads together, row by row.
pub fn merge_heads<T: Copy>(split: &[T], rows: usize, heads: usize, width: usize) -> (result: Vec<T>)
    requires
        split@.len() == heads * rows * width,
        heads * width <= usize::MAX,
        heads * rows <= usize::MAX,
    ensures
        result@ == rows_of(split@, rows as int, heads as int, width as int),
{
    let len: usize = split.len();
    let hidden: usize = heads * width;
    let element = |row: usize, place: usize| -> (value: T)
        requires
            row < rows,
            place < hidden,
        ensures
            value == split@[kernels::cell(
                kernels::cell(place as int / width as int, row as int, rows as int),
                place as int % width as int,
                width as int,
            )],
        {
            assert(width > 0) by (nonlinear_arith)
                requires
                    hidden == heads * width,
                    hidden > 0,
                    width >= 0,
            ;
            proof {
                convolution::lemma_split(place as int, heads as int, width as int);
                let head = place as int / width as int;
                kernels::lemma_cell_inside(head, heads as int, row as int, rows as int);
                kernels::lemma_cell_inside(
                    kernels::cell(head, row as int, rows as int),
                    heads * rows,
                    place as int % width as int,
                    width as int,
                );
            }
            let head: usize = place / width;
            split[(head * rows + row) * width + place % width]
        };
    let result: Vec<T> = build(rows, hidden, &element);
    proof {
        let expected = rows_of(split@, rows as int, heads as int, width as int);
        assert forall|place: int| 0 <= place < result@.len() implies result@[place]
            == expected[place] by {
            assert(hidden > 0) by (nonlinear_arith)
                requires
                    0 <= place < rows * hidden,
                    hidden >= 0,
            ;
            convolution::lemma_split(place, rows as int, hidden as int);
            let row = (place / hidden as int) as usize;
            let inside = (place % hidden as int) as usize;
            assert(result@[kernels::cell(row as int, inside as int, hidden as int)]
                == result@[place]);
            assert(call_ensures(element, (row, inside), result@[place]));
        }
        assert(result@ =~= expected);
    }
    result
}

/// Heads taken apart and put together again give one part of the joint rows back.
pub proof fn law_merging_undoes_splitting<T>(
    joint: Seq<T>,
    rows: int,
    part: int,
    heads: int,
    width: int,
    row: int,
    place: int,
)
    requires
        joint.len() == rows * 3 * heads * width,
        0 <= part < 3,
        0 <= row < rows,
        0 <= place < heads * width,
        0 < width,
    ensures
        rows_of(heads_of(joint, rows, part, heads, width), rows, heads, width)[kernels::cell(
            row,
            place,
            heads * width,
        )] == joint[kernels::cell(kernels::cell(row, part, 3), place, heads * width)],
{
    let hidden = heads * width;
    let split = heads_of(joint, rows, part, heads, width);
    let at = kernels::cell(row, place, hidden);
    kernels::lemma_cell_inside(row, rows, place, hidden);
    vstd::arithmetic::div_mod::lemma_fundamental_div_mod_converse(at, hidden, row, place);
    convolution::lemma_split(place, heads, width);
    let head = place / width;
    let channel = place % width;
    let line = kernels::cell(head, row, rows);
    kernels::lemma_cell_inside(head, heads, row, rows);
    kernels::lemma_cell_inside(line, heads * rows, channel, width);
    let inside = kernels::cell(line, channel, width);
    vstd::arithmetic::div_mod::lemma_fundamental_div_mod_converse(inside, width, line, channel);
    vstd::arithmetic::div_mod::lemma_fundamental_div_mod_converse(line, rows, head, row);
    let group = kernels::cell(row, part, 3);
    assert((group * heads + head) * width + channel == group * (heads * width) + (head * width
        + channel)) by (nonlinear_arith);
}

/// The rows of two matrices side by side.
pub open spec fn side_by_side<T>(left: Seq<T>, right: Seq<T>, width: int, row: int) -> Seq<T> {
    left.subrange(row * width, row * width + width) + right.subrange(
        row * width,
        row * width + width,
    )
}

/// Puts the rows of two matrices side by side.
pub fn join_rows<T: Copy>(left: &[T], right: &[T], rows: usize, width: usize) -> (result: Vec<T>)
    requires
        left@.len() == rows * width,
        right@.len() == rows * width,
        width * 2 <= usize::MAX,
    ensures
        result@.len() == rows * (width * 2),
        forall|row: usize, place: usize|
            row < rows && place < width * 2 ==> (#[trigger] result@[kernels::cell(
                row as int,
                place as int,
                width * 2,
            )]) == side_by_side(left@, right@, width as int, row as int)[place as int],
{
    let left_len: usize = left.len();
    let right_len: usize = right.len();
    let element = |row: usize, place: usize| -> (value: T)
        requires
            row < rows,
            place < width * 2,
        ensures
            value == side_by_side(left@, right@, width as int, row as int)[place as int],
        {
            let start: usize = offset(row, width, rows, left_len);
            if place < width {
                left[start + place]
            } else {
                right[start + (place - width)]
            }
        };
    build(rows, width * 2, &element)
}

/// All numbers are those of rows of a table.
pub open spec fn in_table<T>(table: Seq<T>, ids: Seq<usize>, width: int) -> bool {
    forall|index: int|
        0 <= index < ids.len() ==> (#[trigger] ids[index]) * width + width <= table.len()
}

/// The rows of a table that numbers name, one after the other.
pub open spec fn table_rows<T>(table: Seq<T>, ids: Seq<usize>, width: int) -> Seq<T>
    decreases ids.len(),
{
    if ids.len() == 0 {
        Seq::empty()
    } else {
        table_rows(table, ids.drop_last(), width) + table.subrange(
            ids.last() * width,
            ids.last() * width + width,
        )
    }
}

/// The rows of a table that numbers name, unless one is not in the table.
pub fn lookup_rows<T: Copy>(table: &[T], ids: &[usize], width: usize) -> (result: Option<Vec<T>>)
    ensures
        match result {
            Some(rows) => in_table(table@, ids@, width as int) && rows@ == table_rows(
                table@,
                ids@,
                width as int,
            ),
            None => !in_table(table@, ids@, width as int),
        },
{
    let len: usize = table.len();
    let mut rows: Vec<T> = Vec::new();
    for index in 0..ids.len()
        invariant
            len == table@.len(),
            in_table(table@, ids@.take(index as int), width as int),
            rows@ == table_rows(table@, ids@.take(index as int), width as int),
    {
        let ghost wide = width as int;
        let ghost shorter = ids@.take(index as int);
        let ghost longer = ids@.take(index + 1);
        assert(longer.drop_last() =~= shorter);
        let id: usize = ids[index];
        let start: usize = match id.checked_mul(width) {
            Some(start) => start,
            None => {
                assert(!(ids@[index as int] * wide + wide <= table@.len()));
                return None;
            },
        };
        if start > len || len - start < width {
            assert(!(ids@[index as int] * wide + wide <= table@.len()));
            return None;
        }
        let ghost known = rows@;
        for place in start..start + width
            invariant
                start + width <= len == table@.len(),
                rows@ == known + table@.subrange(start as int, place as int),
        {
            rows.push(table[place]);
            assert(rows@ =~= known + table@.subrange(start as int, place + 1));
        }
        assert forall|place: int| 0 <= place < longer.len() implies (#[trigger] longer[place])
            * wide + wide <= table@.len() by {
            if place < index {
                assert(shorter[place] == longer[place]);
            }
        }
    }
    assert(ids@.take(ids@.len() as int) =~= ids@);
    Some(rows)
}

/// Which of some values stands for an index: they repeat, and there may be none.
pub fn broadcast_place(count: usize, index: usize) -> (result: Option<usize>)
    ensures
        match result {
            Some(place) => count > 0 && place == index as int % count as int,
            None => count == 0,
        },
{
    if count == 0 {
        None
    } else {
        Some(index % count)
    }
}

/// A head's number is that of its row, part, head and channel in the joint rows.
pub proof fn law_heads_hold_their_channels<T>(
    joint: Seq<T>,
    rows: int,
    part: int,
    heads: int,
    width: int,
    head: int,
    row: int,
    channel: int,
)
    requires
        0 <= head < heads,
        0 <= row < rows,
        0 <= channel < width,
    ensures
        0 <= kernels::cell(kernels::cell(head, row, rows), channel, width)
            < heads_of(joint, rows, part, heads, width).len(),
        heads_of(joint, rows, part, heads, width)[kernels::cell(
            kernels::cell(head, row, rows),
            channel,
            width,
        )] == joint[((row * 3 + part) * heads + head) * width + channel],
{
    let line = kernels::cell(head, row, rows);
    let place = kernels::cell(line, channel, width);
    kernels::lemma_cell_inside(head, heads, row, rows);
    kernels::lemma_cell_inside(line, heads * rows, channel, width);
    lemma_fundamental_div_mod_converse(place, width, line, channel);
    lemma_fundamental_div_mod_converse(line, rows, head, row);
}

/// The rows that numbers name follow each other, each as it stands in the table.
pub proof fn law_rows_come_from_the_table<T>(
    table: Seq<T>,
    ids: Seq<usize>,
    width: int,
    index: int,
    channel: int,
)
    requires
        in_table(table, ids, width),
        0 <= index < ids.len(),
        0 <= channel < width,
    ensures
        table_rows(table, ids, width).len() == ids.len() * width,
        0 <= kernels::cell(index, channel, width) < ids.len() * width,
        table_rows(table, ids, width)[kernels::cell(index, channel, width)] == table[kernels::cell(
            ids[index] as int,
            channel,
            width,
        )],
    decreases ids.len(),
{
    lemma_table_rows_length(table, ids, width);
    let shorter = ids.drop_last();
    assert(in_table(table, shorter, width)) by {
        assert forall|at: int| 0 <= at < shorter.len() implies (#[trigger] shorter[at]) * width
            + width <= table.len() by {
            assert(shorter[at] == ids[at]);
        }
    }
    lemma_table_rows_length(table, shorter, width);
    kernels::lemma_cell_inside(index, ids.len() as int, channel, width);
    if index < shorter.len() {
        law_rows_come_from_the_table(table, shorter, width, index, channel);
        assert(shorter[index] == ids[index]);
    } else {
        assert(ids.last() == ids[index]);
        assert(0 <= ids[index] * width) by (nonlinear_arith)
            requires
                0 <= ids[index],
                0 < width,
        ;
        assert(kernels::cell(index, channel, width) - shorter.len() * width == channel);
    }
}

proof fn lemma_table_rows_length<T>(table: Seq<T>, ids: Seq<usize>, width: int)
    requires
        in_table(table, ids, width),
        0 < width,
    ensures
        table_rows(table, ids, width).len() == ids.len() * width,
    decreases ids.len(),
{
    if ids.len() > 0 {
        let shorter = ids.drop_last();
        assert forall|at: int| 0 <= at < shorter.len() implies (#[trigger] shorter[at]) * width
            + width <= table.len() by {
            assert(shorter[at] == ids[at]);
        }
        lemma_table_rows_length(table, shorter, width);
        assert(ids.last() == ids[ids.len() - 1]);
        assert(0 <= ids.last() * width) by (nonlinear_arith)
            requires
                0 <= ids.last(),
                0 < width,
        ;
        assert(ids.len() * width == shorter.len() * width + width) by (nonlinear_arith)
            requires
                ids.len() == shorter.len() + 1,
        ;
    } else {
        assert(ids.len() * width == 0) by (nonlinear_arith)
            requires
                ids.len() == 0,
        ;
    }
}

/// A row of all heads holds, head by head, the channels of that row.
pub proof fn law_rows_hold_their_heads<T>(
    split: Seq<T>,
    rows: int,
    heads: int,
    width: int,
    head: int,
    row: int,
    channel: int,
)
    requires
        0 <= head < heads,
        0 <= row < rows,
        0 <= channel < width,
    ensures
        0 <= kernels::cell(row, kernels::cell(head, channel, width), heads * width) < rows_of(
            split,
            rows,
            heads,
            width,
        ).len(),
        rows_of(split, rows, heads, width)[kernels::cell(
            row,
            kernels::cell(head, channel, width),
            heads * width,
        )] == split[kernels::cell(kernels::cell(head, row, rows), channel, width)],
{
    let line = heads * width;
    let inside = kernels::cell(head, channel, width);
    let place = kernels::cell(row, inside, line);
    kernels::lemma_cell_inside(head, heads, channel, width);
    kernels::lemma_cell_inside(row, rows, inside, line);
    lemma_fundamental_div_mod_converse(place, line, row, inside);
    lemma_fundamental_div_mod_converse(inside, width, head, channel);
}

}
