//! The decoder's matrix product: few rows, with sums taken in the narrow kind of number.

use vstd::arithmetic::div_mod::*;
use vstd::prelude::*;

use crate::kernels;
use crate::kernels::{build, fold_strided, is_product, offset};

verus! {

/// How many rows a packed block has.
pub const ROWS_PER_BLOCK: usize = 8;

/// How many columns a packed block has.
pub const COLUMNS_PER_BLOCK: usize = 4;

/// Why the decoder's matrix product cannot run.
#[derive(Clone, Copy, Debug, PartialEq, Eq, Structural)]
pub enum GemmError {
    /// The number of active rows is not positive.
    ActiveRows,
    /// The size of the left matrix is too large to count.
    LeftOverflow,
    /// The size of the right matrix is too large to count.
    RightOverflow,
    /// The size of the output is too large to count.
    OutputOverflow,
    /// The sizes of the matrices do not match.
    Dimensions,
    /// There are more active rows than rows.
    TooManyActiveRows,
    /// A single active row needs an inner size that is a multiple of four.
    Pairing,
    /// The output does not have the size of the product.
    Output,
}

/// The number of rows that the decoder computes with.
#[derive(Debug)]
pub struct DecoderActiveRows {
    rows: i32,
}

impl View for DecoderActiveRows {
    type V = int;

    closed spec fn view(&self) -> int {
        self.rows as int
    }
}

impl DecoderActiveRows {
    #[verifier::type_invariant]
    spec fn positive(&self) -> bool {
        self.rows > 0
    }

    /// One active row.
    pub fn new() -> (result: Self)
        ensures
            result@ == 1,
    {
        DecoderActiveRows { rows: 1 }
    }
}

/// The number of active rows.
pub fn decoder_active_rows(state: &DecoderActiveRows) -> (result: i32)
    ensures
        result == state@,
        result > 0,
{
    proof {
        use_type_invariant(state);
    }
    state.rows
}

/// Sets the number of active rows, which must be positive.
pub fn set_decoder_active_rows(state: &mut DecoderActiveRows, rows: i32) -> (result: Result<
    (),
    GemmError,
>)
    ensures
        match result {
            Ok(_) => rows > 0 && final(state)@ == rows,
            Err(error) => rows <= 0 && error == GemmError::ActiveRows && final(state)@ == old(
                state,
            )@,
        },
{
    if rows <= 0 {
        return Err(GemmError::ActiveRows);
    }
    *state = DecoderActiveRows { rows };
    Ok(())
}

/// The sizes of the decoder's matrix product.
#[derive(Clone, Copy, Debug, PartialEq, Eq, Structural)]
pub struct DecoderGemmParams {
    rows: usize,
    inner: usize,
    columns: usize,
    paired: bool,
}

/// The content of the sizes.
pub struct Sizes {
    pub rows: int,
    pub inner: int,
    pub columns: int,
    pub paired: bool,
}

impl View for DecoderGemmParams {
    type V = Sizes;

    closed spec fn view(&self) -> Sizes {
        Sizes {
            rows: self.rows as int,
            inner: self.inner as int,
            columns: self.columns as int,
            paired: self.paired,
        }
    }
}

/// The matrices have the sizes.
pub open spec fn has_sizes<T>(sizes: Sizes, left: Seq<T>, right: Seq<T>, bias: Seq<T>) -> bool {
    &&& sizes.rows > 0 && sizes.inner > 0 && sizes.columns > 0
    &&& left.len() == sizes.rows * sizes.inner
    &&& right.len() == sizes.columns * sizes.inner
    &&& bias.len() == sizes.columns
    &&& sizes.rows * sizes.columns <= usize::MAX
}

impl DecoderGemmParams {
    /// The number of rows.
    pub fn rows(self) -> (result: usize)
        ensures
            result == self@.rows,
    {
        self.rows
    }

    /// The number of cells that meet.
    pub fn inner(self) -> (result: usize)
        ensures
            result == self@.inner,
    {
        self.inner
    }

    /// The number of columns.
    pub fn columns(self) -> (result: usize)
        ensures
            result == self@.columns,
    {
        self.columns
    }

    /// The size of the product.
    pub fn output_len(self) -> (result: usize)
        requires
            self@.rows * self@.columns <= usize::MAX,
        ensures
            result == self@.rows * self@.columns,
    {
        self.rows * self.columns
    }

    /// How many blocks of columns there are.
    pub fn column_blocks(self) -> (result: usize)
        ensures
            result == (self@.columns + COLUMNS_PER_BLOCK - 1) / COLUMNS_PER_BLOCK as int,
    {
        let blocks: usize = self.columns / COLUMNS_PER_BLOCK;
        if self.columns % COLUMNS_PER_BLOCK == 0 {
            blocks
        } else {
            blocks + 1
        }
    }

    /// Whether the product runs on packed blocks: on machines that have vectors of half-precision
    /// numbers, when there are as many rows as a block has.
    pub fn uses_packed_neon(self, neon_available: bool) -> (result: bool)
        ensures
            result == (self@.rows == ROWS_PER_BLOCK && neon_available),
    {
        self.rows == ROWS_PER_BLOCK && neon_available
    }
}

/// What is wrong with the sizes of matrices, if anything.
pub open spec fn sizes_error(
    active: int,
    left: int,
    right: int,
    bias: int,
    rows: int,
    inner: int,
    columns: int,
) -> Option<GemmError> {
    if rows * inner > usize::MAX {
        Some(GemmError::LeftOverflow)
    } else if columns * inner > usize::MAX {
        Some(GemmError::RightOverflow)
    } else if rows * columns > usize::MAX {
        Some(GemmError::OutputOverflow)
    } else if rows == 0 || inner == 0 || columns == 0 || left != rows * inner || right != columns
        * inner || bias != columns || active > rows {
        Some(GemmError::Dimensions)
    } else if active == 1 && inner % 4 != 0 {
        Some(GemmError::Pairing)
    } else {
        None
    }
}

/// The sizes of a product of the given matrices.
pub fn decoder_gemm_params<T>(
    state: &DecoderActiveRows,
    left: &[T],
    right: &[T],
    bias: &[T],
    rows: usize,
    inner: usize,
    columns: usize,
) -> (result: Result<DecoderGemmParams, GemmError>)
    ensures
        match sizes_error(
            state@,
            left@.len() as int,
            right@.len() as int,
            bias@.len() as int,
            rows as int,
            inner as int,
            columns as int,
        ) {
            Some(error) => result == Err::<DecoderGemmParams, GemmError>(error),
            None => result matches Ok(params) && params@ == (Sizes {
                rows: rows as int,
                inner: inner as int,
                columns: columns as int,
                paired: state@ == 1,
            }) && has_sizes(params@, left@, right@, bias@),
        },
{
    let left_len: usize = match rows.checked_mul(inner) {
        Some(left_len) => left_len,
        None => {
            return Err(GemmError::LeftOverflow);
        },
    };
    let right_len: usize = match columns.checked_mul(inner) {
        Some(right_len) => right_len,
        None => {
            return Err(GemmError::RightOverflow);
        },
    };
    if rows.checked_mul(columns).is_none() {
        return Err(GemmError::OutputOverflow);
    }
    let active: i32 = decoder_active_rows(state);
    if rows == 0 || inner == 0 || columns == 0 || left.len() != left_len || right.len() != right_len
        || bias.len() != columns || active as usize > rows {
        return Err(GemmError::Dimensions);
    }
    let paired: bool = active == 1;
    if paired && inner % 4 != 0 {
        return Err(GemmError::Pairing);
    }
    Ok(DecoderGemmParams { rows, inner, columns, paired })
}

/// One cell of the decoder's product. A single active row has two sums, of the products at even
/// and at odd places, and adds them at the end.
pub open spec fn decoder_cell<T, F: Fn(T, T, T) -> T, G: Fn(T, T) -> T>(
    fuse: F,
    join: G,
    zero: T,
    left: Seq<T>,
    right: Seq<T>,
    bias: Seq<T>,
    inner: int,
    paired: bool,
    row: int,
    column: int,
    value: T,
) -> bool {
    if paired {
        exists|even: T, odd: T|
            {
                &&& kernels::folds(
                    fuse,
                    kernels::strided(
                        left,
                        row * inner,
                        2,
                        right,
                        column * inner,
                        2,
                        (inner + 1) / 2,
                    ),
                    bias[column],
                    even,
                )
                &&& kernels::folds(
                    fuse,
                    kernels::strided(
                        left,
                        row * inner + 1,
                        2,
                        right,
                        column * inner + 1,
                        2,
                        inner / 2,
                    ),
                    zero,
                    odd,
                )
                &&& #[trigger] call_ensures(join, (even, odd), value)
            }
    } else {
        kernels::folds(
            fuse,
            kernels::strided(left, row * inner, 1, right, column * inner, 1, inner),
            bias[column],
            value,
        )
    }
}

/// One cell of the decoder's product.
fn product_cell<T: Copy, F: Fn(T, T, T) -> T, G: Fn(T, T) -> T>(
    fuse: &F,
    join: &G,
    zero: T,
    left: &[T],
    right: &[T],
    bias: &[T],
    rows: usize,
    inner: usize,
    columns: usize,
    paired: bool,
    row: usize,
    column: usize,
) -> (value: T)
    requires
        forall|sum: T, one: T, other: T| call_requires(*fuse, (sum, one, other)),
        forall|one: T, other: T| call_requires(*join, (one, other)),
        left@.len() == rows * inner,
        right@.len() == columns * inner,
        bias@.len() == columns,
        row < rows,
        column < columns,
    ensures
        decoder_cell(
            *fuse,
            *join,
            zero,
            left@,
            right@,
            bias@,
            inner as int,
            paired,
            row as int,
            column as int,
            value,
        ),
{
    let left_start: usize = offset(row, inner, rows, left.len());
    let right_start: usize = offset(column, inner, columns, right.len());
    let first: T = bias[column];
    if !paired {
        return fold_strided(fuse, first, left, left_start, 1, right, right_start, 1, inner);
    }
    let pairs: usize = inner / 2;
    let evens: usize = inner - pairs;
    let even: T = fold_strided(fuse, first, left, left_start, 2, right, right_start, 2, evens);
    let odd: T = if pairs == 0 {
        assert(kernels::strided(
            left@,
            left_start + 1,
            2,
            right@,
            right_start + 1,
            2,
            pairs as int,
        ) =~= Seq::empty());
        zero
    } else {
        fold_strided(fuse, zero, left, left_start + 1, 2, right, right_start + 1, 2, pairs)
    };
    join(even, odd)
}

/// Every cell of the decoder's product is made as it should be.
pub open spec fn is_product_of<T, F: Fn(T, T, T) -> T, G: Fn(T, T) -> T>(
    fuse: F,
    join: G,
    zero: T,
    left: Seq<T>,
    right: Seq<T>,
    bias: Seq<T>,
    rows: int,
    inner: int,
    columns: int,
    paired: bool,
    output: Seq<T>,
) -> bool {
    &&& output.len() == rows * columns
    &&& forall|row: usize, column: usize|
        row < rows && column < columns ==> decoder_cell(
            fuse,
            join,
            zero,
            left,
            right,
            bias,
            inner,
            paired,
            row as int,
            column as int,
            #[trigger] output[kernels::cell(row as int, column as int, columns)],
        )
}

/// The decoder's product of a matrix with a transposed one, on top of a bias.
pub fn decoder_gemm<T: Copy, F: Fn(T, T, T) -> T, G: Fn(T, T) -> T>(
    state: &DecoderActiveRows,
    fuse: &F,
    join: &G,
    zero: T,
    left: &[T],
    right: &[T],
    bias: &[T],
    rows: usize,
    inner: usize,
    columns: usize,
) -> (result: Result<Vec<T>, GemmError>)
    requires
        forall|sum: T, one: T, other: T| call_requires(*fuse, (sum, one, other)),
        forall|one: T, other: T| call_requires(*join, (one, other)),
    ensures
        match result {
            Ok(output) => kernels::gemm_sizes(
                left@.len() as int,
                right@.len() as int,
                bias@.len() as int,
                rows as int,
                inner as int,
                columns as int,
            ) && state@ <= rows && (state@ == 1 ==> inner % 4 == 0) && is_product_of(
                *fuse,
                *join,
                zero,
                left@,
                right@,
                bias@,
                rows as int,
                inner as int,
                columns as int,
                state@ == 1,
                output@,
            ),
            Err(error) => if !kernels::gemm_sizes(
                left@.len() as int,
                right@.len() as int,
                bias@.len() as int,
                rows as int,
                inner as int,
                columns as int,
            ) {
                error == GemmError::Dimensions
            } else if state@ > rows {
                error == GemmError::TooManyActiveRows
            } else {
                error == GemmError::Pairing && state@ == 1 && inner % 4 != 0
            },
        },
{
    if !is_product(left.len(), rows, inner) || !is_product(right.len(), columns, inner)
        || bias.len() != columns {
        return Err(GemmError::Dimensions);
    }
    let active: i32 = decoder_active_rows(state);
    if active as usize > rows {
        return Err(GemmError::TooManyActiveRows);
    }
    let paired: bool = active == 1;
    if paired && inner % 4 != 0 {
        return Err(GemmError::Pairing);
    }
    let element = |row: usize, column: usize| -> (value: T)
        requires
            row < rows,
            column < columns,
        ensures
            decoder_cell(
                *fuse,
                *join,
                zero,
                left@,
                right@,
                bias@,
                inner as int,
                paired,
                row as int,
                column as int,
                value,
            ),
        {
            product_cell(
                fuse,
                join,
                zero,
                left,
                right,
                bias,
                rows,
                inner,
                columns,
                paired,
                row,
                column,
            )
        };
    Ok(build(rows, columns, &element))
}

/// The row and column of a place in a matrix.
proof fn lemma_row_and_column(linear: int, rows: int, columns: int)
    requires
        0 <= linear < rows * columns,
        0 < columns,
    ensures
        0 <= linear / columns < rows,
        0 <= linear % columns < columns,
        kernels::cell(linear / columns, linear % columns, columns) == linear,
{
    lemma_fundamental_div_mod(linear, columns);
    lemma_mod_bound(linear, columns);
    lemma_div_pos_is_pos(linear, columns);
    let row = linear / columns;
    assert(row * columns == columns * row) by (nonlinear_arith);
    assert(row < rows) by (nonlinear_arith)
        requires
            row * columns <= linear,
            linear < rows * columns,
            columns > 0,
    ;
}

/// One cell of the decoder's product, by its place in the output.
pub fn decoder_gemm_element<T: Copy, F: Fn(T, T, T) -> T, G: Fn(T, T) -> T>(
    fuse: &F,
    join: &G,
    zero: T,
    left: &[T],
    right: &[T],
    bias: &[T],
    params: DecoderGemmParams,
    linear: usize,
) -> (value: T)
    requires
        forall|sum: T, one: T, other: T| call_requires(*fuse, (sum, one, other)),
        forall|one: T, other: T| call_requires(*join, (one, other)),
        has_sizes(params@, left@, right@, bias@),
        linear < params@.rows * params@.columns,
    ensures
        decoder_cell(
            *fuse,
            *join,
            zero,
            left@,
            right@,
            bias@,
            params@.inner,
            params@.paired,
            linear as int / params@.columns,
            linear as int % params@.columns,
            value,
        ),
{
    proof {
        lemma_row_and_column(linear as int, params@.rows, params@.columns);
    }
    product_cell(
        fuse,
        join,
        zero,
        left,
        right,
        bias,
        params.rows,
        params.inner,
        params.columns,
        params.paired,
        linear / params.columns,
        linear % params.columns,
    )
}

/// A matrix of `rows` rows by columns, one after the other.
pub open spec fn transposed<T>(cells: Seq<T>, rows: int, columns: int) -> Seq<T> {
    Seq::new(
        (rows * columns) as nat,
        |place: int| cells[kernels::cell(place % rows, place / rows, columns)],
    )
}

/// Turning a matrix round twice gives it back: what is packed can be unpacked.
pub proof fn law_unpacking_undoes_packing<T>(cells: Seq<T>, rows: int, columns: int)
    requires
        0 < rows,
        0 < columns,
        cells.len() == rows * columns,
    ensures
        transposed(transposed(cells, rows, columns), columns, rows) == cells,
{
    let packed = transposed(cells, rows, columns);
    let back = transposed(packed, columns, rows);
    assert(columns * rows == rows * columns) by (nonlinear_arith);
    assert forall|place: int| 0 <= place < cells.len() implies back[place] == cells[place] by {
        lemma_row_and_column(place, rows, columns);
        let row = place / columns;
        let column = place % columns;
        kernels::lemma_cell_inside(column, columns, row, rows);
        let inside = kernels::cell(column, row, rows);
        lemma_fundamental_div_mod_converse(inside, rows, column, row);
    }
    assert(back =~= cells);
}

/// A matrix by columns.
fn transpose<T: Copy>(cells: &[T], rows: usize, columns: usize) -> (result: Vec<T>)
    requires
        cells@.len() == rows * columns,
        rows > 0,
    ensures
        result@ == transposed(cells@, rows as int, columns as int),
{
    let len: usize = cells.len();
    let element = |column: usize, row: usize| -> (value: T)
        requires
            row < rows,
            column < columns,
        ensures
            value == cells@[kernels::cell(row as int, column as int, columns as int)],
        {
            let start: usize = offset(row, columns, rows, len);
            cells[start + column]
        };
    let result: Vec<T> = build(columns, rows, &element);
    proof {
        assert(columns * rows == rows * columns) by (nonlinear_arith);
        let expected = transposed(cells@, rows as int, columns as int);
        assert forall|place: int| 0 <= place < result@.len() implies result@[place]
            == expected[place] by {
            lemma_row_and_column(place, columns as int, rows as int);
            let column = (place / rows as int) as usize;
            let row = (place % rows as int) as usize;
            assert(result@[kernels::cell(column as int, row as int, rows as int)]
                == result@[place]);
            assert(call_ensures(element, (column, row), result@[place]));
        }
        assert(result@ =~= expected);
    }
    result
}

/// The rows of a block side by side, column by column; nothing unless there are as many rows as a
/// block has.
pub open spec fn packed_left<T>(left: Seq<T>, rows: int, inner: int) -> Seq<T> {
    if rows == ROWS_PER_BLOCK {
        transposed(left, rows, inner)
    } else {
        Seq::empty()
    }
}

/// Packs the left matrix.
pub fn pack_decoder_gemm_left<T: Copy>(left: &[T], params: DecoderGemmParams) -> (packed: Vec<T>)
    requires
        left@.len() == params@.rows * params@.inner,
    ensures
        packed@ == packed_left(left@, params@.rows, params@.inner),
{
    if params.rows != ROWS_PER_BLOCK {
        return Vec::new();
    }
    transpose(left, params.rows, params.inner)
}

/// Packs the left matrix into a vector that is at hand.
pub fn pack_decoder_gemm_left_into<T: Copy>(
    left: &[T],
    params: DecoderGemmParams,
    packed: &mut Vec<T>,
)
    requires
        left@.len() == params@.rows * params@.inner,
    ensures
        final(packed)@ == packed_left(left@, params@.rows, params@.inner),
{
    *packed = pack_decoder_gemm_left(left, params);
}

/// Unpacks the left matrix.
pub fn unpack_decoder_gemm_left<T: Copy>(packed: &[T], params: DecoderGemmParams) -> (left: Vec<T>)
    requires
        packed@.len() == params@.inner * params@.rows,
        params@.inner > 0,
    ensures
        left@ == transposed(packed@, params@.inner, params@.rows),
{
    transpose(packed, params.inner, params.rows)
}

/// A block of columns of the decoder's product.
#[derive(Debug)]
pub struct DecoderGemmBlock<T> {
    values: Vec<T>,
    columns: usize,
}

/// The content of a block: its values, column by column, and how many columns it fills.
pub struct Block<T> {
    pub values: Seq<T>,
    pub columns: int,
}

impl<T> View for DecoderGemmBlock<T> {
    type V = Block<T>;

    closed spec fn view(&self) -> Block<T> {
        Block { values: self.values@, columns: self.columns as int }
    }
}

/// The place of a value in a block.
pub open spec fn block_cell(column: int, row: int) -> int {
    column * ROWS_PER_BLOCK + row
}

impl<T: Copy> DecoderGemmBlock<T> {
    /// How many columns the block fills.
    pub fn columns(&self) -> (result: usize)
        ensures
            result == self@.columns,
    {
        self.columns
    }

    /// A value of the block.
    pub fn value(&self, column: usize, row: usize) -> (result: T)
        requires
            self@.values.len() == COLUMNS_PER_BLOCK * ROWS_PER_BLOCK,
            column < COLUMNS_PER_BLOCK,
            row < ROWS_PER_BLOCK,
        ensures
            result == self@.values[block_cell(column as int, row as int)],
    {
        self.values[column * ROWS_PER_BLOCK + row]
    }
}

/// A block holds the cells of the product in its columns, and zeros in the columns that it does
/// not fill.
pub open spec fn is_block_of<T, F: Fn(T, T, T) -> T, G: Fn(T, T) -> T>(
    fuse: F,
    join: G,
    zero: T,
    left: Seq<T>,
    right: Seq<T>,
    bias: Seq<T>,
    sizes: Sizes,
    block: int,
    found: Block<T>,
) -> bool {
    let first = block * COLUMNS_PER_BLOCK;
    &&& found.values.len() == COLUMNS_PER_BLOCK * ROWS_PER_BLOCK
    &&& found.columns == if sizes.columns - first < COLUMNS_PER_BLOCK {
        sizes.columns - first
    } else {
        COLUMNS_PER_BLOCK as int
    }
    &&& forall|column: int, row: int|
        0 <= column < COLUMNS_PER_BLOCK && 0 <= row < ROWS_PER_BLOCK ==> if column
            < found.columns {
            decoder_cell(
                fuse,
                join,
                zero,
                left,
                right,
                bias,
                sizes.inner,
                sizes.paired,
                row,
                first + column,
                #[trigger] found.values[block_cell(column, row)],
            )
        } else {
            found.values[block_cell(column, row)] == zero
        }
}

/// A block of columns of the decoder's product, from a packed left matrix.
pub fn decoder_gemm_column_block<T: Copy, F: Fn(T, T, T) -> T, G: Fn(T, T) -> T>(
    fuse: &F,
    join: &G,
    zero: T,
    packed: &[T],
    right: &[T],
    bias: &[T],
    params: DecoderGemmParams,
    block: usize,
) -> (result: DecoderGemmBlock<T>)
    requires
        forall|sum: T, one: T, other: T| call_requires(*fuse, (sum, one, other)),
        forall|one: T, other: T| call_requires(*join, (one, other)),
        params@.rows == ROWS_PER_BLOCK,
        has_sizes(params@, packed@, right@, bias@),
        block * COLUMNS_PER_BLOCK <= params@.columns,
    ensures
        is_block_of(
            *fuse,
            *join,
            zero,
            transposed(packed@, params@.inner, params@.rows),
            right@,
            bias@,
            params@,
            block as int,
            result@,
        ),
{
    proof {
        let rows = params@.rows;
        let inner = params@.inner;
        assert(inner * rows == rows * inner) by (nonlinear_arith);
    }
    let left: Vec<T> = unpack_decoder_gemm_left(packed, params);
    let first: usize = block * COLUMNS_PER_BLOCK;
    let rest: usize = params.columns - first;
    let columns: usize = if rest < COLUMNS_PER_BLOCK {
        rest
    } else {
        COLUMNS_PER_BLOCK
    };
    let left_slice: &[T] = left.as_slice();
    let element = |column: usize, row: usize| -> (value: T)
        requires
            column < COLUMNS_PER_BLOCK,
            row < ROWS_PER_BLOCK,
        ensures
            if column < columns {
                decoder_cell(
                    *fuse,
                    *join,
                    zero,
                    left_slice@,
                    right@,
                    bias@,
                    params@.inner,
                    params@.paired,
                    row as int,
                    first + column,
                    value,
                )
            } else {
                value == zero
            },
        {
            if column < columns {
                product_cell(
                    fuse,
                    join,
                    zero,
                    left_slice,
                    right,
                    bias,
                    params.rows,
                    params.inner,
                    params.columns,
                    params.paired,
                    row,
                    first + column,
                )
            } else {
                zero
            }
        };
    let values: Vec<T> = build(COLUMNS_PER_BLOCK, ROWS_PER_BLOCK, &element);
    proof {
        assert forall|column: int, row: int|
            0 <= column < COLUMNS_PER_BLOCK && 0 <= row < ROWS_PER_BLOCK implies if column
            < columns {
            decoder_cell(
                *fuse,
                *join,
                zero,
                left@,
                right@,
                bias@,
                params@.inner,
                params@.paired,
                row,
                first + column,
                #[trigger] values@[block_cell(column, row)],
            )
        } else {
            values@[block_cell(column, row)] == zero
        } by {
            let cell = values@[kernels::cell(column, row, ROWS_PER_BLOCK as int)];
            assert(call_ensures(element, (column as usize, row as usize), cell));
        }
    }
    DecoderGemmBlock { values, columns }
}

/// The cells of the first `count` columns are made as they should be.
spec fn columns_done<T, F: Fn(T, T, T) -> T, G: Fn(T, T) -> T>(
    fuse: F,
    join: G,
    zero: T,
    left: Seq<T>,
    right: Seq<T>,
    bias: Seq<T>,
    sizes: Sizes,
    count: int,
    output: Seq<T>,
) -> bool {
    &&& output.len() == sizes.rows * sizes.columns
    &&& forall|row: usize, column: usize|
        row < sizes.rows && column < count ==> decoder_cell(
            fuse,
            join,
            zero,
            left,
            right,
            bias,
            sizes.inner,
            sizes.paired,
            row as int,
            column as int,
            #[trigger] output[kernels::cell(row as int, column as int, sizes.columns)],
        )
}

/// Two cells of a matrix are the same only if their rows and columns are.
proof fn lemma_cells_differ(row: int, column: int, other_row: int, other_column: int, columns: int)
    requires
        0 <= column < columns,
        0 <= other_column < columns,
        kernels::cell(row, column, columns) == kernels::cell(other_row, other_column, columns),
    ensures
        row == other_row,
        column == other_column,
{
    lemma_fundamental_div_mod_converse(
        kernels::cell(row, column, columns),
        columns,
        row,
        column,
    );
    lemma_fundamental_div_mod_converse(
        kernels::cell(other_row, other_column, columns),
        columns,
        other_row,
        other_column,
    );
}

/// Writes one column of a block into the output.
fn write_column<T: Copy, F: Fn(T, T, T) -> T, G: Fn(T, T) -> T>(
    fuse: &F,
    join: &G,
    zero: T,
    left: &[T],
    right: &[T],
    bias: &[T],
    params: DecoderGemmParams,
    block: usize,
    values: &DecoderGemmBlock<T>,
    column: usize,
    output: &mut [T],
)
    requires
        params@.rows == ROWS_PER_BLOCK,
        0 < params@.columns,
        params@.rows * params@.columns <= usize::MAX,
        is_block_of(*fuse, *join, zero, left@, right@, bias@, params@, block as int, values@),
        block * COLUMNS_PER_BLOCK + column < params@.columns,
        column < values@.columns,
        columns_done(
            *fuse,
            *join,
            zero,
            left@,
            right@,
            bias@,
            params@,
            block * COLUMNS_PER_BLOCK + column,
            old(output)@,
        ),
    ensures
        columns_done(
            *fuse,
            *join,
            zero,
            left@,
            right@,
            bias@,
            params@,
            block * COLUMNS_PER_BLOCK + column + 1,
            final(output)@,
        ),
{
    let place: usize = block * COLUMNS_PER_BLOCK + column;
    for row in 0..ROWS_PER_BLOCK
        invariant
            params@.rows == ROWS_PER_BLOCK,
            0 < params@.columns,
            params@.rows * params@.columns <= usize::MAX,
            is_block_of(*fuse, *join, zero, left@, right@, bias@, params@, block as int, values@),
            place == block * COLUMNS_PER_BLOCK + column,
            place < params@.columns,
            column < values@.columns,
            columns_done(
                *fuse,
                *join,
                zero,
                left@,
                right@,
                bias@,
                params@,
                place as int,
                output@,
            ),
            forall|above: usize|
                above < row ==> decoder_cell(
                    *fuse,
                    *join,
                    zero,
                    left@,
                    right@,
                    bias@,
                    params@.inner,
                    params@.paired,
                    above as int,
                    place as int,
                    #[trigger] output@[kernels::cell(above as int, place as int, params@.columns)],
                ),
    {
        let value: T = values.value(column, row);
        proof {
            kernels::lemma_cell_inside(row as int, params@.rows, place as int, params@.columns);
        }
        let ghost before = output@;
        let target: usize = row * params.columns + place;
        output[target] = value;
        proof {
            let columns = params@.columns;
            assert forall|above: usize, other: usize|
                above < params@.rows && other < place implies decoder_cell(
                *fuse,
                *join,
                zero,
                left@,
                right@,
                bias@,
                params@.inner,
                params@.paired,
                above as int,
                other as int,
                #[trigger] output@[kernels::cell(above as int, other as int, columns)],
            ) by {
                let cell = kernels::cell(above as int, other as int, columns);
                kernels::lemma_cell_inside(above as int, params@.rows, other as int, columns);
                if cell == target {
                    lemma_cells_differ(
                        above as int,
                        other as int,
                        row as int,
                        place as int,
                        columns,
                    );
                }
                assert(output@[cell] == before[cell]);
            }
            assert forall|above: usize| above < row + 1 implies decoder_cell(
                *fuse,
                *join,
                zero,
                left@,
                right@,
                bias@,
                params@.inner,
                params@.paired,
                above as int,
                place as int,
                #[trigger] output@[kernels::cell(above as int, place as int, columns)],
            ) by {
                let cell = kernels::cell(above as int, place as int, columns);
                kernels::lemma_cell_inside(above as int, params@.rows, place as int, columns);
                if above < row {
                    if cell == target {
                        lemma_cells_differ(
                            above as int,
                            place as int,
                            row as int,
                            place as int,
                            columns,
                        );
                    }
                    assert(output@[cell] == before[cell]);
                } else {
                    assert(values@.values[block_cell(column as int, row as int)] == value);
                }
            }
        }
    }
    proof {
        assert forall|row: usize, other: usize|
            row < params@.rows && other < place + 1 implies decoder_cell(
            *fuse,
            *join,
            zero,
            left@,
            right@,
            bias@,
            params@.inner,
            params@.paired,
            row as int,
            other as int,
            #[trigger] output@[kernels::cell(row as int, other as int, params@.columns)],
        ) by {
            if other == place {
                assert(other as int == place as int);
            }
        }
    }
}

/// Writes the decoder's product into a slice that is at hand.
pub fn decoder_gemm_into<T: Copy, F: Fn(T, T, T) -> T, G: Fn(T, T) -> T>(
    state: &DecoderActiveRows,
    neon_available: bool,
    fuse: &F,
    join: &G,
    zero: T,
    left: &[T],
    right: &[T],
    bias: &[T],
    rows: usize,
    inner: usize,
    columns: usize,
    output: &mut [T],
) -> (result: Result<(), GemmError>)
    requires
        forall|sum: T, one: T, other: T| call_requires(*fuse, (sum, one, other)),
        forall|one: T, other: T| call_requires(*join, (one, other)),
    ensures
        match sizes_error(
            state@,
            left@.len() as int,
            right@.len() as int,
            bias@.len() as int,
            rows as int,
            inner as int,
            columns as int,
        ) {
            Some(error) => final(output)@ == old(output)@ && result == Err::<(), GemmError>(error),
            None => if old(output)@.len() != rows * columns {
                final(output)@ == old(output)@ && result == Err::<(), GemmError>(GemmError::Output)
            } else {
                result is Ok && is_product_of(
                    *fuse,
                    *join,
                    zero,
                    left@,
                    right@,
                    bias@,
                    rows as int,
                    inner as int,
                    columns as int,
                    state@ == 1,
                    final(output)@,
                )
            },
        },
{
    let params: DecoderGemmParams = match decoder_gemm_params(
        state,
        left,
        right,
        bias,
        rows,
        inner,
        columns,
    ) {
        Ok(params) => params,
        Err(error) => {
            return Err(error);
        },
    };
    if output.len() != params.output_len() {
        return Err(GemmError::Output);
    }
    if params.uses_packed_neon(neon_available) {
        write_blocks(fuse, join, zero, left, right, bias, params, output);
        return Ok(());
    }
    let total: usize = output.len();
    for linear in 0..total
        invariant
            forall|sum: T, one: T, other: T| call_requires(*fuse, (sum, one, other)),
            forall|one: T, other: T| call_requires(*join, (one, other)),
            has_sizes(params@, left@, right@, bias@),
            total == output@.len() == params@.rows * params@.columns,
            forall|place: int|
                0 <= place < linear ==> decoder_cell(
                    *fuse,
                    *join,
                    zero,
                    left@,
                    right@,
                    bias@,
                    params@.inner,
                    params@.paired,
                    place / params@.columns,
                    place % params@.columns,
                    #[trigger] output@[place],
                ),
    {
        let value: T = decoder_gemm_element(fuse, join, zero, left, right, bias, params, linear);
        output[linear] = value;
    }
    proof {
        assert forall|row: usize, column: usize| row < rows && column < columns implies decoder_cell(
            *fuse,
            *join,
            zero,
            left@,
            right@,
            bias@,
            inner as int,
            state@ == 1,
            row as int,
            column as int,
            #[trigger] output@[kernels::cell(row as int, column as int, columns as int)],
        ) by {
            let cell = kernels::cell(row as int, column as int, columns as int);
            kernels::lemma_cell_inside(row as int, rows as int, column as int, columns as int);
            lemma_fundamental_div_mod_converse(cell, columns as int, row as int, column as int);
        }
    }
    Ok(())
}

/// Writes the product block by block.
fn write_blocks<T: Copy, F: Fn(T, T, T) -> T, G: Fn(T, T) -> T>(
    fuse: &F,
    join: &G,
    zero: T,
    left: &[T],
    right: &[T],
    bias: &[T],
    params: DecoderGemmParams,
    output: &mut [T],
)
    requires
        forall|sum: T, one: T, other: T| call_requires(*fuse, (sum, one, other)),
        forall|one: T, other: T| call_requires(*join, (one, other)),
        params@.rows == ROWS_PER_BLOCK,
        has_sizes(params@, left@, right@, bias@),
        old(output)@.len() == params@.rows * params@.columns,
    ensures
        is_product_of(
            *fuse,
            *join,
            zero,
            left@,
            right@,
            bias@,
            params@.rows,
            params@.inner,
            params@.columns,
            params@.paired,
            final(output)@,
        ),
{
    let packed: Vec<T> = pack_decoder_gemm_left(left, params);
    proof {
        law_unpacking_undoes_packing(left@, params@.rows, params@.inner);
    }
    let blocks: usize = params.column_blocks();
    for block in 0..blocks
        invariant
            forall|sum: T, one: T, other: T| call_requires(*fuse, (sum, one, other)),
            forall|one: T, other: T| call_requires(*join, (one, other)),
            params@.rows == ROWS_PER_BLOCK,
            has_sizes(params@, left@, right@, bias@),
            has_sizes(params@, packed@, right@, bias@),
            transposed(packed@, params@.inner, params@.rows) == left@,
            blocks == (params@.columns + COLUMNS_PER_BLOCK - 1) / COLUMNS_PER_BLOCK as int,
            columns_done(
                *fuse,
                *join,
                zero,
                left@,
                right@,
                bias@,
                params@,
                if block * COLUMNS_PER_BLOCK < params@.columns {
                    block * COLUMNS_PER_BLOCK
                } else {
                    params@.columns
                },
                output@,
            ),
    {
        let values: DecoderGemmBlock<T> = decoder_gemm_column_block(
            fuse,
            join,
            zero,
            packed.as_slice(),
            right,
            bias,
            params,
            block,
        );
        let count: usize = values.columns();
        for column in 0..count
            invariant
                params@.rows == ROWS_PER_BLOCK,
                has_sizes(params@, left@, right@, bias@),
                is_block_of(
                    *fuse,
                    *join,
                    zero,
                    left@,
                    right@,
                    bias@,
                    params@,
                    block as int,
                    values@,
                ),
                count == values@.columns,
                block * COLUMNS_PER_BLOCK + count <= params@.columns,
                columns_done(
                    *fuse,
                    *join,
                    zero,
                    left@,
                    right@,
                    bias@,
                    params@,
                    block * COLUMNS_PER_BLOCK + column,
                    output@,
                ),
        {
            write_column(
                fuse,
                join,
                zero,
                left,
                right,
                bias,
                params,
                block,
                &values,
                column,
                output,
            );
        }
    }
}

/// With exact numbers, a cell of the decoder's product is the bias of its column and the products of
/// its row with that column, whether its sums are taken in pairs or not.
pub proof fn law_decoder_cells_are_matrix_products<
    F: Fn(i64, i64, i64) -> i64,
    G: Fn(i64, i64) -> i64,
>(
    fuse: F,
    join: G,
    left: Seq<i64>,
    right: Seq<i64>,
    bias: Seq<i64>,
    inner: int,
    paired: bool,
    row: int,
    column: int,
    value: i64,
)
    requires
        kernels::exact(fuse),
        kernels::exact_sum(join),
        0 <= inner,
        paired ==> inner % 2 == 0,
        decoder_cell(fuse, join, 0, left, right, bias, inner, paired, row, column, value),
    ensures
        value == bias[column] + kernels::total(
            |place: int|
                left[kernels::cell(row, place, inner)] * right[kernels::cell(
                    column,
                    place,
                    inner,
                )],
            inner,
        ),
{
    let terms = |place: int|
        left[kernels::cell(row, place, inner)] * right[kernels::cell(column, place, inner)];
    if paired {
        let (even, odd) = choose|even: i64, odd: i64|
            {
                &&& kernels::folds(
                    fuse,
                    kernels::strided(
                        left,
                        row * inner,
                        2,
                        right,
                        column * inner,
                        2,
                        (inner + 1) / 2,
                    ),
                    bias[column],
                    even,
                )
                &&& kernels::folds(
                    fuse,
                    kernels::strided(
                        left,
                        row * inner + 1,
                        2,
                        right,
                        column * inner + 1,
                        2,
                        inner / 2,
                    ),
                    0,
                    odd,
                )
                &&& #[trigger] call_ensures(join, (even, odd), value)
            };
        let half = inner / 2;
        let evens = |index: int| terms(2 * index);
        let odds = |index: int| terms(2 * index + 1);
        kernels::lemma_strided_total(
            fuse,
            left,
            row * inner,
            2,
            right,
            column * inner,
            2,
            (inner + 1) / 2,
            evens,
            bias[column],
            even,
        );
        kernels::lemma_strided_total(
            fuse,
            left,
            row * inner + 1,
            2,
            right,
            column * inner + 1,
            2,
            half,
            odds,
            0,
            odd,
        );
        kernels::lemma_total_of_two(terms, half);
        assert(2 * half == inner);
    } else {
        kernels::lemma_strided_total(
            fuse,
            left,
            row * inner,
            1,
            right,
            column * inner,
            1,
            inner,
            terms,
            bias[column],
            value,
        );
    }
}

}
