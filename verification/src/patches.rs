//! A convolution as a matrix product: patches of the input become rows, and the rows of the product
//! become planes of the output.

use vstd::arithmetic::div_mod::*;
use vstd::prelude::*;

use crate::convolution;
use crate::convolution::{has_volume, Conv2dParams, CHANNEL_GROUP};
use crate::kernels;
use crate::kernels::{build, is_product, DimensionError};

verus! {

/// A dimension of a matrix as the matrix library takes it.
pub fn cblas_dimension(value: usize) -> (result: Result<i32, DimensionError>)
    ensures
        match result {
            Ok(dimension) => dimension == value,
            Err(_) => value > i32::MAX,
        },
{
    if value > i32::MAX as usize {
        Err(DimensionError)
    } else {
        Ok(value as i32)
    }
}

/// The input and the output have the sizes of a convolution, all of them small enough to count.
pub open spec fn patch_sizes(input: int, params: Conv2dParams) -> bool {
    &&& params.kernel_fits()
    &&& params.batch * params.input_channels <= usize::MAX
    &&& convolution::is_volume(
        input,
        params.batch * params.input_channels,
        params.input_height as int,
        params.input_width as int,
    )
    &&& params.batch * params.height() <= usize::MAX
    &&& params.batch * params.height() * params.width() <= usize::MAX
    &&& params.input_channels * params.kernel_height <= usize::MAX
    &&& params.input_channels * params.kernel_height * params.kernel_width <= usize::MAX
}

/// The input value that stands in a patch: patches count over batch, height and width of the
/// output, and places in a patch over channels, height and width of the kernel.
pub open spec fn patch_value<T>(input: Seq<T>, params: Conv2dParams, patch: int, place: int) -> T {
    let x = patch % params.width();
    let y = patch / params.width() % params.height();
    let batch = patch / params.width() / params.height();
    let kernel_x = place % params.kernel_width as int;
    let kernel_y = place / params.kernel_width as int % params.kernel_height as int;
    let channel = place / params.kernel_width as int / params.kernel_height as int;
    input[convolution::plane_cell(
        kernels::cell(batch, channel, params.input_channels as int),
        y * params.stride_height + kernel_y,
        x * params.stride_width + kernel_x,
        params.input_height as int,
        params.input_width as int,
    )]
}

/// The operands have the sizes of a convolution by patches: the weights have a row of a patch's
/// length for each output channel, and the product of both can be counted.
pub open spec fn conv_sizes(input: int, weights: int, bias: int, params: Conv2dParams) -> bool {
    let inner = params.input_channels * params.kernel_height * params.kernel_width;
    let rows = params.batch * params.height() * params.width();
    &&& patch_sizes(input, params)
    &&& params.input_channels == 1 || params.input_channels % CHANNEL_GROUP == 0
    &&& weights == params.output_channels * inner
    &&& rows * inner <= usize::MAX
    &&& rows * params.output_channels <= usize::MAX
    &&& product_sizes(rows * params.output_channels, bias, params)
}

/// Checks the operands of a convolution by patches; the rows of its patches and how long they are.
pub fn check_conv(
    input: usize,
    weights: usize,
    bias: usize,
    params: Conv2dParams,
) -> (result: Result<(usize, usize), DimensionError>)
    ensures
        match result {
            Ok((rows, inner)) => conv_sizes(input as int, weights as int, bias as int, params)
                && rows == params.batch * params.height() * params.width() && inner
                == params.input_channels * params.kernel_height * params.kernel_width,
            Err(_) => !conv_sizes(input as int, weights as int, bias as int, params),
        },
{
    if params.kernel_height == 0 || params.kernel_height > params.input_height
        || params.kernel_width == 0 || params.kernel_width > params.input_width
        || params.stride_height == 0 || params.stride_width == 0 || bias != params.output_channels
        || (params.input_channels != 1 && params.input_channels % CHANNEL_GROUP != 0) {
        return Err(DimensionError);
    }
    let height: usize = params.output_height();
    let width: usize = params.output_width();
    let inner: usize = match product_of(
        params.input_channels,
        params.kernel_height,
        params.kernel_width,
    ) {
        Some(inner) => inner,
        None => {
            return Err(DimensionError);
        },
    };
    let rows: usize = match product_of(params.batch, height, width) {
        Some(rows) => rows,
        None => {
            return Err(DimensionError);
        },
    };
    let planes: usize = match params.batch.checked_mul(params.input_channels) {
        Some(planes) => planes,
        None => {
            return Err(DimensionError);
        },
    };
    let counted: bool = rows.checked_mul(inner).is_some() && rows.checked_mul(
        params.output_channels,
    ).is_some() && product_of(params.batch, params.output_channels, height).is_some();
    if !counted || !has_volume(input, planes, params.input_height, params.input_width)
        || !is_product(weights, params.output_channels, inner) {
        return Err(DimensionError);
    }
    Ok((rows, inner))
}

/// The product of three numbers, unless it or that of the first two is too large.
fn product_of(first: usize, second: usize, third: usize) -> (result: Option<usize>)
    ensures
        match result {
            Some(product) => first * second <= usize::MAX && product == first * second * third,
            None => first * second > usize::MAX || first * second * third > usize::MAX,
        },
{
    match first.checked_mul(second) {
        Some(both) => both.checked_mul(third),
        None => None,
    }
}

/// The patches of the input, one row each.
pub fn input_patches<T: Copy>(input: &[T], params: Conv2dParams) -> (patches: Vec<T>)
    requires
        patch_sizes(input@.len() as int, params),
    ensures
        patches@.len() == params.batch * params.height() * params.width() * (params.input_channels
            * params.kernel_height * params.kernel_width),
        forall|patch: usize, place: usize|
            patch < params.batch * params.height() * params.width() && place
                < params.input_channels * params.kernel_height * params.kernel_width ==> (
            #[trigger] patches@[kernels::cell(
                patch as int,
                place as int,
                params.input_channels * params.kernel_height * params.kernel_width,
            )]) == patch_value(input@, params, patch as int, place as int),
{
    let height: usize = params.output_height();
    let width: usize = params.output_width();
    let rows: usize = params.batch * height * width;
    let inner: usize = params.input_channels * params.kernel_height * params.kernel_width;
    let element = |patch: usize, place: usize| -> (value: T)
        requires
            patch < rows,
            place < inner,
        ensures
            value == patch_value(input@, params, patch as int, place as int),
        {
            let len: usize = input.len();
            proof {
                lemma_patch_place(params, patch as int, place as int, len as int);
            }
            let x: usize = patch % width;
            let y: usize = patch / width % height;
            let batch: usize = patch / width / height;
            let kernel_x: usize = place % params.kernel_width;
            let kernel_y: usize = place / params.kernel_width % params.kernel_height;
            let channel: usize = place / params.kernel_width / params.kernel_height;
            let plane: usize = batch * params.input_channels + channel;
            let row: usize = plane * params.input_height + (y * params.stride_height + kernel_y);
            input[row * params.input_width + (x * params.stride_width + kernel_x)]
        };
    build(rows, inner, &element)
}

/// A place of a patch lies within the input.
proof fn lemma_patch_place(params: Conv2dParams, patch: int, place: int, len: int)
    requires
        patch_sizes(len, params),
        0 <= patch < params.batch * params.height() * params.width(),
        0 <= place < params.input_channels * params.kernel_height * params.kernel_width,
        len <= usize::MAX,
    ensures
        ({
            let x = patch % params.width();
            let y = patch / params.width() % params.height();
            let batch = patch / params.width() / params.height();
            let kernel_x = place % params.kernel_width as int;
            let kernel_y = place / params.kernel_width as int % params.kernel_height as int;
            let channel = place / params.kernel_width as int / params.kernel_height as int;
            let plane = kernels::cell(batch, channel, params.input_channels as int);
            let row = kernels::cell(
                plane,
                y * params.stride_height + kernel_y,
                params.input_height as int,
            );
            let cell = kernels::cell(
                row,
                x * params.stride_width + kernel_x,
                params.input_width as int,
            );
            &&& 0 <= batch * params.input_channels
            &&& 0 <= plane <= usize::MAX
            &&& 0 <= y * params.stride_height
            &&& y * params.stride_height + kernel_y < params.input_height
            &&& 0 <= x * params.stride_width
            &&& x * params.stride_width + kernel_x < params.input_width
            &&& 0 <= plane * params.input_height
            &&& 0 <= row <= usize::MAX
            &&& 0 <= row * params.input_width
            &&& 0 <= cell < len
        }),
{
    let width = params.width();
    let height = params.height();
    let kernel_width = params.kernel_width as int;
    let kernel_height = params.kernel_height as int;
    let channels = params.input_channels as int;
    vstd::arithmetic::div_mod::lemma_div_pos_is_pos(
        params.input_width - params.kernel_width,
        params.stride_width as int,
    );
    vstd::arithmetic::div_mod::lemma_div_pos_is_pos(
        params.input_height - params.kernel_height,
        params.stride_height as int,
    );
    convolution::lemma_split(patch, params.batch * height, width);
    convolution::lemma_split(patch / width, params.batch as int, height);
    convolution::lemma_split(place, channels * kernel_height, kernel_width);
    convolution::lemma_split(place / kernel_width, channels, kernel_height);
    let x = patch % width;
    let y = patch / width % height;
    let batch = patch / width / height;
    let channel = place / kernel_width / kernel_height;
    convolution::lemma_patch_inside(
        y,
        params.input_height as int,
        kernel_height,
        params.stride_height as int,
    );
    convolution::lemma_patch_inside(
        x,
        params.input_width as int,
        kernel_width,
        params.stride_width as int,
    );
    kernels::lemma_cell_inside(batch, params.batch as int, channel, channels);
    let plane = kernels::cell(batch, channel, channels);
    let in_y = y * params.stride_height + place / kernel_width % kernel_height;
    let in_x = x * params.stride_width + place % kernel_width;
    kernels::lemma_cell_inside(
        plane,
        params.batch * channels,
        in_y,
        params.input_height as int,
    );
    kernels::lemma_cell_inside(
        kernels::cell(plane, in_y, params.input_height as int),
        params.batch * channels * params.input_height,
        in_x,
        params.input_width as int,
    );
}

/// The product has a row for each patch and a column for each output channel, all of them few
/// enough to count.
pub open spec fn product_sizes(product: int, bias: int, params: Conv2dParams) -> bool {
    &&& params.kernel_fits()
    &&& params.batch * params.height() <= usize::MAX
    &&& params.batch * params.height() * params.width() <= usize::MAX
    &&& product == params.batch * params.height() * params.width() * params.output_channels
    &&& bias == params.output_channels
    &&& params.batch * params.output_channels <= usize::MAX
    &&& params.batch * params.output_channels * params.height() <= usize::MAX
}

/// Where a value of the output stands in the product. Rows are counted over all output planes.
pub open spec fn product_place(params: Conv2dParams, row: int, x: int) -> int {
    let plane = row / params.height();
    let y = row % params.height();
    let channel = plane % params.output_channels as int;
    let batch = plane / params.output_channels as int;
    kernels::cell(
        kernels::cell(kernels::cell(batch, y, params.height()), x, params.width()),
        channel,
        params.output_channels as int,
    )
}

/// The planes of the output: each value of the product, finished with the bias of its channel.
pub fn output_planes<A: Copy, T, H: Fn(A, T) -> T>(
    finish: &H,
    product: &[A],
    bias: &[T],
    params: Conv2dParams,
) -> (output: Vec<T>) where T: Copy
    requires
        forall|value: A, bias: T| call_requires(*finish, (value, bias)),
        product_sizes(product@.len() as int, bias@.len() as int, params),
    ensures
        output@.len() == params.batch * params.output_channels * params.height() * params.width(),
        forall|row: usize, x: usize|
            row < params.batch * params.output_channels * params.height() && x < params.width()
                ==> call_ensures(
                *finish,
                (
                    product@[product_place(params, row as int, x as int)],
                    bias@[row as int / params.height() % params.output_channels as int],
                ),
                #[trigger] output@[kernels::cell(row as int, x as int, params.width())],
            ),
{
    let height: usize = params.output_height();
    let width: usize = params.output_width();
    let rows: usize = params.batch * params.output_channels * height;
    let element = |row: usize, x: usize| -> (value: T)
        requires
            row < rows,
            x < width,
        ensures
            call_ensures(
                *finish,
                (
                    product@[product_place(params, row as int, x as int)],
                    bias@[row as int / params.height() % params.output_channels as int],
                ),
                value,
            ),
        {
            let len: usize = product.len();
            proof {
                lemma_product_place(params, row as int, x as int, len as int);
            }
            let plane: usize = row / height;
            let channel: usize = plane % params.output_channels;
            let batch: usize = plane / params.output_channels;
            let patch: usize = (batch * height + row % height) * width + x;
            finish(product[patch * params.output_channels + channel], bias[channel])
        };
    build(rows, width, &element)
}

/// A value of the output has its place in the product.
proof fn lemma_product_place(params: Conv2dParams, row: int, x: int, len: int)
    requires
        product_sizes(len, params.output_channels as int, params),
        0 <= row < params.batch * params.output_channels * params.height(),
        0 <= x < params.width(),
    ensures
        params.output_channels > 0,
        ({
            let plane = row / params.height();
            let y = row % params.height();
            let channel = plane % params.output_channels as int;
            let batch = plane / params.output_channels as int;
            let line = kernels::cell(batch, y, params.height());
            let patch = kernels::cell(line, x, params.width());
            &&& 0 <= channel < params.output_channels
            &&& 0 <= batch * params.height()
            &&& 0 <= line < params.batch * params.height()
            &&& 0 <= line * params.width()
            &&& 0 <= patch < params.batch * params.height() * params.width()
            &&& 0 <= patch * params.output_channels
            &&& 0 <= product_place(params, row, x) < len
        }),
{
    let height = params.height();
    let width = params.width();
    let channels = params.output_channels as int;
    vstd::arithmetic::div_mod::lemma_div_pos_is_pos(
        params.input_height - params.kernel_height,
        params.stride_height as int,
    );
    convolution::lemma_split(row, params.batch * channels, height);
    let plane = row / height;
    assert(channels > 0) by (nonlinear_arith)
        requires
            0 <= plane < params.batch * channels,
            channels >= 0,
    ;
    convolution::lemma_split(plane, params.batch as int, channels);
    let batch = plane / channels;
    kernels::lemma_cell_inside(batch, params.batch as int, row % height, height);
    let line = kernels::cell(batch, row % height, height);
    kernels::lemma_cell_inside(line, params.batch * height, x, width);
    let patch = kernels::cell(line, x, width);
    kernels::lemma_cell_inside(patch, params.batch * height * width, plane % channels, channels);
}

/// A patch holds the input at its own place: by batch, row and column of the output for the patch,
/// and by channel, row and column of the kernel for the place in it.
pub proof fn law_patches_hold_their_part_of_the_input<T>(
    input: Seq<T>,
    params: Conv2dParams,
    batch: int,
    y: int,
    x: int,
    channel: int,
    kernel_y: int,
    kernel_x: int,
)
    requires
        params.kernel_fits(),
        0 <= batch,
        0 <= y < params.height(),
        0 <= x < params.width(),
        0 <= channel,
        0 <= kernel_y < params.kernel_height,
        0 <= kernel_x < params.kernel_width,
    ensures
        patch_value(
            input,
            params,
            convolution::plane_cell(batch, y, x, params.height(), params.width()),
            convolution::plane_cell(
                channel,
                kernel_y,
                kernel_x,
                params.kernel_height as int,
                params.kernel_width as int,
            ),
        ) == input[((batch * params.input_channels + channel) * params.input_height + (y
            * params.stride_height + kernel_y)) * params.input_width + (x * params.stride_width
            + kernel_x)],
{
    let patch_row = kernels::cell(batch, y, params.height());
    let patch = convolution::plane_cell(batch, y, x, params.height(), params.width());
    lemma_fundamental_div_mod_converse(patch, params.width(), patch_row, x);
    lemma_fundamental_div_mod_converse(patch_row, params.height(), batch, y);
    let kernel_row = kernels::cell(channel, kernel_y, params.kernel_height as int);
    let place = convolution::plane_cell(
        channel,
        kernel_y,
        kernel_x,
        params.kernel_height as int,
        params.kernel_width as int,
    );
    lemma_fundamental_div_mod_converse(place, params.kernel_width as int, kernel_row, kernel_x);
    lemma_fundamental_div_mod_converse(
        kernel_row,
        params.kernel_height as int,
        channel,
        kernel_y,
    );
}

/// A value of the output at a batch, channel, row and column is in the product where the patch of
/// that batch, row and column meets the weights of the channel.
pub proof fn law_outputs_stand_where_patch_and_channel_meet(
    params: Conv2dParams,
    batch: int,
    channel: int,
    y: int,
    x: int,
)
    requires
        params.kernel_fits(),
        0 <= batch,
        0 <= channel < params.output_channels,
        0 <= y < params.height(),
    ensures
        product_place(
            params,
            convolution::plane_cell(
                batch,
                channel,
                y,
                params.output_channels as int,
                params.height(),
            ),
            x,
        ) == ((batch * params.height() + y) * params.width() + x) * params.output_channels
            + channel,
{
    let plane = kernels::cell(batch, channel, params.output_channels as int);
    let row = convolution::plane_cell(
        batch,
        channel,
        y,
        params.output_channels as int,
        params.height(),
    );
    lemma_fundamental_div_mod_converse(row, params.height(), plane, y);
    lemma_fundamental_div_mod_converse(plane, params.output_channels as int, batch, channel);
}

}
