//! Convolutions over planes of numbers of any kind. The arithmetic is handed in as functions.

use vstd::arithmetic::div_mod::*;
use vstd::prelude::*;

use crate::kernels;
use crate::kernels::{build, fold_strided, DimensionError};

verus! {

/// How many channels are summed up in the narrow kind of number side by side.
pub const CHANNEL_GROUP: usize = 8;

/// The sizes of a convolution.
#[derive(Clone, Copy, Debug)]
pub struct Conv2dParams {
    pub batch: usize,
    pub input_channels: usize,
    pub input_height: usize,
    pub input_width: usize,
    pub output_channels: usize,
    pub kernel_height: usize,
    pub kernel_width: usize,
    pub stride_height: usize,
    pub stride_width: usize,
}

/// A place in a plane of a volume.
pub open spec fn plane_cell(plane: int, y: int, x: int, height: int, width: int) -> int {
    kernels::cell(kernels::cell(plane, y, height), x, width)
}

/// The cells of the first `rows` rows of a patch of an input plane with those of a kernel.
pub open spec fn patch_pairs<T>(
    input: Seq<T>,
    plane: int,
    height: int,
    width: int,
    top: int,
    left: int,
    weights: Seq<T>,
    kernel: int,
    kernel_height: int,
    kernel_width: int,
    rows: int,
) -> Seq<(T, T)>
    decreases rows,
{
    if rows <= 0 {
        Seq::empty()
    } else {
        patch_pairs(
            input,
            plane,
            height,
            width,
            top,
            left,
            weights,
            kernel,
            kernel_height,
            kernel_width,
            rows - 1,
        ) + kernels::strided(
            input,
            plane_cell(plane, top + rows - 1, left, height, width),
            1,
            weights,
            plane_cell(kernel, rows - 1, 0, kernel_height, kernel_width),
            1,
            kernel_width,
        )
    }
}

/// Taking in pairs and then others is taking in all of them.
proof fn lemma_folds_join<T, A, F: Fn(A, T, T) -> A>(
    take: F,
    first: Seq<(T, T)>,
    second: Seq<(T, T)>,
    start: A,
    between: A,
    result: A,
)
    requires
        kernels::folds(take, first, start, between),
        kernels::folds(take, second, between, result),
    ensures
        kernels::folds(take, first + second, start, result),
    decreases second.len(),
{
    let all = first + second;
    if second.len() == 0 {
        assert(all =~= first);
    } else {
        let before = choose|before: A|
            {
                &&& kernels::folds(take, second.drop_last(), between, before)
                &&& #[trigger] call_ensures(take, (before, second.last().0, second.last().1), result)
            };
        lemma_folds_join(take, first, second.drop_last(), start, between, before);
        kernels::lemma_folds_push(
            take,
            first + second.drop_last(),
            start,
            before,
            second.last(),
            result,
        );
        assert((first + second.drop_last()).push(second.last()) =~= all);
    }
}

/// A row of a patch lies within its volume.
proof fn lemma_patch_row(
    plane: int,
    planes: int,
    y: int,
    height: int,
    x: int,
    width: int,
    count: int,
)
    requires
        0 <= plane < planes,
        0 <= y < height,
        0 <= x,
        0 < count,
        x + count <= width,
    ensures
        0 <= plane * height,
        plane * height + y < planes * height,
        0 <= kernels::cell(plane, y, height) * width,
        0 <= plane_cell(plane, y, x, height, width),
        plane_cell(plane, y, x, height, width) + count <= planes * height * width,
{
    kernels::lemma_cell_inside(plane, planes, y, height);
    kernels::lemma_cell_inside(kernels::cell(plane, y, height), planes * height, x, width);
    kernels::lemma_cell_inside(
        kernels::cell(plane, y, height),
        planes * height,
        x + count - 1,
        width,
    );
}

/// Takes in a patch of an input plane and a kernel.
fn fold_patch<T: Copy, A, F: Fn(A, T, T) -> A>(
    take: &F,
    start: A,
    input: &[T],
    planes: usize,
    plane: usize,
    height: usize,
    width: usize,
    top: usize,
    left: usize,
    weights: &[T],
    kernels_count: usize,
    kernel: usize,
    kernel_height: usize,
    kernel_width: usize,
) -> (result: A)
    requires
        forall|sum: A, one: T, other: T| call_requires(*take, (sum, one, other)),
        input@.len() == planes * height * width,
        weights@.len() == kernels_count * kernel_height * kernel_width,
        plane < planes,
        kernel < kernels_count,
        top + kernel_height <= height,
        left + kernel_width <= width,
    ensures
        kernels::folds(
            *take,
            patch_pairs(
                input@,
                plane as int,
                height as int,
                width as int,
                top as int,
                left as int,
                weights@,
                kernel as int,
                kernel_height as int,
                kernel_width as int,
                kernel_height as int,
            ),
            start,
            result,
        ),
{
    let input_len: usize = input.len();
    let weights_len: usize = weights.len();
    let mut result: A = start;
    for row in 0..kernel_height
        invariant
            forall|sum: A, one: T, other: T| call_requires(*take, (sum, one, other)),
            input_len == input@.len(),
            weights_len == weights@.len(),
            input_len == planes * height * width,
            weights_len == kernels_count * kernel_height * kernel_width,
            plane < planes,
            kernel < kernels_count,
            top + kernel_height <= height,
            left + kernel_width <= width,
            kernels::folds(
                *take,
                patch_pairs(
                    input@,
                    plane as int,
                    height as int,
                    width as int,
                    top as int,
                    left as int,
                    weights@,
                    kernel as int,
                    kernel_height as int,
                    kernel_width as int,
                    row as int,
                ),
                start,
                result,
            ),
    {
        let ghost done = patch_pairs(
            input@,
            plane as int,
            height as int,
            width as int,
            top as int,
            left as int,
            weights@,
            kernel as int,
            kernel_height as int,
            kernel_width as int,
            row as int,
        );
        let ghost more = kernels::strided(
            input@,
            plane_cell(plane as int, top + row, left as int, height as int, width as int),
            1,
            weights@,
            plane_cell(
                kernel as int,
                row as int,
                0,
                kernel_height as int,
                kernel_width as int,
            ),
            1,
            kernel_width as int,
        );
        if kernel_width == 0 {
            assert(more =~= Seq::empty());
            assert(done + more =~= done);
        } else {
            proof {
                lemma_patch_row(
                    plane as int,
                    planes as int,
                    top + row,
                    height as int,
                    left as int,
                    width as int,
                    kernel_width as int,
                );
                lemma_patch_row(
                    kernel as int,
                    kernels_count as int,
                    row as int,
                    kernel_height as int,
                    0,
                    kernel_width as int,
                    kernel_width as int,
                );
                assert(planes * height <= planes * height * width) by (nonlinear_arith)
                    requires
                        planes * height >= 0,
                        width >= 1,
                ;
                assert(kernels_count * kernel_height <= kernels_count * kernel_height
                    * kernel_width) by (nonlinear_arith)
                    requires
                        kernels_count * kernel_height >= 0,
                        kernel_width >= 1,
                ;
            }
            let input_start: usize = (plane * height + (top + row)) * width + left;
            let weight_start: usize = (kernel * kernel_height + row) * kernel_width;
            let ghost before = result;
            result = fold_strided(
                take,
                result,
                input,
                input_start,
                1,
                weights,
                weight_start,
                1,
                kernel_width,
            );
            proof {
                lemma_folds_join(*take, done, more, start, before, result);
            }
        }
    }
    result
}

/// A number of planes of a size make up `len` cells.
pub open spec fn is_volume(len: int, planes: int, height: int, width: int) -> bool {
    planes * height <= usize::MAX && len == planes * height * width
}

/// Whether a number of planes of a size make up `len` cells.
pub(crate) fn has_volume(len: usize, planes: usize, height: usize, width: usize) -> (result: bool)
    ensures
        result == is_volume(len as int, planes as int, height as int, width as int),
{
    match planes.checked_mul(height) {
        Some(rows) => match rows.checked_mul(width) {
            Some(cells) => len == cells,
            None => false,
        },
        None => false,
    }
}

/// The part of a number that counts rows, and the part that counts within them.
pub proof fn lemma_split(place: int, count: int, size: int)
    requires
        0 <= place < count * size,
        0 < size,
    ensures
        0 <= place / size < count,
        0 <= place % size < size,
        place == kernels::cell(place / size, place % size, size),
{
    lemma_fundamental_div_mod(place, size);
    lemma_mod_bound(place, size);
    lemma_div_pos_is_pos(place, size);
    let quotient = place / size;
    assert(quotient * size == size * quotient) by (nonlinear_arith);
    assert(quotient < count) by (nonlinear_arith)
        requires
            quotient * size <= place,
            place < count * size,
            size > 0,
    ;
}

/// The sizes of a depthwise convolution: every channel has a kernel of its own.
pub open spec fn depthwise_sizes(
    input: int,
    weights: int,
    bias: int,
    batch: int,
    channels: int,
    height: int,
    width: int,
    kernel_height: int,
    kernel_width: int,
) -> bool {
    &&& batch * channels <= usize::MAX
    &&& is_volume(input, batch * channels, height, width)
    &&& is_volume(weights, channels, kernel_height, kernel_width)
    &&& bias == channels
    &&& kernel_height <= height
    &&& kernel_width <= width
    &&& batch * channels * (height - kernel_height + 1) <= usize::MAX
}

/// One value of a depthwise convolution. Rows are counted over all planes.
pub open spec fn depthwise_cell<T, F: Fn(T, T, T) -> T>(
    take: F,
    input: Seq<T>,
    weights: Seq<T>,
    bias: Seq<T>,
    channels: int,
    height: int,
    width: int,
    kernel_height: int,
    kernel_width: int,
    row: int,
    column: int,
    value: T,
) -> bool {
    let output_height = height - kernel_height + 1;
    let plane = row / output_height;
    kernels::folds(
        take,
        patch_pairs(
            input,
            plane,
            height,
            width,
            row % output_height,
            column,
            weights,
            plane % channels,
            kernel_height,
            kernel_width,
            kernel_height,
        ),
        bias[plane % channels],
        value,
    )
}

/// A convolution in which every channel has a kernel of its own.
pub fn depthwise_conv<T: Copy, F: Fn(T, T, T) -> T>(
    take: &F,
    input: &[T],
    weights: &[T],
    bias: &[T],
    batch: usize,
    channels: usize,
    input_height: usize,
    input_width: usize,
    kernel_height: usize,
    kernel_width: usize,
) -> (result: Result<Vec<T>, DimensionError>)
    requires
        forall|sum: T, one: T, other: T| call_requires(*take, (sum, one, other)),
        input_height - kernel_height < usize::MAX,
        input_width - kernel_width < usize::MAX,
    ensures
        result is Ok <==> depthwise_sizes(
            input@.len() as int,
            weights@.len() as int,
            bias@.len() as int,
            batch as int,
            channels as int,
            input_height as int,
            input_width as int,
            kernel_height as int,
            kernel_width as int,
        ),
        result matches Ok(output) ==> {
            let output_height = input_height - kernel_height + 1;
            let output_width = input_width - kernel_width + 1;
            &&& output@.len() == batch * channels * output_height * output_width
            &&& forall|row: usize, column: usize|
                row < batch * channels * output_height && column < output_width ==> depthwise_cell(
                    *take,
                    input@,
                    weights@,
                    bias@,
                    channels as int,
                    input_height as int,
                    input_width as int,
                    kernel_height as int,
                    kernel_width as int,
                    row as int,
                    column as int,
                    #[trigger] output@[kernels::cell(row as int, column as int, output_width)],
                )
        },
{
    let planes: usize = match batch.checked_mul(channels) {
        Some(planes) => planes,
        None => {
            return Err(DimensionError);
        },
    };
    if !has_volume(input.len(), planes, input_height, input_width) || !has_volume(
        weights.len(),
        channels,
        kernel_height,
        kernel_width,
    ) || bias.len() != channels || kernel_height > input_height || kernel_width > input_width {
        return Err(DimensionError);
    }
    let output_height: usize = input_height - kernel_height + 1;
    let output_width: usize = input_width - kernel_width + 1;
    let rows: usize = match planes.checked_mul(output_height) {
        Some(rows) => rows,
        None => {
            return Err(DimensionError);
        },
    };
    let element = |row: usize, column: usize| -> (value: T)
        requires
            row < rows,
            column < output_width,
        ensures
            depthwise_cell(
                *take,
                input@,
                weights@,
                bias@,
                channels as int,
                input_height as int,
                input_width as int,
                kernel_height as int,
                kernel_width as int,
                row as int,
                column as int,
                value,
            ),
        {
            proof {
                lemma_split(row as int, planes as int, output_height as int);
            }
            let plane: usize = row / output_height;
            assert(channels > 0) by (nonlinear_arith)
                requires
                    planes == batch * channels,
                    planes > 0,
                    channels >= 0,
            ;
            proof {
                lemma_split(plane as int, batch as int, channels as int);
            }
            let channel: usize = plane % channels;
            fold_patch(
                take,
                bias[channel],
                input,
                planes,
                plane,
                input_height,
                input_width,
                row % output_height,
                column,
                weights,
                channels,
                channel,
                kernel_height,
                kernel_width,
            )
        };
    Ok(build(rows, output_width, &element))
}

impl Conv2dParams {
    /// The kernel lies within the input, and moves.
    pub open spec fn kernel_fits(self) -> bool {
        &&& 0 < self.kernel_height <= self.input_height
        &&& 0 < self.kernel_width <= self.input_width
        &&& self.stride_height > 0
        &&& self.stride_width > 0
    }

    /// The height of the output.
    pub open spec fn height(self) -> int {
        (self.input_height - self.kernel_height) / self.stride_height as int + 1
    }

    /// The width of the output.
    pub open spec fn width(self) -> int {
        (self.input_width - self.kernel_width) / self.stride_width as int + 1
    }

    /// The height of the output.
    pub fn output_height(self) -> (result: usize)
        requires
            self.kernel_fits(),
        ensures
            result == self.height(),
    {
        proof {
            lemma_div_is_ordered_by_denominator(
                self.input_height - self.kernel_height,
                1,
                self.stride_height as int,
            );
        }
        (self.input_height - self.kernel_height) / self.stride_height + 1
    }

    /// The width of the output.
    pub fn output_width(self) -> (result: usize)
        requires
            self.kernel_fits(),
        ensures
            result == self.width(),
    {
        proof {
            lemma_div_is_ordered_by_denominator(
                self.input_width - self.kernel_width,
                1,
                self.stride_width as int,
            );
        }
        (self.input_width - self.kernel_width) / self.stride_width + 1
    }
}

/// The sizes of a convolution in which every output channel takes in all input channels, one
/// alone or in whole groups.
pub open spec fn standard_sizes(input: int, weights: int, bias: int, params: Conv2dParams) -> bool {
    &&& params.batch * params.input_channels <= usize::MAX
    &&& is_volume(
        input,
        params.batch * params.input_channels,
        params.input_height as int,
        params.input_width as int,
    )
    &&& params.output_channels * params.input_channels <= usize::MAX
    &&& is_volume(
        weights,
        params.output_channels * params.input_channels,
        params.kernel_height as int,
        params.kernel_width as int,
    )
    &&& bias == params.output_channels
    &&& params.input_channels == 1 || params.input_channels % CHANNEL_GROUP == 0
    &&& params.kernel_fits()
    &&& params.batch * params.output_channels <= usize::MAX
    &&& params.batch * params.output_channels * params.height() <= usize::MAX
}

/// How many channels are summed up side by side.
pub open spec fn group_size(channels: int) -> int {
    if channels == 1 {
        1
    } else {
        CHANNEL_GROUP as int
    }
}

/// The channel that is added at `place`: groups in order, and within a group the last one first.
pub open spec fn channel_at(place: int, group: int) -> int {
    place / group * group + (group - 1 - place % group)
}

/// The cells that an output value takes in from one input channel.
pub open spec fn channel_pairs<T>(
    input: Seq<T>,
    weights: Seq<T>,
    params: Conv2dParams,
    batch: int,
    output_channel: int,
    input_channel: int,
    y: int,
    x: int,
) -> Seq<(T, T)> {
    patch_pairs(
        input,
        kernels::cell(batch, input_channel, params.input_channels as int),
        params.input_height as int,
        params.input_width as int,
        y * params.stride_height,
        x * params.stride_width,
        weights,
        kernels::cell(output_channel, input_channel, params.input_channels as int),
        params.kernel_height as int,
        params.kernel_width as int,
        params.kernel_height as int,
    )
}

/// `sum` comes out of `start` by adding the sums of the first `count` channels.
pub open spec fn sums_channels<T, A, F: Fn(T, T, T) -> T, S: Fn(A, T) -> A>(
    take: F,
    spill: S,
    zero: T,
    start: A,
    input: Seq<T>,
    weights: Seq<T>,
    params: Conv2dParams,
    batch: int,
    output_channel: int,
    y: int,
    x: int,
    count: int,
    sum: A,
) -> bool
    decreases count,
{
    if count <= 0 {
        sum == start
    } else {
        exists|before: A, part: T|
            {
                &&& sums_channels(
                    take,
                    spill,
                    zero,
                    start,
                    input,
                    weights,
                    params,
                    batch,
                    output_channel,
                    y,
                    x,
                    count - 1,
                    before,
                )
                &&& kernels::folds(
                    take,
                    channel_pairs(
                        input,
                        weights,
                        params,
                        batch,
                        output_channel,
                        channel_at(count - 1, group_size(params.input_channels as int)),
                        y,
                        x,
                    ),
                    zero,
                    part,
                )
                &&& #[trigger] call_ensures(spill, (before, part), sum)
            }
    }
}

/// One value of a convolution. Rows are counted over all output planes. The sum over all channels
/// is rounded, and then the bias is added.
pub open spec fn standard_cell<
    T,
    A,
    F: Fn(T, T, T) -> T,
    S: Fn(A, T) -> A,
    R: Fn(A) -> T,
    G: Fn(T, T) -> T,
>(
    take: F,
    spill: S,
    round: R,
    join: G,
    zero: T,
    start: A,
    input: Seq<T>,
    weights: Seq<T>,
    bias: Seq<T>,
    params: Conv2dParams,
    row: int,
    column: int,
    value: T,
) -> bool {
    let plane = row / params.height();
    let channel = plane % params.output_channels as int;
    exists|sum: A, rounded: T|
        {
            &&& sums_channels(
                take,
                spill,
                zero,
                start,
                input,
                weights,
                params,
                plane / params.output_channels as int,
                channel,
                row % params.height(),
                column,
                params.input_channels as int,
                sum,
            )
            &&& #[trigger] call_ensures(round, (sum,), rounded)
            &&& #[trigger] call_ensures(join, (rounded, bias[channel]), value)
        }
}

/// A patch of the input lies within it.
pub proof fn lemma_patch_inside(place: int, size: int, kernel: int, stride: int)
    requires
        0 < kernel <= size,
        0 < stride,
        0 <= place < (size - kernel) / stride + 1,
    ensures
        0 <= place * stride,
        place * stride + kernel <= size,
{
    lemma_fundamental_div_mod(size - kernel, stride);
    lemma_mod_bound(size - kernel, stride);
    let last = (size - kernel) / stride;
    assert(0 <= place * stride <= stride * last) by (nonlinear_arith)
        requires
            0 <= place <= last,
            0 < stride,
    ;
}

/// The channels of a group lie within the channels.
proof fn lemma_channel_at(place: int, channels: int)
    requires
        0 <= place < channels,
        channels == 1 || channels % (CHANNEL_GROUP as int) == 0,
    ensures
        0 <= channel_at(place, group_size(channels)) < channels,
{
    if channels != 1 {
        assert(place / 8 * 8 + 8 <= channels);
    }
}

/// The sum over all channels for one output value.
fn sum_channels<T: Copy, A, F: Fn(T, T, T) -> T, S: Fn(A, T) -> A>(
    take: &F,
    spill: &S,
    zero: T,
    start: A,
    input: &[T],
    weights: &[T],
    params: Conv2dParams,
    batch: usize,
    output_channel: usize,
    y: usize,
    x: usize,
) -> (sum: A)
    requires
        forall|sum: T, one: T, other: T| call_requires(*take, (sum, one, other)),
        forall|sum: A, part: T| call_requires(*spill, (sum, part)),
        standard_sizes(
            input@.len() as int,
            weights@.len() as int,
            params.output_channels as int,
            params,
        ),
        batch < params.batch,
        output_channel < params.output_channels,
        y < params.height(),
        x < params.width(),
    ensures
        sums_channels(
            *take,
            *spill,
            zero,
            start,
            input@,
            weights@,
            params,
            batch as int,
            output_channel as int,
            y as int,
            x as int,
            params.input_channels as int,
            sum,
        ),
{
    let channels: usize = params.input_channels;
    let group: usize = if channels == 1 {
        1
    } else {
        CHANNEL_GROUP
    };
    proof {
        lemma_patch_inside(
            y as int,
            params.input_height as int,
            params.kernel_height as int,
            params.stride_height as int,
        );
        lemma_patch_inside(
            x as int,
            params.input_width as int,
            params.kernel_width as int,
            params.stride_width as int,
        );
    }
    let top: usize = y * params.stride_height;
    let left: usize = x * params.stride_width;
    let planes: usize = params.batch * channels;
    let kernels_count: usize = params.output_channels * channels;
    let mut sum: A = start;
    for place in 0..channels
        invariant
            forall|sum: T, one: T, other: T| call_requires(*take, (sum, one, other)),
            forall|sum: A, part: T| call_requires(*spill, (sum, part)),
            standard_sizes(
                input@.len() as int,
                weights@.len() as int,
                params.output_channels as int,
                params,
            ),
            batch < params.batch,
            output_channel < params.output_channels,
            channels == params.input_channels,
            group == group_size(channels as int),
            top == y * params.stride_height,
            left == x * params.stride_width,
            top + params.kernel_height <= params.input_height,
            left + params.kernel_width <= params.input_width,
            planes == params.batch * channels,
            kernels_count == params.output_channels * channels,
            sums_channels(
                *take,
                *spill,
                zero,
                start,
                input@,
                weights@,
                params,
                batch as int,
                output_channel as int,
                y as int,
                x as int,
                place as int,
                sum,
            ),
    {
        proof {
            lemma_channel_at(place as int, channels as int);
        }
        let channel: usize = place / group * group + (group - 1 - place % group);
        assert(channel == channel_at(place as int, group as int));
        proof {
            kernels::lemma_cell_inside(
                batch as int,
                params.batch as int,
                channel as int,
                channels as int,
            );
            kernels::lemma_cell_inside(
                output_channel as int,
                params.output_channels as int,
                channel as int,
                channels as int,
            );
        }
        let part: T = fold_patch(
            take,
            zero,
            input,
            planes,
            batch * channels + channel,
            params.input_height,
            params.input_width,
            top,
            left,
            weights,
            kernels_count,
            output_channel * channels + channel,
            params.kernel_height,
            params.kernel_width,
        );
        let ghost before = sum;
        sum = spill(sum, part);
        assert(call_ensures(*spill, (before, part), sum));
    }
    sum
}

/// Whether the sizes of a convolution match.
fn sizes_match(input: usize, weights: usize, bias: usize, params: Conv2dParams) -> (result: bool)
    ensures
        result == standard_sizes(input as int, weights as int, bias as int, params),
{
    let planes: usize = match params.batch.checked_mul(params.input_channels) {
        Some(planes) => planes,
        None => {
            return false;
        },
    };
    let kernels_count: usize = match params.output_channels.checked_mul(params.input_channels) {
        Some(kernels_count) => kernels_count,
        None => {
            return false;
        },
    };
    if !has_volume(input, planes, params.input_height, params.input_width) || !has_volume(
        weights,
        kernels_count,
        params.kernel_height,
        params.kernel_width,
    ) || bias != params.output_channels || (params.input_channels != 1 && params.input_channels
        % CHANNEL_GROUP != 0) || params.kernel_height == 0 || params.kernel_width == 0
        || params.kernel_height > params.input_height || params.kernel_width > params.input_width
        || params.stride_height == 0 || params.stride_width == 0 {
        return false;
    }
    match params.batch.checked_mul(params.output_channels) {
        Some(output_planes) => output_planes.checked_mul(params.output_height()).is_some(),
        None => false,
    }
}

/// A convolution in which every output channel takes in all input channels.
pub fn standard_conv<
    T: Copy,
    A: Copy,
    F: Fn(T, T, T) -> T,
    S: Fn(A, T) -> A,
    R: Fn(A) -> T,
    G: Fn(T, T) -> T,
>(
    take: &F,
    spill: &S,
    round: &R,
    join: &G,
    zero: T,
    start: A,
    input: &[T],
    weights: &[T],
    bias: &[T],
    params: Conv2dParams,
) -> (result: Result<Vec<T>, DimensionError>)
    requires
        forall|sum: T, one: T, other: T| call_requires(*take, (sum, one, other)),
        forall|sum: A, part: T| call_requires(*spill, (sum, part)),
        forall|sum: A| call_requires(*round, (sum,)),
        forall|one: T, other: T| call_requires(*join, (one, other)),
    ensures
        result is Ok <==> standard_sizes(
            input@.len() as int,
            weights@.len() as int,
            bias@.len() as int,
            params,
        ),
        result matches Ok(output) ==> output@.len() == params.batch * params.output_channels
            * params.height() * params.width() && forall|row: usize, column: usize|
            row < params.batch * params.output_channels * params.height() && column
                < params.width() ==> standard_cell(
                *take,
                *spill,
                *round,
                *join,
                zero,
                start,
                input@,
                weights@,
                bias@,
                params,
                row as int,
                column as int,
                #[trigger] output@[kernels::cell(row as int, column as int, params.width())],
            ),
{
    if !sizes_match(input.len(), weights.len(), bias.len(), params) {
        return Err(DimensionError);
    }
    let output_height: usize = params.output_height();
    let output_width: usize = params.output_width();
    let planes: usize = params.batch * params.output_channels;
    let rows: usize = planes * output_height;
    let element = |row: usize, column: usize| -> (value: T)
        requires
            row < rows,
            column < output_width,
        ensures
            standard_cell(
                *take,
                *spill,
                *round,
                *join,
                zero,
                start,
                input@,
                weights@,
                bias@,
                params,
                row as int,
                column as int,
                value,
            ),
        {
            proof {
                lemma_split(row as int, planes as int, output_height as int);
            }
            let plane: usize = row / output_height;
            assert(params.output_channels > 0) by (nonlinear_arith)
                requires
                    planes == params.batch * params.output_channels,
                    planes > 0,
                    params.output_channels >= 0,
            ;
            proof {
                lemma_split(plane as int, params.batch as int, params.output_channels as int);
            }
            let channel: usize = plane % params.output_channels;
            let sum: A = sum_channels(
                take,
                spill,
                zero,
                start,
                input,
                weights,
                params,
                plane / params.output_channels,
                channel,
                row % output_height,
                column,
            );
            let rounded: T = round(sum);
            join(rounded, bias[channel])
        };
    Ok(build(rows, output_width, &element))
}

/// The products of a kernel with a patch of an input plane, added up.
pub open spec fn patch_total(
    input: Seq<i64>,
    plane: int,
    height: int,
    width: int,
    top: int,
    left: int,
    weights: Seq<i64>,
    kernel: int,
    kernel_height: int,
    kernel_width: int,
    rows: int,
) -> int {
    kernels::total(
        |y: int|
            kernels::total(
                |x: int|
                    input[plane_cell(plane, top + y, left + x, height, width)]
                        * weights[plane_cell(kernel, y, x, kernel_height, kernel_width)],
                kernel_width,
            ),
        rows,
    )
}

proof fn lemma_patch_total(
    input: Seq<i64>,
    plane: int,
    height: int,
    width: int,
    top: int,
    left: int,
    weights: Seq<i64>,
    kernel: int,
    kernel_height: int,
    kernel_width: int,
    rows: int,
)
    requires
        0 <= rows,
        0 <= kernel_width,
    ensures
        ({
            let pairs = patch_pairs(
                input,
                plane,
                height,
                width,
                top,
                left,
                weights,
                kernel,
                kernel_height,
                kernel_width,
                rows,
            );
            kernels::total(|index: int| pairs[index].0 * pairs[index].1, pairs.len() as int)
                == patch_total(
                input,
                plane,
                height,
                width,
                top,
                left,
                weights,
                kernel,
                kernel_height,
                kernel_width,
                rows,
            )
        }),
    decreases rows,
{
    if rows > 0 {
        lemma_patch_total(
            input,
            plane,
            height,
            width,
            top,
            left,
            weights,
            kernel,
            kernel_height,
            kernel_width,
            rows - 1,
        );
        let before = patch_pairs(
            input,
            plane,
            height,
            width,
            top,
            left,
            weights,
            kernel,
            kernel_height,
            kernel_width,
            rows - 1,
        );
        let row = kernels::strided(
            input,
            plane_cell(plane, top + rows - 1, left, height, width),
            1,
            weights,
            plane_cell(kernel, rows - 1, 0, kernel_height, kernel_width),
            1,
            kernel_width,
        );
        let pairs = before + row;
        let y = rows - 1;
        let terms = |index: int| pairs[index].0 * pairs[index].1;
        kernels::lemma_split_total(terms, before.len() as int, kernel_width);
        kernels::lemma_same_total(
            terms,
            |index: int| before[index].0 * before[index].1,
            before.len() as int,
        );
        let products = |x: int|
            input[plane_cell(plane, top + y, left + x, height, width)] * weights[plane_cell(
                kernel,
                y,
                x,
                kernel_height,
                kernel_width,
            )];
        let tail = |index: int| terms(before.len() + index);
        assert forall|x: int| 0 <= x < kernel_width implies #[trigger] tail(x) == products(x) by {
            assert(pairs[before.len() + x] == row[x]);
        }
        kernels::lemma_same_total(tail, products, kernel_width);
    }
}

/// With exact numbers, a value of a depthwise convolution is the bias of its channel and the products
/// of that channel's kernel with the patch of the channel's plane at the same place.
pub proof fn law_depthwise_values_are_patch_sums<F: Fn(i64, i64, i64) -> i64>(
    take: F,
    input: Seq<i64>,
    weights: Seq<i64>,
    bias: Seq<i64>,
    channels: int,
    height: int,
    width: int,
    kernel_height: int,
    kernel_width: int,
    batch: int,
    channel: int,
    y: int,
    x: int,
    value: i64,
)
    requires
        kernels::exact(take),
        0 <= batch,
        0 <= channel < channels,
        0 <= kernel_height,
        0 <= kernel_width,
        0 <= y <= height - kernel_height,
        depthwise_cell(
            take,
            input,
            weights,
            bias,
            channels,
            height,
            width,
            kernel_height,
            kernel_width,
            plane_cell(batch, channel, y, channels, height - kernel_height + 1),
            x,
            value,
        ),
    ensures
        value == bias[channel] + patch_total(
            input,
            kernels::cell(batch, channel, channels),
            height,
            width,
            y,
            x,
            weights,
            channel,
            kernel_height,
            kernel_width,
            kernel_height,
        ),
{
    let output_height = height - kernel_height + 1;
    let plane = kernels::cell(batch, channel, channels);
    let row = plane_cell(batch, channel, y, channels, output_height);
    lemma_fundamental_div_mod_converse(row, output_height, plane, y);
    lemma_fundamental_div_mod_converse(plane, channels, batch, channel);
    let pairs = patch_pairs(
        input,
        plane,
        height,
        width,
        y,
        x,
        weights,
        channel,
        kernel_height,
        kernel_width,
        kernel_height,
    );
    kernels::law_folds_add_up_products(take, pairs, bias[channel], value);
    lemma_patch_total(
        input,
        plane,
        height,
        width,
        y,
        x,
        weights,
        channel,
        kernel_height,
        kernel_width,
        kernel_height,
    );
}

/// The products that an output value takes in from one input channel, added up.
pub open spec fn channel_total(
    input: Seq<i64>,
    weights: Seq<i64>,
    params: Conv2dParams,
    batch: int,
    output_channel: int,
    input_channel: int,
    y: int,
    x: int,
) -> int {
    patch_total(
        input,
        kernels::cell(batch, input_channel, params.input_channels as int),
        params.input_height as int,
        params.input_width as int,
        y * params.stride_height,
        x * params.stride_width,
        weights,
        kernels::cell(output_channel, input_channel, params.input_channels as int),
        params.kernel_height as int,
        params.kernel_width as int,
        params.kernel_height as int,
    )
}

proof fn lemma_channels_total<F: Fn(i64, i64, i64) -> i64, S: Fn(i64, i64) -> i64>(
    take: F,
    spill: S,
    input: Seq<i64>,
    weights: Seq<i64>,
    params: Conv2dParams,
    batch: int,
    output_channel: int,
    y: int,
    x: int,
    count: int,
    sum: i64,
)
    requires
        kernels::exact(take),
        kernels::exact_sum(spill),
        0 <= count,
        sums_channels(
            take,
            spill,
            0,
            0,
            input,
            weights,
            params,
            batch,
            output_channel,
            y,
            x,
            count,
            sum,
        ),
    ensures
        sum == kernels::total(
            |place: int|
                channel_total(
                    input,
                    weights,
                    params,
                    batch,
                    output_channel,
                    channel_at(place, group_size(params.input_channels as int)),
                    y,
                    x,
                ),
            count,
        ),
    decreases count,
{
    if count > 0 {
        let channel = channel_at(count - 1, group_size(params.input_channels as int));
        let pairs = channel_pairs(input, weights, params, batch, output_channel, channel, y, x);
        let (before, part) = choose|before: i64, part: i64|
            {
                &&& sums_channels(
                    take,
                    spill,
                    0,
                    0,
                    input,
                    weights,
                    params,
                    batch,
                    output_channel,
                    y,
                    x,
                    count - 1,
                    before,
                )
                &&& kernels::folds(take, pairs, 0, part)
                &&& #[trigger] call_ensures(spill, (before, part), sum)
            };
        lemma_channels_total(
            take,
            spill,
            input,
            weights,
            params,
            batch,
            output_channel,
            y,
            x,
            count - 1,
            before,
        );
        kernels::law_folds_add_up_products(take, pairs, 0, part);
        lemma_patch_total(
            input,
            kernels::cell(batch, channel, params.input_channels as int),
            params.input_height as int,
            params.input_width as int,
            y * params.stride_height,
            x * params.stride_width,
            weights,
            kernels::cell(output_channel, channel, params.input_channels as int),
            params.kernel_height as int,
            params.kernel_width as int,
            params.kernel_height as int,
        );
    }
}

/// A sum does not depend on its direction.
proof fn lemma_reversed_total(terms: spec_fn(int) -> int, count: int)
    requires
        0 <= count,
    ensures
        kernels::total(|index: int| terms(count - 1 - index), count) == kernels::total(
            terms,
            count,
        ),
    decreases count,
{
    if count > 0 {
        let reversed = |index: int| terms(count - 1 - index);
        let shorter = |index: int| terms(count - 2 - index);
        lemma_reversed_total(terms, count - 1);
        kernels::lemma_same_total(
            |index: int| terms(count - 1 - 1 - index),
            shorter,
            count - 1,
        );
        kernels::lemma_split_total(reversed, 1, count - 1);
        kernels::lemma_same_total(|index: int| reversed(1 + index), shorter, count - 1);
        assert(kernels::total(reversed, 0) == 0);
        assert(kernels::total(reversed, 1) == terms(count - 1));
    }
}

/// Groups of channels that are added last one first give the sum over all channels.
proof fn lemma_grouped_total(terms: spec_fn(int) -> int, group: int, groups: int)
    requires
        0 < group,
        0 <= groups,
    ensures
        kernels::total(|place: int| terms(channel_at(place, group)), groups * group)
            == kernels::total(terms, groups * group),
    decreases groups,
{
    if groups > 0 {
        lemma_grouped_total(terms, group, groups - 1);
        let first = (groups - 1) * group;
        assert(groups * group == first + group) by (nonlinear_arith)
            requires
                first == (groups - 1) * group,
        ;
        assert(0 <= first) by (nonlinear_arith)
            requires
                first == (groups - 1) * group,
                groups > 0,
                group > 0,
        ;
        let mixed = |place: int| terms(channel_at(place, group));
        let own = |index: int| terms(first + index);
        let backwards = |index: int| own(group - 1 - index);
        kernels::lemma_split_total(mixed, first, group);
        kernels::lemma_split_total(terms, first, group);
        let tail = |index: int| mixed(first + index);
        assert forall|index: int| 0 <= index < group implies #[trigger] tail(index) == backwards(
            index,
        ) by {
            let place = first + index;
            assert(place == group * (groups - 1) + index) by (nonlinear_arith)
                requires
                    place == first + index,
                    first == (groups - 1) * group,
            ;
            lemma_fundamental_div_mod_converse(place, group, groups - 1, index);
        }
        kernels::lemma_same_total(tail, backwards, group);
        lemma_reversed_total(own, group);
    } else {
        assert(groups * group == 0) by (nonlinear_arith)
            requires
                groups == 0,
        ;
    }
}

/// With exact numbers, a value of a convolution is the bias of its channel and, over all input
/// channels, the products of the kernel for the two channels with the patch at the strided place.
pub proof fn law_convolution_values_are_patch_sums<
    F: Fn(i64, i64, i64) -> i64,
    S: Fn(i64, i64) -> i64,
    R: Fn(i64) -> i64,
    G: Fn(i64, i64) -> i64,
>(
    take: F,
    spill: S,
    round: R,
    join: G,
    input: Seq<i64>,
    weights: Seq<i64>,
    bias: Seq<i64>,
    params: Conv2dParams,
    batch: int,
    channel: int,
    y: int,
    x: int,
    value: i64,
)
    requires
        kernels::exact(take),
        kernels::exact_sum(spill),
        kernels::keeps(round),
        kernels::exact_sum(join),
        params.kernel_fits(),
        params.input_channels == 1 || params.input_channels % CHANNEL_GROUP == 0,
        0 <= batch,
        0 <= channel < params.output_channels,
        0 <= y < params.height(),
        standard_cell(
            take,
            spill,
            round,
            join,
            0,
            0,
            input,
            weights,
            bias,
            params,
            plane_cell(batch, channel, y, params.output_channels as int, params.height()),
            x,
            value,
        ),
    ensures
        value == bias[channel] + kernels::total(
            |input_channel: int|
                channel_total(input, weights, params, batch, channel, input_channel, y, x),
            params.input_channels as int,
        ),
{
    let plane = kernels::cell(batch, channel, params.output_channels as int);
    let row = plane_cell(batch, channel, y, params.output_channels as int, params.height());
    lemma_fundamental_div_mod_converse(row, params.height(), plane, y);
    lemma_fundamental_div_mod_converse(plane, params.output_channels as int, batch, channel);
    let count = params.input_channels as int;
    let (sum, rounded) = choose|sum: i64, rounded: i64|
        {
            &&& sums_channels(
                take,
                spill,
                0,
                0,
                input,
                weights,
                params,
                batch,
                channel,
                y,
                x,
                count,
                sum,
            )
            &&& #[trigger] call_ensures(round, (sum,), rounded)
            &&& #[trigger] call_ensures(join, (rounded, bias[channel]), value)
        };
    lemma_channels_total(
        take,
        spill,
        input,
        weights,
        params,
        batch,
        channel,
        y,
        x,
        count,
        sum,
    );
    let terms = |input_channel: int|
        channel_total(input, weights, params, batch, channel, input_channel, y, x);
    let group = group_size(count);
    assert(count == count / group * group) by {
        lemma_fundamental_div_mod(count, group);
        assert(group * (count / group) == count / group * group) by (nonlinear_arith);
    }
    lemma_div_pos_is_pos(count, group);
    lemma_grouped_total(terms, group, count / group);
    kernels::lemma_same_total(
        |place: int| terms(channel_at(place, group)),
        |place: int|
            channel_total(
                input,
                weights,
                params,
                batch,
                channel,
                channel_at(place, group_size(params.input_channels as int)),
                y,
                x,
            ),
        count,
    );
}

/// The output of a convolution is as large as it can be: the last patch lies inside the input, and
/// one more would not.
pub proof fn law_outputs_fill_the_input(params: Conv2dParams)
    requires
        params.kernel_fits(),
    ensures
        params.height() > 0,
        params.width() > 0,
        (params.height() - 1) * params.stride_height + params.kernel_height <= params.input_height,
        params.input_height < params.height() * params.stride_height + params.kernel_height,
        (params.width() - 1) * params.stride_width + params.kernel_width <= params.input_width,
        params.input_width < params.width() * params.stride_width + params.kernel_width,
{
    let spare = params.input_height - params.kernel_height;
    let stride = params.stride_height as int;
    lemma_fundamental_div_mod(spare, stride);
    lemma_mod_bound(spare, stride);
    lemma_div_pos_is_pos(spare, stride);
    let steps = params.height() - 1;
    assert(steps * stride == stride * steps) by (nonlinear_arith);
    assert((steps + 1) * stride == stride * steps + stride) by (nonlinear_arith);
    let spare = params.input_width - params.kernel_width;
    let stride = params.stride_width as int;
    lemma_fundamental_div_mod(spare, stride);
    lemma_mod_bound(spare, stride);
    lemma_div_pos_is_pos(spare, stride);
    let steps = params.width() - 1;
    assert(steps * stride == stride * steps) by (nonlinear_arith);
    assert((steps + 1) * stride == stride * steps + stride) by (nonlinear_arith);
}

}
