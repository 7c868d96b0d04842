//! The fixed-point feature extractor: window, transform, filter bank and logarithm.

use vstd::arithmetic::div_mod::*;
use vstd::prelude::*;

verus! {

pub const SAMPLE_RATE: usize = 16_000;

pub const FRAME_LENGTH: usize = 400;

pub const FRAME_SHIFT: usize = 160;

pub const FFT_LENGTH: usize = 512;

pub const FEATURE_SIZE: usize = 80;

pub const VAD_FEATURE_SIZE: usize = 40;

/// How many bytes the tables have.
pub const TABLE_SIZE: usize = 5_272;

/// How much of the sample before each one is taken off, in 15 fractional bits.
pub const EMPHASIS: i32 = -0x7C29;

const LOG_OFFSET: usize = 0x0000;

const WINDOW_OFFSET: usize = 0x0800;

const BIT_REVERSE_OFFSET: usize = 0x0B20;

const WEIGHTS_40_OFFSET: usize = 0x0BA0;

const WEIGHTS_80_OFFSET: usize = 0x0D9E;

const MAP_40_OFFSET: usize = 0x0F9C;

const MAP_80_OFFSET: usize = 0x109B;

const TWIDDLE_COS_OFFSET: usize = 0x119A;

const TWIDDLE_SIN_OFFSET: usize = 0x129A;

/// Why the extractor refuses a request.
#[derive(Clone, Copy, Debug, PartialEq, Eq, Structural)]
pub enum FrontendError {
    /// There are no features of the requested number.
    FeatureSize,
    /// The frame has too few samples.
    ShortFrame,
    /// The tables have the wrong number of bytes.
    TableSize,
    /// A position in the tables reaches past a frame.
    TableIndex,
}

/// The 16-bit number at position `index` of the table that begins at `offset`.
pub open spec fn entry(data: Seq<u8>, offset: int, index: int) -> i32 {
    let value = data[offset + 2 * index] + 256 * data[offset + 2 * index + 1];
    if value >= 0x8000 {
        (value - 0x1_0000) as i32
    } else {
        value as i32
    }
}

/// The window coefficient of a sample.
pub open spec fn window(data: Seq<u8>, index: int) -> i32 {
    entry(data, 0x0800, index)
}

/// Where the transform reads its pair of samples `index`.
pub open spec fn reversed(data: Seq<u8>, index: int) -> int {
    data[0x0B20 + index] as int
}

/// The weight of a spectral line in its filter.
pub open spec fn filter_weight(data: Seq<u8>, feature_size: int, index: int) -> i32 {
    entry(
        data,
        if feature_size == 40 {
            0x0BA0
        } else {
            0x0D9E
        },
        index,
    )
}

/// The filter that a spectral line falls into.
pub open spec fn filter_index(data: Seq<u8>, feature_size: int, index: int) -> int {
    data[(if feature_size == 40 {
        0x0F9Cint
    } else {
        0x109Bint
    }) + index] as int
}

/// The cosine of a rotation.
pub open spec fn cosine(data: Seq<u8>, index: int) -> i32 {
    entry(data, 0x119A, index)
}

/// The sine of a rotation.
pub open spec fn sine(data: Seq<u8>, index: int) -> i32 {
    entry(data, 0x129A, index)
}

/// The logarithm of a mantissa.
pub open spec fn log_entry(data: Seq<u8>, index: int) -> i32 {
    entry(data, 0x0000, index)
}

/// The tables have their size, and no pair of samples lies outside of a frame.
pub open spec fn valid_tables(data: Seq<u8>) -> bool {
    &&& data.len() == TABLE_SIZE
    &&& forall|index: int| 0 <= index < 128 ==> #[trigger] reversed(data, index) <= 254
}

/// The tables of the extractor.
#[derive(Debug)]
pub struct FrontendTables {
    data: Vec<u8>,
}

impl FrontendTables {
    pub closed spec fn data(self) -> Seq<u8> {
        self.data@
    }

    /// Reads the tables.
    pub fn parse(bytes: Vec<u8>) -> (result: Result<Self, FrontendError>)
        ensures
            match result {
                Ok(tables) => valid_tables(bytes@) && tables.data() == bytes@,
                Err(error) => if bytes@.len() != TABLE_SIZE {
                    error == FrontendError::TableSize
                } else {
                    !valid_tables(bytes@) && error == FrontendError::TableIndex
                },
            },
    {
        if bytes.len() != TABLE_SIZE {
            return Err(FrontendError::TableSize);
        }
        for index in 0..128usize
            invariant
                bytes@.len() == TABLE_SIZE,
                forall|earlier: int| 0 <= earlier < index ==> #[trigger] reversed(bytes@, earlier) <= 254,
        {
            if bytes[BIT_REVERSE_OFFSET + index] > 254 {
                assert(reversed(bytes@, index as int) > 254);
                return Err(FrontendError::TableIndex);
            }
        }
        Ok(FrontendTables { data: bytes })
    }

    fn entry(&self, offset: usize, index: usize) -> (value: i32)
        requires
            offset <= TABLE_SIZE,
            index < 2048,
            offset + 2 * index + 1 < self.data().len(),
        ensures
            value == entry(self.data(), offset as int, index as int),
            -0x8000 <= value < 0x8000,
    {
        let low: i32 = self.data[offset + 2 * index] as i32;
        let high: i32 = self.data[offset + 2 * index + 1] as i32;
        let value: i32 = low + 256 * high;
        if value >= 0x8000 {
            value - 0x1_0000
        } else {
            value
        }
    }
}

/// The sample at a position; there is silence behind the last one.
pub open spec fn sample(samples: Seq<i16>, index: int) -> i32 {
    if index < samples.len() {
        samples[index] as i32
    } else {
        0
    }
}

/// The sum of the first `count` samples.
pub open spec fn sample_sum(samples: Seq<i16>, count: int) -> int
    decreases count,
{
    if count <= 0 {
        0
    } else {
        sample_sum(samples, count - 1) + samples[count - 1]
    }
}

/// The quotient rounded towards zero.
pub open spec fn quotient(value: int, divisor: int) -> int {
    if value >= 0 {
        value / divisor
    } else {
        -((-value) / divisor)
    }
}

/// The mean of a frame, rounded towards zero.
pub open spec fn mean(samples: Seq<i16>) -> i32 {
    quotient(sample_sum(samples, 400), 400) as i32
}

/// The distance of a sample from the mean.
pub open spec fn centered(samples: Seq<i16>, index: int) -> i32 {
    sample(samples, index).wrapping_sub(mean(samples))
}

/// A sample with the higher frequencies raised.
pub open spec fn emphasized(samples: Seq<i16>, index: int) -> i32 {
    centered(samples, index - 1).wrapping_mul(EMPHASIS).wrapping_add(
        centered(samples, index).wrapping_mul(0x8000),
    )
}

/// A 32-bit number times a coefficient in 15 fractional bits.
pub open spec fn scaled(value: i32, coefficient: i32) -> i32 {
    let low = ((value as u32) & 0xffff) as i64;
    let high = (value >> 16) as i64;
    (((low * coefficient) as i64) >> 15).wrapping_add((coefficient * high * 2) as i64) as i32
}

/// The windowed frame, and what follows it up to the length of the transform.
pub open spec fn windowed(data: Seq<u8>, samples: Seq<i16>) -> Seq<i32> {
    Seq::new(
        512,
        |index: int|
            if index == 0 {
                centered(samples, 0).wrapping_mul(window(data, 0))
            } else if index < 400 {
                scaled(emphasized(samples, index), window(data, index))
            } else {
                sample(samples, index)
            },
    )
}

/// The magnitude of a number, as bits.
pub open spec fn magnitude(value: i32) -> u32 {
    (if value < 0 {
        0i32.wrapping_sub(value)
    } else {
        value
    }) as u32
}

/// The bits that occur in the frame from `index` on.
pub open spec fn used_bits(work: Seq<i32>, index: int) -> u32
    decreases 400 - index,
{
    if index >= 400 {
        0x8000
    } else {
        used_bits(work, index + 1) | magnitude(work[index])
    }
}

/// How often a number is doubled, from `count` times on, until it fills 31 bits.
pub open spec fn doublings(value: u32, count: int) -> int
    decreases 32 - count,
{
    if count >= 32 || value as i32 >= 0x4000_0000 {
        count
    } else {
        doublings(value.wrapping_shl(1), count + 1)
    }
}

/// How many bits a frame must be shifted down by to fit 15 bits.
pub open spec fn down_shift(bits: u32, previous: u32) -> i32 {
    if bits == 0 {
        17
    } else if bits == 0xffff_ffff {
        (-14) as i32
    } else {
        let mask = if (previous as i32) < 0 {
            0xffff_ffffu32
        } else {
            0
        };
        (17 - doublings(bits ^ mask, 0)) as i32
    }
}

/// A spectrum: its real and imaginary parts.
#[verifier::ext_equal]
pub struct Spectrum {
    pub real: Seq<i16>,
    pub imaginary: Seq<i16>,
}

/// Sum or difference of two samples, shifted down.
pub open spec fn folded(source: i32, other: i32, add: bool, shift: u32) -> i16 {
    (if add {
        source.wrapping_add(other)
    } else {
        source.wrapping_sub(other)
    }).wrapping_shr(shift) as i16
}

/// The first stage of the transform: pairs of samples, half a frame apart, summed and subtracted.
pub open spec fn paired(data: Seq<u8>, work: Seq<i32>, scale: i32) -> Spectrum {
    let rounding = 1u32.wrapping_shl((scale.wrapping_sub(1) & 31) as u32) as i32;
    let shift = (scale & 31) as u32;
    Spectrum {
        real: Seq::new(
            257,
            |index: int|
                if index >= 256 {
                    0
                } else {
                    let at = reversed(data, index / 2);
                    folded(
                        work[at].wrapping_add(rounding),
                        work[at + 256],
                        index % 2 == 0,
                        shift,
                    )
                },
        ),
        imaginary: Seq::new(
            257,
            |index: int|
                if index >= 256 {
                    0
                } else {
                    let at = reversed(data, index / 2);
                    folded(
                        work[at + 1].wrapping_add(rounding),
                        work[at + 257],
                        index % 2 == 0,
                        shift,
                    )
                },
        ),
    }
}

fn scale_value(value: i32, coefficient: i32) -> (result: i32)
    requires
        -0x8000 <= coefficient < 0x8000,
    ensures
        result == scaled(value, coefficient),
{
    let low: i64 = ((value as u32) & 0xffff) as i64;
    let high: i64 = (value >> 16) as i64;
    assert((value as u32) & 0xffff <= 0xffff) by (bit_vector);
    assert(-0x8000 <= value >> 16 && value >> 16 < 0x8000) by (bit_vector);
    assert(-0x8000_0000 <= low * coefficient <= 0x8000_0000) by (nonlinear_arith)
        requires
            0 <= low <= 0xffff,
            -0x8000 <= coefficient < 0x8000,
    ;
    assert(-0x8000_0000 <= coefficient * high <= 0x8000_0000) by (nonlinear_arith)
        requires
            -0x8000 <= high < 0x8000,
            -0x8000 <= coefficient < 0x8000,
    ;
    let wide: i64 = coefficient as i64;
    ((low * wide) >> 15).wrapping_add(wide * high * 2) as i32
}

fn count_down_shift(bits: u32, previous: u32) -> (shift: i32)
    ensures
        shift == down_shift(bits, previous),
        -15 <= shift <= 17,
{
    if bits == 0 {
        return 17;
    }
    if bits == 0xffff_ffff {
        return -14;
    }
    let mask: u32 = if (previous as i32) < 0 {
        0xffff_ffff
    } else {
        0
    };
    let mut value: u32 = bits ^ mask;
    let mut count: i32 = 0;
    while count < 32 && (value as i32) < 0x4000_0000
        invariant
            0 <= count <= 32,
            doublings(bits ^ mask, 0) == doublings(value, count as int),
        decreases 32 - count,
    {
        value = value.wrapping_shl(1);
        count = count + 1;
    }
    17 - count
}

/// A spectrum in machine integers.
struct Buffers {
    real: Vec<i16>,
    imaginary: Vec<i16>,
}

impl Buffers {
    spec fn spectrum(self) -> Spectrum {
        Spectrum { real: self.real@, imaginary: self.imaginary@ }
    }

    spec fn valid(self) -> bool {
        self.real@.len() == 257 && self.imaginary@.len() == 257
    }
}

fn find_magnitude(value: i32) -> (bits: u32)
    ensures
        bits == magnitude(value),
{
    if value < 0 {
        0i32.wrapping_sub(value) as u32
    } else {
        value as u32
    }
}

/// The mean of a frame.
fn find_mean(samples: &[i16]) -> (result: i32)
    requires
        samples@.len() >= 400,
    ensures
        result == mean(samples@),
{
    let mut sum: i32 = 0;
    for index in 0..400usize
        invariant
            samples@.len() >= 400,
            sum == sample_sum(samples@, index as int),
            -0x8000 * index <= sum <= 0x8000 * index,
    {
        sum = sum + samples[index] as i32;
    }
    if sum >= 0 {
        sum / 400
    } else {
        -((-sum) / 400)
    }
}

/// Windows a frame; also returns the bits that occur in it, and those without its second sample.
fn window_frame(tables: &FrontendTables, samples: &[i16]) -> (result: (Vec<i32>, u32, u32))
    requires
        valid_tables(tables.data()),
        samples@.len() >= 400,
    ensures
        result.0@ == windowed(tables.data(), samples@),
        result.1 == used_bits(windowed(tables.data(), samples@), 1),
        result.2 == used_bits(windowed(tables.data(), samples@), 2),
{
    let ghost data = tables.data();
    let ghost whole = windowed(data, samples@);
    let average: i32 = find_mean(samples);
    let mut work: Vec<i32> = Vec::new();
    for index in 0..FFT_LENGTH
        invariant
            work@.len() == index,
            forall|earlier: int|
                0 <= earlier < index ==> #[trigger] work@[earlier] == sample(samples@, earlier),
    {
        if index < samples.len() {
            work.push(samples[index] as i32);
        } else {
            work.push(0);
        }
    }
    let mut bits: u32 = 0x8000;
    let mut previous_bits: u32 = bits;
    let mut previous: i32 = work[399].wrapping_sub(average);
    let mut current: i32 = 0;
    let mut index: usize = 399;
    while index > 0
        invariant
            0 <= index <= 399,
            valid_tables(data),
            data == tables.data(),
            whole == windowed(data, samples@),
            average == mean(samples@),
            work@.len() == 512,
            previous == centered(samples@, index as int),
            index == 0 ==> current == centered(samples@, 0),
            bits == used_bits(whole, index + 1),
            index == 0 ==> previous_bits == used_bits(whole, 2),
            forall|at: int|
                0 <= at < 512 ==> #[trigger] work@[at] == (if index < at < 400 {
                    whole[at]
                } else {
                    sample(samples@, at)
                }),
        decreases index,
    {
        current = work[index - 1].wrapping_sub(average);
        let emphasis: i32 = current.wrapping_mul(EMPHASIS).wrapping_add(
            previous.wrapping_mul(0x8000),
        );
        let value: i32 = scale_value(emphasis, tables.entry(WINDOW_OFFSET, index));
        work.set(index, value);
        previous_bits = bits;
        bits = bits | find_magnitude(value);
        previous = current;
        index = index - 1;
    }
    let first: i32 = current.wrapping_mul(tables.entry(WINDOW_OFFSET, 0));
    work.set(0, first);
    assert(work@ =~= whole);
    (work, bits, previous_bits)
}

fn fold_pair(source: i32, other: i32, add: bool, shift: u32) -> (result: i16)
    ensures
        result == folded(source, other, add, shift),
{
    if add {
        source.wrapping_add(other).wrapping_shr(shift) as i16
    } else {
        source.wrapping_sub(other).wrapping_shr(shift) as i16
    }
}

/// The first stage of the transform.
fn pair_samples(tables: &FrontendTables, work: &[i32], scale: i32) -> (result: Buffers)
    requires
        valid_tables(tables.data()),
        work@.len() == 512,
    ensures
        result.valid(),
        result.spectrum() == paired(tables.data(), work@, scale),
{
    let ghost data = tables.data();
    let ghost whole = paired(data, work@, scale);
    let rounding: i32 = 1u32.wrapping_shl((scale.wrapping_sub(1) & 31) as u32) as i32;
    let shift: u32 = (scale & 31) as u32;
    let mut re: Vec<i16> = Vec::new();
    let mut im: Vec<i16> = Vec::new();
    for index in 0..128usize
        invariant
            valid_tables(data),
            data == tables.data(),
            work@.len() == 512,
            whole == paired(data, work@, scale),
            rounding == 1u32.wrapping_shl((scale.wrapping_sub(1) & 31) as u32) as i32,
            shift == (scale & 31) as u32,
            re@.len() == 2 * index,
            im@.len() == 2 * index,
            forall|at: int| 0 <= at < 2 * index ==> #[trigger] re@[at] == whole.real[at],
            forall|at: int| 0 <= at < 2 * index ==> #[trigger] im@[at] == whole.imaginary[at],
    {
        let at: usize = tables.data[BIT_REVERSE_OFFSET + index] as usize;
        assert(reversed(data, index as int) == at);
        let source_real: i32 = work[at].wrapping_add(rounding);
        let source_imaginary: i32 = work[at + 1].wrapping_add(rounding);
        re.push(fold_pair(source_real, work[at + 256], true, shift));
        re.push(fold_pair(source_real, work[at + 256], false, shift));
        im.push(fold_pair(source_imaginary, work[at + 257], true, shift));
        im.push(fold_pair(source_imaginary, work[at + 257], false, shift));
        assert((2 * index) / 2 == index && (2 * index + 1) / 2 == index);
    }
    re.push(0);
    im.push(0);
    assert(re@ =~= whole.real);
    assert(im@ =~= whole.imaginary);
    Buffers { real: re, imaginary: im }
}

/// The rotated real part of a line, before rounding.
pub open spec fn real_product(re: i32, im: i32, cosine: i32, sine: i32) -> i32 {
    re.wrapping_mul(cosine).wrapping_add(0x4000).wrapping_sub(im.wrapping_mul(sine))
}

/// The rotated imaginary part of a line, before rounding.
pub open spec fn imaginary_product(re: i32, im: i32, cosine: i32, sine: i32) -> i32 {
    im.wrapping_mul(cosine).wrapping_add(re.wrapping_mul(sine)).wrapping_add(0x4000)
}

/// The sum of a line and a rotated one, or their difference; halved unless `whole`.
pub open spec fn combined(left: i32, product: i32, add: bool, whole: bool) -> i16 {
    if whole {
        let rotated = ((product as u32) >> 15) as i16 as i32;
        if add {
            left.wrapping_add(rotated) as i16
        } else {
            left.wrapping_sub(rotated) as i16
        }
    } else {
        let rotated = product >> 15;
        if add {
            ((rotated.wrapping_add(left).wrapping_add(1) as u32) >> 1) as i16
        } else {
            ((left.wrapping_add(1).wrapping_sub(rotated) as u32) >> 1) as i16
        }
    }
}

/// The position of the first line of the pair that line `index` belongs to, in a stage that pairs
/// lines `half` apart.
pub open spec fn left_line(index: int, half: int) -> int {
    if index % (2 * half) < half {
        index
    } else {
        index - half
    }
}

/// The real part of line `index` after a stage that pairs lines `half` apart and rotates by
/// multiples of `step`.
pub open spec fn stage_real(data: Seq<u8>, lines: Spectrum, half: int, step: int, index: int) -> i16 {
    let left = left_line(index, half);
    let turn = (left % half) * step;
    combined(
        lines.real[left] as i32,
        real_product(
            lines.real[left + half] as i32,
            lines.imaginary[left + half] as i32,
            cosine(data, turn),
            sine(data, turn),
        ),
        index == left,
        step == 16,
    )
}

/// The imaginary part of line `index` after a stage.
pub open spec fn stage_imaginary(
    data: Seq<u8>,
    lines: Spectrum,
    half: int,
    step: int,
    index: int,
) -> i16 {
    let left = left_line(index, half);
    let turn = (left % half) * step;
    combined(
        lines.imaginary[left] as i32,
        imaginary_product(
            lines.real[left + half] as i32,
            lines.imaginary[left + half] as i32,
            cosine(data, turn),
            sine(data, turn),
        ),
        index == left,
        step == 16,
    )
}

/// The spectrum after a stage of the transform.
pub open spec fn stage(data: Seq<u8>, lines: Spectrum, half: int, step: int) -> Spectrum {
    Spectrum {
        real: Seq::new(
            257,
            |index: int|
                if index < 256 {
                    stage_real(data, lines, half, step, index)
                } else {
                    lines.real[index]
                },
        ),
        imaginary: Seq::new(
            257,
            |index: int|
                if index < 256 {
                    stage_imaginary(data, lines, half, step, index)
                } else {
                    lines.imaginary[index]
                },
        ),
    }
}

/// The stages from the one that pairs lines `half` apart on.
pub open spec fn stages_from(data: Seq<u8>, lines: Spectrum, half: int, step: int) -> Spectrum
    decreases 512 - half,
{
    if half <= 0 || half >= 256 {
        lines
    } else {
        stages_from(data, stage(data, lines, half, step), 2 * half, step / 2)
    }
}

/// A stage of the transform is one of seven: the distance of its pairs is a power of two.
pub open spec fn stage_shape(half: int, step: int) -> bool {
    ||| half == 2 && step == 128
    ||| half == 4 && step == 64
    ||| half == 8 && step == 32
    ||| half == 16 && step == 16
    ||| half == 32 && step == 8
    ||| half == 64 && step == 4
    ||| half == 128 && step == 2
}

fn find_real_product(re: i32, im: i32, cosine: i32, sine: i32) -> (result: i32)
    ensures
        result == real_product(re, im, cosine, sine),
{
    re.wrapping_mul(cosine).wrapping_add(0x4000).wrapping_sub(im.wrapping_mul(sine))
}

fn find_imaginary_product(re: i32, im: i32, cosine: i32, sine: i32) -> (result: i32)
    ensures
        result == imaginary_product(re, im, cosine, sine),
{
    im.wrapping_mul(cosine).wrapping_add(re.wrapping_mul(sine)).wrapping_add(0x4000)
}

fn combine(left: i32, product: i32, add: bool, whole: bool) -> (result: i16)
    ensures
        result == combined(left, product, add, whole),
{
    if whole {
        let rotated: i32 = ((product as u32) >> 15) as i16 as i32;
        if add {
            left.wrapping_add(rotated) as i16
        } else {
            left.wrapping_sub(rotated) as i16
        }
    } else {
        let rotated: i32 = product >> 15;
        if add {
            ((rotated.wrapping_add(left).wrapping_add(1) as u32) >> 1) as i16
        } else {
            ((left.wrapping_add(1).wrapping_sub(rotated) as u32) >> 1) as i16
        }
    }
}

proof fn lemma_shape(half: int, step: int)
    requires
        stage_shape(half, step),
    ensures
        2 <= half <= 128,
        2 <= step <= 128,
        (2 * half) * (step / 2) == 256,
        half * step == 256,
{
    if half == 2 {
        assert((2 * half) * (step / 2) == 256) by (nonlinear_arith)
            requires
                half == 2,
                step == 128,
        ;
    } else if half == 4 {
        assert((2 * half) * (step / 2) == 256) by (nonlinear_arith)
            requires
                half == 4,
                step == 64,
        ;
    } else if half == 8 {
        assert((2 * half) * (step / 2) == 256) by (nonlinear_arith)
            requires
                half == 8,
                step == 32,
        ;
    } else if half == 16 {
        assert((2 * half) * (step / 2) == 256) by (nonlinear_arith)
            requires
                half == 16,
                step == 16,
        ;
    } else if half == 32 {
        assert((2 * half) * (step / 2) == 256) by (nonlinear_arith)
            requires
                half == 32,
                step == 8,
        ;
    } else if half == 64 {
        assert((2 * half) * (step / 2) == 256) by (nonlinear_arith)
            requires
                half == 64,
                step == 4,
        ;
    } else {
        assert((2 * half) * (step / 2) == 256) by (nonlinear_arith)
            requires
                half == 128,
                step == 2,
        ;
    }
}

/// A number in terms of its block of `2 * half` lines.
proof fn lemma_block(index: int, half: int)
    requires
        0 <= index,
        0 < half,
    ensures
        index == (2 * half) * (index / (2 * half)) + index % (2 * half),
        0 <= index % (2 * half) < 2 * half,
        0 <= index / (2 * half),
        index % half == (if index % (2 * half) < half {
            index % (2 * half)
        } else {
            index % (2 * half) - half
        }),
{
    let block = 2 * half;
    let quotient = index / block;
    let rest = index % block;
    lemma_fundamental_div_mod(index, block);
    lemma_mod_bound(index, block);
    lemma_div_pos_is_pos(index, block);
    if rest < half {
        assert(index == half * (2 * quotient) + rest) by (nonlinear_arith)
            requires
                index == (2 * half) * quotient + rest,
        ;
        lemma_fundamental_div_mod_converse(index, half, 2 * quotient, rest);
    } else {
        assert(index == half * (2 * quotient + 1) + (rest - half)) by (nonlinear_arith)
            requires
                index == (2 * half) * quotient + rest,
        ;
        lemma_fundamental_div_mod_converse(index, half, 2 * quotient + 1, rest - half);
    }
}

proof fn lemma_pair(left: int, half: int, step: int)
    requires
        stage_shape(half, step),
        0 <= left < 256,
        left % (2 * half) < half,
    ensures
        left + half < 256,
        left_line(left, half) == left,
        left_line(left + half, half) == left,
        left % (2 * half) == left % half,
        (left % half) * step <= 254,
{
    lemma_shape(half, step);
    lemma_block(left, half);
    let block = 2 * half;
    let quotient = left / block;
    let rest = left % block;
    let count = step / 2;
    assert(quotient < count) by (nonlinear_arith)
        requires
            block * quotient + rest < 256,
            block * count == 256,
            rest >= 0,
            block > 0,
    ;
    assert(block * quotient + block <= block * count) by (nonlinear_arith)
        requires
            quotient + 1 <= count,
            block > 0,
    ;
    assert(left + half == block * quotient + (rest + half));
    lemma_fundamental_div_mod_converse(left + half, block, quotient, rest + half);
    assert(rest * step <= 254) by (nonlinear_arith)
        requires
            0 <= rest <= half - 1,
            half * step == 256,
            step >= 2,
    ;
}

proof fn lemma_next_pair(left: int, half: int, step: int)
    requires
        stage_shape(half, step),
        0 <= left,
    ensures
        (left + 2 * half) % (2 * half) == left % (2 * half),
{
    lemma_shape(half, step);
    lemma_block(left, half);
    let block = 2 * half;
    let quotient = left / block;
    assert(left + block == block * (quotient + 1) + left % block) by (nonlinear_arith)
        requires
            left == block * quotient + left % block,
    ;
    lemma_fundamental_div_mod_converse(left + block, block, quotient + 1, left % block);
}

/// Between one pair of a group and the next there is no other.
proof fn lemma_no_pair_between(left: int, other: int, half: int, step: int)
    requires
        stage_shape(half, step),
        0 <= left <= other < left + 2 * half,
        left % (2 * half) == other % (2 * half),
    ensures
        left == other,
{
    lemma_shape(half, step);
    lemma_block(left, half);
    lemma_block(other, half);
    let block = 2 * half;
    let low = left / block;
    let high = other / block;
    assert(high == low) by (nonlinear_arith)
        requires
            0 <= block * high - block * low < block,
            block > 0,
    ;
}

/// The first line of a pair stands in the first half of its block.
proof fn lemma_left_line(index: int, half: int, step: int)
    requires
        stage_shape(half, step),
        0 <= index < 256,
    ensures
        0 <= left_line(index, half) < 256,
        left_line(index, half) % (2 * half) < half,
        left_line(index, half) % (2 * half) == left_line(index, half) % half,
        0 <= left_line(index, half) % half < half,
{
    lemma_shape(half, step);
    lemma_block(index, half);
    let block = 2 * half;
    let rest = index % block;
    let quotient = index / block;
    if rest >= half {
        assert(index - half == quotient * block + (rest - half)) by (nonlinear_arith)
            requires
                index == block * quotient + rest,
        ;
        assert(block * quotient >= 0) by (nonlinear_arith)
            requires
                block > 0,
                quotient >= 0,
        ;
        lemma_fundamental_div_mod_converse(index - half, block, quotient, rest - half);
        lemma_block(index - half, half);
    }
}

/// Line `index` belongs to a pair before the pairs of `group` from `left` on.
spec fn pair_done(index: int, half: int, group: int, left: int) -> bool {
    let first = left_line(index, half);
    first % half < group || (first % half == group && first < left)
}

/// The buffers after the pairs before those of `group` from `left` on.
spec fn stage_part(
    data: Seq<u8>,
    lines: Spectrum,
    buffers: Spectrum,
    half: int,
    step: int,
    group: int,
    left: int,
) -> bool {
    &&& buffers.real.len() == 257
    &&& buffers.imaginary.len() == 257
    &&& buffers.real[256] == lines.real[256]
    &&& buffers.imaginary[256] == lines.imaginary[256]
    &&& forall|index: int|
        0 <= index < 256 ==> #[trigger] buffers.real[index] == (if pair_done(
            index,
            half,
            group,
            left,
        ) {
            stage_real(data, lines, half, step, index)
        } else {
            lines.real[index]
        })
    &&& forall|index: int|
        0 <= index < 256 ==> #[trigger] buffers.imaginary[index] == (if pair_done(
            index,
            half,
            group,
            left,
        ) {
            stage_imaginary(data, lines, half, step, index)
        } else {
            lines.imaginary[index]
        })
}

/// Passing over a pair marks exactly its two lines as done.
proof fn lemma_pair_done_step(index: int, half: int, step: int, left: int)
    requires
        stage_shape(half, step),
        0 <= index < 256,
        0 <= left < 256,
        left % (2 * half) < half,
    ensures
        pair_done(index, half, left % half, left + 2 * half) == (pair_done(
            index,
            half,
            left % half,
            left,
        ) || index == left || index == left + half),
        !pair_done(left, half, left % half, left),
        !pair_done(left + half, half, left % half, left),
{
    lemma_pair(left, half, step);
    lemma_left_line(index, half, step);
    let first = left_line(index, half);
    if first % half == left % half && left <= first < left + 2 * half {
        lemma_no_pair_between(left, first, half, step);
    }
}

/// Passing over the last pair of a group leads to the next group.
proof fn lemma_group_done(index: int, half: int, step: int, group: int, left: int)
    requires
        stage_shape(half, step),
        0 <= index < 256,
        left >= 256,
    ensures
        pair_done(index, half, group, left) == pair_done(index, half, group + 1, group + 1),
{
    lemma_left_line(index, half, step);
    let first = left_line(index, half);
    if first % half == group + 1 {
        assert(first >= group + 1) by {
            assert(first % half <= first) by (nonlinear_arith)
                requires
                    first >= 0,
                    half > 0,
            ;
        }
    }
}

/// Carries out one pair of a stage.
fn combine_pair(
    buffers: &mut Buffers,
    left: usize,
    half: usize,
    cosine: i32,
    sine: i32,
    whole: bool,
)
    requires
        old(buffers).valid(),
        left + half < 256,
        half > 0,
    ensures
        final(buffers).valid(),
        ({
            let before = old(buffers).spectrum();
            let re = before.real;
            let im = before.imaginary;
            let l = left as int;
            let r = left + half;
            let turned_real = real_product(re[r] as i32, im[r] as i32, cosine, sine);
            let turned_imaginary = imaginary_product(re[r] as i32, im[r] as i32, cosine, sine);
            &&& final(buffers).spectrum().real == re.update(
                r,
                combined(re[l] as i32, turned_real, false, whole),
            ).update(l, combined(re[l] as i32, turned_real, true, whole))
            &&& final(buffers).spectrum().imaginary == im.update(
                r,
                combined(im[l] as i32, turned_imaginary, false, whole),
            ).update(l, combined(im[l] as i32, turned_imaginary, true, whole))
        }),
{
    let right: usize = left + half;
    let left_real: i32 = buffers.real[left] as i32;
    let left_imaginary: i32 = buffers.imaginary[left] as i32;
    let right_real: i32 = buffers.real[right] as i32;
    let right_imaginary: i32 = buffers.imaginary[right] as i32;
    let turned_real: i32 = find_real_product(right_real, right_imaginary, cosine, sine);
    let turned_imaginary: i32 = find_imaginary_product(right_real, right_imaginary, cosine, sine);
    buffers.real.set(right, combine(left_real, turned_real, false, whole));
    buffers.imaginary.set(right, combine(left_imaginary, turned_imaginary, false, whole));
    buffers.real.set(left, combine(left_real, turned_real, true, whole));
    buffers.imaginary.set(left, combine(left_imaginary, turned_imaginary, true, whole));
}

/// The state of a stage after the pair at `left`.
proof fn lemma_stage_step(
    data: Seq<u8>,
    lines: Spectrum,
    before: Spectrum,
    after: Spectrum,
    half: int,
    step: int,
    left: int,
)
    requires
        stage_shape(half, step),
        0 <= left < 256,
        left % (2 * half) < half,
        stage_part(data, lines, before, half, step, left % half, left),
        ({
            let re = before.real;
            let im = before.imaginary;
            let r = left + half;
            let turn = (left % half) * step;
            let turned_real = real_product(
                re[r] as i32,
                im[r] as i32,
                cosine(data, turn),
                sine(data, turn),
            );
            let turned_imaginary = imaginary_product(
                re[r] as i32,
                im[r] as i32,
                cosine(data, turn),
                sine(data, turn),
            );
            &&& after.real == re.update(
                r,
                combined(re[left] as i32, turned_real, false, step == 16),
            ).update(left, combined(re[left] as i32, turned_real, true, step == 16))
            &&& after.imaginary == im.update(
                r,
                combined(im[left] as i32, turned_imaginary, false, step == 16),
            ).update(left, combined(im[left] as i32, turned_imaginary, true, step == 16))
        }),
    ensures
        stage_part(data, lines, after, half, step, left % half, left + 2 * half),
{
    lemma_pair(left, half, step);
    lemma_pair_done_step(left, half, step, left);
    assert(before.real[left] == lines.real[left]);
    assert(before.real[left + half] == lines.real[left + half]);
    assert(before.imaginary[left] == lines.imaginary[left]);
    assert(before.imaginary[left + half] == lines.imaginary[left + half]);
    assert forall|index: int| 0 <= index < 256 implies #[trigger] after.real[index] == (
    if pair_done(index, half, left % half, left + 2 * half) {
        stage_real(data, lines, half, step, index)
    } else {
        lines.real[index]
    }) by {
        lemma_pair_done_step(index, half, step, left);
        let earlier = before.real[index];
    }
    assert forall|index: int| 0 <= index < 256 implies #[trigger] after.imaginary[index] == (
    if pair_done(index, half, left % half, left + 2 * half) {
        stage_imaginary(data, lines, half, step, index)
    } else {
        lines.imaginary[index]
    }) by {
        lemma_pair_done_step(index, half, step, left);
        let earlier = before.imaginary[index];
    }
}

/// Carries out one group of a stage.
fn run_group(
    tables: &FrontendTables,
    Ghost(lines): Ghost<Spectrum>,
    buffers: &mut Buffers,
    half: usize,
    step: usize,
    group: usize,
)
    requires
        valid_tables(tables.data()),
        stage_shape(half as int, step as int),
        group < half,
        old(buffers).valid(),
        stage_part(
            tables.data(),
            lines,
            old(buffers).spectrum(),
            half as int,
            step as int,
            group as int,
            group as int,
        ),
    ensures
        final(buffers).valid(),
        stage_part(
            tables.data(),
            lines,
            final(buffers).spectrum(),
            half as int,
            step as int,
            group + 1,
            group + 1,
        ),
{
    let ghost data = tables.data();
    proof {
        lemma_small_group(group as int, half as int, step as int);
    }
    let turn: usize = group * step;
    let cosine_value: i32 = tables.entry(TWIDDLE_COS_OFFSET, turn);
    let sine_value: i32 = tables.entry(TWIDDLE_SIN_OFFSET, turn);
    let mut left: usize = group;
    while left < 256
        invariant
            data == tables.data(),
            stage_shape(half as int, step as int),
            group < half,
            turn == group * step,
            cosine_value == cosine(data, turn as int),
            sine_value == sine(data, turn as int),
            left % (2 * half) as usize == group,
            left < 512,
            buffers.valid(),
            stage_part(
                data,
                lines,
                buffers.spectrum(),
                half as int,
                step as int,
                group as int,
                left as int,
            ),
        decreases 512 - left,
    {
        let ghost before = buffers.spectrum();
        proof {
            lemma_pair(left as int, half as int, step as int);
            lemma_next_pair(left as int, half as int, step as int);
        }
        combine_pair(buffers, left, half, cosine_value, sine_value, step == 16);
        proof {
            lemma_stage_step(
                data,
                lines,
                before,
                buffers.spectrum(),
                half as int,
                step as int,
                left as int,
            );
        }
        left = left + 2 * half;
    }
    proof {
        let after = buffers.spectrum();
        assert forall|index: int| 0 <= index < 256 implies #[trigger] after.real[index] == (
        if pair_done(index, half as int, group + 1, group + 1) {
            stage_real(data, lines, half as int, step as int, index)
        } else {
            lines.real[index]
        }) by {
            lemma_group_done(index, half as int, step as int, group as int, left as int);
        }
        assert forall|index: int| 0 <= index < 256 implies #[trigger] after.imaginary[index] == (
        if pair_done(index, half as int, group + 1, group + 1) {
            stage_imaginary(data, lines, half as int, step as int, index)
        } else {
            lines.imaginary[index]
        }) by {
            lemma_group_done(index, half as int, step as int, group as int, left as int);
        }
    }
}

proof fn lemma_small_group(group: int, half: int, step: int)
    requires
        stage_shape(half, step),
        0 <= group < half,
    ensures
        group % (2 * half) == group,
        group % half == group,
        0 <= group * step <= 254,
{
    lemma_shape(half, step);
    lemma_small_mod(group as nat, (2 * half) as nat);
    lemma_small_mod(group as nat, half as nat);
    assert(0 <= group * step <= 254) by (nonlinear_arith)
        requires
            0 <= group <= half - 1,
            half * step == 256,
            step >= 2,
    ;
}

/// Carries out one stage of the transform.
fn run_stage(tables: &FrontendTables, buffers: &mut Buffers, half: usize, step: usize)
    requires
        valid_tables(tables.data()),
        stage_shape(half as int, step as int),
        old(buffers).valid(),
    ensures
        final(buffers).valid(),
        final(buffers).spectrum() == stage(
            tables.data(),
            old(buffers).spectrum(),
            half as int,
            step as int,
        ),
{
    let ghost data = tables.data();
    let ghost lines = buffers.spectrum();
    proof {
        assert forall|index: int| 0 <= index < 256 implies !#[trigger] pair_done(
            index,
            half as int,
            0,
            0,
        ) by {
            lemma_left_line(index, half as int, step as int);
        }
    }
    for group in 0..half
        invariant
            valid_tables(data),
            data == tables.data(),
            stage_shape(half as int, step as int),
            buffers.valid(),
            stage_part(
                data,
                lines,
                buffers.spectrum(),
                half as int,
                step as int,
                group as int,
                group as int,
            ),
    {
        run_group(tables, Ghost(lines), buffers, half, step, group);
    }
    proof {
        let after = buffers.spectrum();
        let whole = stage(data, lines, half as int, step as int);
        assert forall|index: int| 0 <= index < 256 implies #[trigger] pair_done(
            index,
            half as int,
            half as int,
            half as int,
        ) by {
            lemma_left_line(index, half as int, step as int);
        }
        assert(after.real =~= whole.real);
        assert(after.imaginary =~= whole.imaginary);
    }
}

/// The complex transform. The exponent falls by one with each halving stage.
fn complex_fft(tables: &FrontendTables, buffers: &mut Buffers, exponent: i32) -> (result: i32)
    requires
        valid_tables(tables.data()),
        old(buffers).valid(),
        -1_000 <= exponent <= 1_000,
    ensures
        final(buffers).valid(),
        final(buffers).spectrum() == stages_from(tables.data(), old(buffers).spectrum(), 2, 128),
        result == exponent - 6,
{
    let mut half: usize = 2;
    let mut step: usize = 128;
    let mut result: i32 = exponent;
    while half < 256
        invariant
            valid_tables(tables.data()),
            buffers.valid(),
            half == 256 || stage_shape(half as int, step as int),
            -1_000 <= exponent <= 1_000,
            result == exponent - (if half == 2 {
                0int
            } else if half == 4 {
                1
            } else if half == 8 {
                2
            } else if half == 16 {
                3
            } else if half == 32 {
                3
            } else if half == 64 {
                4
            } else if half == 128 {
                5
            } else {
                6
            }),
            stages_from(tables.data(), buffers.spectrum(), half as int, step as int)
                == stages_from(tables.data(), old(buffers).spectrum(), 2, 128),
        decreases 256 - half,
    {
        run_stage(tables, buffers, half, step);
        if step != 16 {
            result = result - 1;
        }
        half = half * 2;
        step = step / 2;
    }
    result
}

/// Half of a sum, rounded up.
pub open spec fn half_sum(left: i32, right: i32) -> i32 {
    left.wrapping_add(1).wrapping_add(right) >> 1
}

/// Half of how far `right` is above `left`, rounded up.
pub open spec fn half_rise(left: i32, right: i32) -> i32 {
    1i32.wrapping_sub(left).wrapping_add(right) >> 1
}

/// The parts of a line and of its mirror image that enter their separation.
pub struct Mirrored {
    pub line_real: i32,
    pub line_imaginary: i32,
    pub mirror_real: i32,
    pub mirror_imaginary: i32,
    pub cosine: i32,
    pub sine: i32,
}

/// The parts that enter the separation of line `index` and its mirror image.
pub open spec fn mirrored(data: Seq<u8>, lines: Spectrum, index: int) -> Mirrored {
    let mirror = if index == 0 {
        0
    } else {
        256 - index
    };
    Mirrored {
        line_real: lines.real[index] as i32,
        line_imaginary: lines.imaginary[index] as i32,
        mirror_real: lines.real[mirror] as i32,
        mirror_imaginary: lines.imaginary[mirror] as i32,
        cosine: cosine(data, index),
        sine: sine(data, index),
    }
}

impl Mirrored {
    pub open spec fn average_real(self) -> i32 {
        self.line_real.wrapping_add(self.mirror_real).wrapping_add(1).wrapping_shr(1) as i16 as i32
    }

    pub open spec fn average_imaginary(self) -> i32 {
        half_sum(self.line_imaginary, self.mirror_imaginary)
    }

    pub open spec fn difference_real(self) -> i32 {
        half_rise(self.line_real, self.mirror_real)
    }

    pub open spec fn difference_imaginary(self) -> i32 {
        self.line_imaginary.wrapping_add(1).wrapping_sub(self.mirror_imaginary).wrapping_shr(
            1,
        ) as i16 as i32
    }

    pub open spec fn positive_rotation(self) -> i32 {
        0x4000i32.wrapping_sub(self.difference_real().wrapping_mul(self.sine)).wrapping_add(
            self.average_imaginary().wrapping_mul(self.cosine),
        )
    }

    pub open spec fn negative_rotation(self) -> i32 {
        self.difference_real().wrapping_mul(self.sine).wrapping_add(0x4000).wrapping_sub(
            self.average_imaginary().wrapping_mul(self.cosine),
        )
    }

    pub open spec fn imaginary_rotation(self) -> i32 {
        self.average_imaginary().wrapping_mul(self.sine).wrapping_add(
            self.difference_real().wrapping_mul(self.cosine),
        ).wrapping_add(0x4000).wrapping_shr(15) as i16 as i32
    }

    /// The real part of the line.
    pub open spec fn real_line(self) -> i16 {
        self.average_real().wrapping_add(
            ((self.positive_rotation() as u32) >> 15) as i32,
        ) as i16
    }

    /// The imaginary part of the line.
    pub open spec fn imaginary_line(self) -> i16 {
        self.imaginary_rotation().wrapping_add(self.difference_imaginary()) as i16
    }

    /// The real part of the mirror image.
    pub open spec fn real_mirror(self) -> i16 {
        self.average_real().wrapping_add(
            ((self.negative_rotation() as u32) >> 15) as i32,
        ) as i16
    }

    /// The imaginary part of the mirror image.
    pub open spec fn imaginary_mirror(self) -> i16 {
        self.imaginary_rotation().wrapping_sub(self.difference_imaginary()) as i16
    }

    /// Separates a line and its mirror image.
    fn separate(&self) -> (result: (i16, i16, i16, i16))
        ensures
            result == (
                self.real_line(),
                self.imaginary_line(),
                self.real_mirror(),
                self.imaginary_mirror(),
            ),
    {
        let average_imaginary: i32 = self.line_imaginary.wrapping_add(1).wrapping_add(
            self.mirror_imaginary,
        ) >> 1;
        let difference_real: i32 = 1i32.wrapping_sub(self.line_real).wrapping_add(self.mirror_real)
            >> 1;
        let average_real: i32 = self.line_real.wrapping_add(self.mirror_real).wrapping_add(
            1,
        ).wrapping_shr(1) as i16 as i32;
        let difference_imaginary: i32 = self.line_imaginary.wrapping_add(1).wrapping_sub(
            self.mirror_imaginary,
        ).wrapping_shr(1) as i16 as i32;
        let positive: i32 = 0x4000i32.wrapping_sub(
            difference_real.wrapping_mul(self.sine),
        ).wrapping_add(average_imaginary.wrapping_mul(self.cosine));
        let negative: i32 = difference_real.wrapping_mul(self.sine).wrapping_add(
            0x4000,
        ).wrapping_sub(average_imaginary.wrapping_mul(self.cosine));
        let turned: i32 = average_imaginary.wrapping_mul(self.sine).wrapping_add(
            difference_real.wrapping_mul(self.cosine),
        ).wrapping_add(0x4000).wrapping_shr(15) as i16 as i32;
        (
            average_real.wrapping_add(((positive as u32) >> 15) as i32) as i16,
            turned.wrapping_add(difference_imaginary) as i16,
            average_real.wrapping_add(((negative as u32) >> 15) as i32) as i16,
            turned.wrapping_sub(difference_imaginary) as i16,
        )
    }
}

/// The spectrum of real samples, separated from the one of their pairs.
pub open spec fn separated(data: Seq<u8>, lines: Spectrum) -> Spectrum {
    Spectrum {
        real: Seq::new(
            257,
            |index: int|
                if index < 128 {
                    mirrored(data, lines, index).real_line()
                } else if index == 128 {
                    lines.real[128]
                } else {
                    mirrored(data, lines, 256 - index).real_mirror()
                },
        ),
        imaginary: Seq::new(
            257,
            |index: int|
                if index < 128 {
                    mirrored(data, lines, index).imaginary_line()
                } else if index == 128 {
                    lines.imaginary[128]
                } else {
                    mirrored(data, lines, 256 - index).imaginary_mirror()
                },
        ),
    }
}

/// Separates the spectrum of real samples.
fn real_fft(tables: &FrontendTables, buffers: &mut Buffers)
    requires
        valid_tables(tables.data()),
        old(buffers).valid(),
    ensures
        final(buffers).valid(),
        final(buffers).spectrum() == separated(tables.data(), old(buffers).spectrum()),
{
    let ghost data = tables.data();
    let ghost lines = buffers.spectrum();
    let ghost whole = separated(data, lines);
    let first_real: i16 = buffers.real[0];
    let first_imaginary: i16 = buffers.imaginary[0];
    buffers.real.set(256, first_real);
    buffers.imaginary.set(256, first_imaginary);
    for index in 0..128usize
        invariant
            valid_tables(data),
            data == tables.data(),
            whole == separated(data, lines),
            buffers.valid(),
            forall|at: int|
                0 <= at < 257 ==> #[trigger] buffers.real@[at] == (if at < index || at > 256
                    - index {
                    whole.real[at]
                } else if at == 256 {
                    lines.real[0]
                } else {
                    lines.real[at]
                }),
            forall|at: int|
                0 <= at < 257 ==> #[trigger] buffers.imaginary@[at] == (if at < index || at > 256
                    - index {
                    whole.imaginary[at]
                } else if at == 256 {
                    lines.imaginary[0]
                } else {
                    lines.imaginary[at]
                }),
    {
        let mirror: usize = 256 - index;
        let parts = Mirrored {
            line_real: buffers.real[index] as i32,
            line_imaginary: buffers.imaginary[index] as i32,
            mirror_real: buffers.real[mirror] as i32,
            mirror_imaginary: buffers.imaginary[mirror] as i32,
            cosine: tables.entry(TWIDDLE_COS_OFFSET, index),
            sine: tables.entry(TWIDDLE_SIN_OFFSET, index),
        };
        assert(parts == mirrored(data, lines, index as int));
        let (line_real, line_imaginary, mirror_real, mirror_imaginary) = parts.separate();
        buffers.real.set(index, line_real);
        buffers.imaginary.set(index, line_imaginary);
        buffers.real.set(mirror, mirror_real);
        buffers.imaginary.set(mirror, mirror_imaginary);
    }
    assert(buffers.real@ =~= whole.real);
    assert(buffers.imaginary@ =~= whole.imaginary);
}

/// The power of a spectral line.
pub open spec fn power(lines: Spectrum, index: int) -> u32 {
    let re = lines.real[index] as i32;
    let im = lines.imaginary[index] as i32;
    re.wrapping_mul(re).wrapping_add(im.wrapping_mul(im)) as u32
}

/// The share of a power that the lower filter gets.
pub open spec fn share(value: u32, weight: i32) -> i32 {
    ((((value & 0xffff) as i64 * weight) as i64 >> 15) + weight * ((value >> 16) as i64)
        * 2) as i32
}

/// The filters after one more spectral line: it is shared between its filter and the one below.
pub open spec fn filtered_line(
    data: Seq<u8>,
    lines: Spectrum,
    feature_size: int,
    filters: Seq<i32>,
    index: int,
) -> Seq<i32> {
    let strength = power(lines, index + 1);
    let lower = share(strength, filter_weight(data, feature_size, index));
    let filter = filter_index(data, feature_size, index);
    let upper = if filter < feature_size {
        filters.update(filter, (filters[filter] + strength - lower) as i32)
    } else {
        filters
    };
    if 0 < filter <= feature_size {
        upper.update(filter - 1, upper[filter - 1].wrapping_add(lower))
    } else {
        upper
    }
}

/// The filters after the first `count` spectral lines.
pub open spec fn filters(data: Seq<u8>, lines: Spectrum, feature_size: int, count: int) -> Seq<i32>
    decreases count,
{
    if count <= 0 {
        Seq::new(feature_size as nat, |index: int| 0i32)
    } else {
        filtered_line(
            data,
            lines,
            feature_size,
            filters(data, lines, feature_size, count - 1),
            count - 1,
        )
    }
}

/// A number moved up by `width` bits where its upper `width` bits are clear, and its shift.
pub open spec fn moved_up(state: (u32, int), width: u32) -> (u32, int) {
    if state.0 >> ((32 - width) as u32) == 0 {
        (state.0.wrapping_shl(width), state.1 + width)
    } else {
        state
    }
}

/// A number moved up until its upper bit is set, and how far it was moved beyond `shift`.
pub open spec fn normalized(value: u32, shift: int) -> (u32, int) {
    let state = moved_up(moved_up(moved_up(moved_up((value, shift), 16), 8), 4), 2);
    let last = (state.0 >> 31) ^ 1;
    (state.0.wrapping_shl(last), state.1 + last)
}

/// The logarithm of a filter in 22 fractional bits.
pub open spec fn filter_log(data: Seq<u8>, filter: i32, exponent: i32) -> i32 {
    let base = exponent.wrapping_mul(2) as i8;
    let (value, shift) = normalized(filter.wrapping_add(2) as u32, base as int);
    let position = (value >> 21) ^ 0x400;
    31i32.wrapping_sub(shift as i32).wrapping_mul(0x2C5C86).wrapping_add(
        log_entry(data, position as int).wrapping_mul(0x80),
    )
}

/// The features of a spectrum.
pub open spec fn features(
    data: Seq<u8>,
    lines: Spectrum,
    exponent: i32,
    feature_size: int,
) -> Seq<i32> {
    Seq::new(
        feature_size as nat,
        |index: int|
            filter_log(data, filters(data, lines, feature_size, 255)[index], exponent),
    )
}

fn find_share(value: u32, weight: i32) -> (result: i32)
    requires
        -0x8000 <= weight < 0x8000,
    ensures
        result == share(value, weight),
{
    let low: i64 = (value & 0xffff) as i64;
    let high: i64 = (value >> 16) as i64;
    let wide: i64 = weight as i64;
    assert(value & 0xffff <= 0xffff) by (bit_vector);
    assert(value >> 16 <= 0xffff) by (bit_vector);
    assert(-0x8000_0000 <= low * wide <= 0x8000_0000) by (nonlinear_arith)
        requires
            0 <= low <= 0xffff,
            -0x8000 <= wide < 0x8000,
    ;
    assert(-0x8000_0000 <= wide * high <= 0x8000_0000) by (nonlinear_arith)
        requires
            0 <= high <= 0xffff,
            -0x8000 <= wide < 0x8000,
    ;
    let product: i64 = low * wide;
    assert(-0x8000_0000 <= product >> 15 && product >> 15 <= 0x8000_0000) by (bit_vector)
        requires
            -0x8000_0000 <= product <= 0x8000_0000,
    ;
    ((product >> 15) + wide * high * 2) as i32
}

/// Moves a number up where its upper bits are clear.
fn move_up(value: u32, shift: i32, width: u32) -> (result: (u32, i32))
    requires
        1 <= width <= 16,
        -1_000 <= shift <= 1_000,
    ensures
        (result.0, result.1 as int) == moved_up((value, shift as int), width),
        shift <= result.1 <= shift + width,
{
    if value >> (32 - width) == 0 {
        (value.wrapping_shl(width), shift + width as i32)
    } else {
        (value, shift)
    }
}

fn find_filter_log(tables: &FrontendTables, filter: i32, exponent: i32) -> (result: i32)
    requires
        valid_tables(tables.data()),
    ensures
        result == filter_log(tables.data(), filter, exponent),
{
    let base: i32 = (exponent.wrapping_mul(2) as i8) as i32;
    let state: (u32, i32) = move_up(filter.wrapping_add(2) as u32, base, 16);
    let state: (u32, i32) = move_up(state.0, state.1, 8);
    let state: (u32, i32) = move_up(state.0, state.1, 4);
    let state: (u32, i32) = move_up(state.0, state.1, 2);
    let value: u32 = state.0;
    let last: u32 = (value >> 31) ^ 1;
    assert((value >> 31) ^ 1 <= 1) by (bit_vector);
    let moved: u32 = value.wrapping_shl(last);
    let shift: i32 = state.1 + last as i32;
    let position: u32 = (moved >> 21) ^ 0x400;
    assert((moved >> 21) ^ 0x400 < 2048) by (bit_vector);
    31i32.wrapping_sub(shift).wrapping_mul(0x2C5C86).wrapping_add(
        tables.entry(LOG_OFFSET, position as usize).wrapping_mul(0x80),
    )
}

/// The features of a spectrum.
fn filterbank_log(
    tables: &FrontendTables,
    buffers: &Buffers,
    exponent: i32,
    feature_size: usize,
) -> (result: Vec<i32>)
    requires
        valid_tables(tables.data()),
        buffers.valid(),
        feature_size == 40 || feature_size == 80,
    ensures
        result@ == features(tables.data(), buffers.spectrum(), exponent, feature_size as int),
{
    let ghost data = tables.data();
    let ghost lines = buffers.spectrum();
    let weights: usize = if feature_size == 40 {
        WEIGHTS_40_OFFSET
    } else {
        WEIGHTS_80_OFFSET
    };
    let map: usize = if feature_size == 40 {
        MAP_40_OFFSET
    } else {
        MAP_80_OFFSET
    };
    let mut bank: Vec<i32> = vec![0; feature_size];
    assert(bank@ =~= filters(data, lines, feature_size as int, 0));
    for index in 0..255usize
        invariant
            valid_tables(data),
            data == tables.data(),
            buffers.valid(),
            lines == buffers.spectrum(),
            feature_size == 40 || feature_size == 80,
            weights == (if feature_size == 40 { 0x0BA0usize } else { 0x0D9Eusize }),
            map == (if feature_size == 40 { 0x0F9Cusize } else { 0x109Busize }),
            bank@.len() == feature_size,
            bank@ == filters(data, lines, feature_size as int, index as int),
    {
        let re: i32 = buffers.real[index + 1] as i32;
        let im: i32 = buffers.imaginary[index + 1] as i32;
        let strength: u32 = re.wrapping_mul(re).wrapping_add(im.wrapping_mul(im)) as u32;
        let lower: i32 = find_share(strength, tables.entry(weights, index));
        let filter: usize = tables.data[map + index] as usize;
        let ghost before = bank@;
        if filter < feature_size {
            let raised: i64 = bank[filter] as i64 + strength as i64 - lower as i64;
            bank.set(filter, raised as i32);
        }
        if filter > 0 && filter <= feature_size {
            let raised: i32 = bank[filter - 1].wrapping_add(lower);
            bank.set(filter - 1, raised);
        }
        assert(bank@ =~= filtered_line(data, lines, feature_size as int, before, index as int));
    }
    let mut result: Vec<i32> = Vec::new();
    let ghost whole = features(data, lines, exponent, feature_size as int);
    for index in 0..feature_size
        invariant
            valid_tables(data),
            data == tables.data(),
            bank@.len() == feature_size,
            bank@ == filters(data, lines, feature_size as int, 255),
            whole == features(data, lines, exponent, feature_size as int),
            result@ == whole.take(index as int),
    {
        result.push(find_filter_log(tables, bank[index], exponent));
        assert(whole.take(index + 1) =~= whole.take(index as int).push(whole[index as int]));
    }
    assert(whole.take(feature_size as int) =~= whole);
    result
}

/// The features of a frame.
#[verifier::opaque]
pub open spec fn frame_features(data: Seq<u8>, samples: Seq<i16>, feature_size: int) -> Seq<i32> {
    let work = windowed(data, samples);
    let scale = down_shift(used_bits(work, 1), used_bits(work, 2));
    features(
        data,
        separated(data, stages_from(data, paired(data, work, scale), 2, 128)),
        (9 - scale) as i32,
        feature_size,
    )
}

/// Extracts features of speech.
#[derive(Debug)]
pub struct OriginalFeatureExtractor {
    tables: FrontendTables,
    feature_size: usize,
}

impl OriginalFeatureExtractor {
    /// The tables.
    pub closed spec fn data(self) -> Seq<u8> {
        self.tables.data()
    }

    /// How many features a frame has.
    pub closed spec fn size(self) -> usize {
        self.feature_size
    }

    pub open spec fn valid(self) -> bool {
        valid_tables(self.data()) && (self.size() == VAD_FEATURE_SIZE || self.size()
            == FEATURE_SIZE)
    }

    /// An extractor of as many features as recognition takes.
    pub fn new(tables: FrontendTables) -> (extractor: Self)
        requires
            valid_tables(tables.data()),
        ensures
            extractor.valid(),
            extractor.data() == tables.data(),
            extractor.size() == FEATURE_SIZE,
    {
        OriginalFeatureExtractor { tables, feature_size: FEATURE_SIZE }
    }

    /// An extractor of the given number of features.
    pub fn with_feature_size(tables: FrontendTables, feature_size: usize) -> (result: Result<
        Self,
        FrontendError,
    >)
        requires
            valid_tables(tables.data()),
        ensures
            match result {
                Ok(extractor) => (feature_size == VAD_FEATURE_SIZE || feature_size == FEATURE_SIZE)
                    && extractor.valid() && extractor.data() == tables.data() && extractor.size()
                    == feature_size,
                Err(error) => feature_size != VAD_FEATURE_SIZE && feature_size != FEATURE_SIZE
                    && error == FrontendError::FeatureSize,
            },
    {
        if feature_size != VAD_FEATURE_SIZE && feature_size != FEATURE_SIZE {
            return Err(FrontendError::FeatureSize);
        }
        Ok(OriginalFeatureExtractor { tables, feature_size })
    }

    /// How many features a frame has.
    pub fn feature_size(&self) -> (size: usize)
        ensures
            size == self.size(),
    {
        self.feature_size
    }

    /// The features of a frame in 22 fractional bits.
    pub fn extract_frame_q22(&self, samples: &[i16]) -> (result: Result<Vec<i32>, FrontendError>)
        requires
            self.valid(),
        ensures
            match result {
                Ok(values) => samples@.len() >= FRAME_LENGTH && values@ == frame_features(
                    self.data(),
                    samples@,
                    self.size() as int,
                ),
                Err(error) => samples@.len() < FRAME_LENGTH && error == FrontendError::ShortFrame,
            },
    {
        if samples.len() < FRAME_LENGTH {
            return Err(FrontendError::ShortFrame);
        }
        let (work, bits, previous_bits) = window_frame(&self.tables, samples);
        let scale: i32 = count_down_shift(bits, previous_bits);
        let mut buffers: Buffers = pair_samples(&self.tables, &work, scale);
        let exponent: i32 = complex_fft(&self.tables, &mut buffers, 15 - scale);
        real_fft(&self.tables, &mut buffers);
        proof {
            reveal(frame_features);
        }
        Ok(filterbank_log(&self.tables, &buffers, exponent, self.feature_size))
    }
}

/// A frame has as many features as the extractor was made for.
pub proof fn law_feature_count(data: Seq<u8>, samples: Seq<i16>, feature_size: int)
    requires
        0 <= feature_size,
    ensures
        frame_features(data, samples, feature_size).len() == feature_size,
{
    reveal(frame_features);
}

/// Sums of samples lie within as many times the range of a sample, and a constant that is added to
/// all samples is added as often to their sum.
proof fn lemma_shifted_sum(samples: Seq<i16>, shifted: Seq<i16>, offset: int, count: int)
    requires
        0 <= count <= samples.len(),
        shifted.len() == samples.len(),
        forall|index: int|
            0 <= index < samples.len() ==> #[trigger] shifted[index] == samples[index] + offset,
    ensures
        sample_sum(shifted, count) == sample_sum(samples, count) + count * offset,
        -0x8000 * count <= sample_sum(samples, count) <= 0x7fff * count,
    decreases count,
{
    if count > 0 {
        lemma_shifted_sum(samples, shifted, offset, count - 1);
        assert(shifted[count - 1] == samples[count - 1] + offset);
        assert(count * offset == (count - 1) * offset + offset) by (nonlinear_arith);
    } else {
        assert(count * offset == 0) by (nonlinear_arith)
            requires
                count == 0,
        ;
    }
}

/// A constant offset is removed: where the sum of a frame's samples is a multiple of their number,
/// adding a constant to all samples leaves the features as they are.
pub proof fn law_offsets_are_removed(
    data: Seq<u8>,
    samples: Seq<i16>,
    shifted: Seq<i16>,
    offset: int,
    feature_size: int,
)
    requires
        samples.len() == FRAME_LENGTH,
        shifted.len() == FRAME_LENGTH,
        sample_sum(samples, FRAME_LENGTH as int) % FRAME_LENGTH as int == 0,
        forall|index: int|
            0 <= index < FRAME_LENGTH ==> #[trigger] shifted[index] == samples[index] + offset,
    ensures
        frame_features(data, shifted, feature_size) == frame_features(data, samples, feature_size),
{
    reveal(frame_features);
    lemma_shifted_sum(samples, shifted, offset, 400);
    assert(shifted[0] == samples[0] + offset);
    assert(mean(shifted) == mean(samples) + offset);
    assert forall|index: int| 0 <= index < FRAME_LENGTH implies centered(shifted, index)
        == centered(samples, index) by {
        assert(shifted[index] == samples[index] + offset);
    }
    assert(windowed(data, shifted) =~= windowed(data, samples));
}

/// A frame of one constant sample has the features of silence.
pub proof fn law_constant_frames_are_silent(data: Seq<u8>, value: i16, feature_size: int)
    ensures
        frame_features(data, Seq::new(400, |index: int| value), feature_size) == frame_features(
            data,
            Seq::new(400, |index: int| 0i16),
            feature_size,
        ),
{
    let silence = Seq::new(400, |index: int| 0i16);
    lemma_silent_sum(silence, 400);
    law_offsets_are_removed(
        data,
        silence,
        Seq::new(400, |index: int| value),
        value as int,
        feature_size,
    );
}

/// Silence sums up to nothing.
proof fn lemma_silent_sum(silence: Seq<i16>, count: int)
    requires
        0 <= count <= silence.len(),
        forall|index: int| 0 <= index < silence.len() ==> #[trigger] silence[index] == 0,
    ensures
        sample_sum(silence, count) == 0,
    decreases count,
{
    if count > 0 {
        lemma_silent_sum(silence, count - 1);
        assert(silence[count - 1] == 0);
    }
}

/// Values that are not negative.
pub open spec fn clamped(values: Seq<i32>) -> Seq<i32> {
    Seq::new(
        values.len(),
        |index: int|
            if values[index] < 0 {
                0
            } else {
                values[index]
            },
    )
}

/// How many frames the given number of samples holds.
pub open spec fn frame_count(length: int) -> int {
    if length < FRAME_LENGTH {
        0
    } else {
        1 + (length - FRAME_LENGTH) / FRAME_SHIFT as int
    }
}

/// The clamped features of the first `count` frames, one frame shift apart.
pub open spec fn frames_features(
    data: Seq<u8>,
    samples: Seq<i16>,
    feature_size: int,
    count: int,
) -> Seq<i32>
    decreases count,
{
    if count <= 0 {
        Seq::empty()
    } else {
        let start = (count - 1) * FRAME_SHIFT;
        frames_features(data, samples, feature_size, count - 1) + clamped(
            frame_features(data, samples.subrange(start, start + FRAME_LENGTH), feature_size),
        )
    }
}

/// Samples hold as many features as frames times features.
pub proof fn law_frames_feature_count(
    data: Seq<u8>,
    samples: Seq<i16>,
    feature_size: int,
    count: int,
)
    requires
        0 <= feature_size,
        0 <= count,
    ensures
        frames_features(data, samples, feature_size, count).len() == count * feature_size,
    decreases count,
{
    if count > 0 {
        let start = (count - 1) * FRAME_SHIFT;
        law_frames_feature_count(data, samples, feature_size, count - 1);
        law_feature_count(data, samples.subrange(start, start + FRAME_LENGTH), feature_size);
        assert(count * feature_size == (count - 1) * feature_size + feature_size)
            by (nonlinear_arith);
    } else {
        assert(count * feature_size == 0) by (nonlinear_arith)
            requires
                count == 0,
        ;
    }
}

/// Each part of the features is that of one frame, a frame shift after the one before it, and no
/// feature is negative.
pub proof fn law_parts_are_those_of_frames(
    data: Seq<u8>,
    samples: Seq<i16>,
    feature_size: int,
    count: int,
    frame: int,
)
    requires
        0 <= feature_size,
        0 <= frame < count,
    ensures
        frames_features(data, samples, feature_size, count).subrange(
            frame * feature_size,
            frame * feature_size + feature_size,
        ) == clamped(
            frame_features(
                data,
                samples.subrange(frame * FRAME_SHIFT, frame * FRAME_SHIFT + FRAME_LENGTH),
                feature_size,
            ),
        ),
        forall|index: int|
            0 <= index < frames_features(data, samples, feature_size, count).len()
                ==> 0 <= #[trigger] frames_features(data, samples, feature_size, count)[index],
    decreases count,
{
    let start = (count - 1) * FRAME_SHIFT;
    let before = frames_features(data, samples, feature_size, count - 1);
    let last = clamped(
        frame_features(data, samples.subrange(start, start + FRAME_LENGTH), feature_size),
    );
    law_frames_feature_count(data, samples, feature_size, count - 1);
    law_feature_count(data, samples.subrange(start, start + FRAME_LENGTH), feature_size);
    assert(frames_features(data, samples, feature_size, count) == before + last);
    if count > 1 {
        let earlier = if frame < count - 1 {
            frame
        } else {
            0
        };
        law_parts_are_those_of_frames(data, samples, feature_size, count - 1, earlier);
    }
    let from = frame * feature_size;
    if frame < count - 1 {
        assert(0 <= from && from + feature_size <= (count - 1) * feature_size) by (nonlinear_arith)
            requires
                from == frame * feature_size,
                0 <= frame,
                frame + 1 <= count - 1,
                0 <= feature_size,
        ;
        assert((before + last).subrange(from, from + feature_size) =~= before.subrange(
            from,
            from + feature_size,
        ));
    } else {
        assert((before + last).subrange(from, from + feature_size) =~= last);
    }
}

/// The first frames do not depend on the samples after them.
proof fn lemma_first_frames(
    data: Seq<u8>,
    samples: Seq<i16>,
    more: Seq<i16>,
    feature_size: int,
    count: int,
)
    requires
        count > 0 ==> (count - 1) * FRAME_SHIFT + FRAME_LENGTH <= samples.len(),
    ensures
        frames_features(data, samples + more, feature_size, count) == frames_features(
            data,
            samples,
            feature_size,
            count,
        ),
    decreases count,
{
    if count > 0 {
        lemma_first_frames(data, samples, more, feature_size, count - 1);
        let start = (count - 1) * FRAME_SHIFT;
        assert((samples + more).subrange(start, start + FRAME_LENGTH) =~= samples.subrange(
            start,
            start + FRAME_LENGTH,
        ));
    }
}

/// The frames after the first ones are those of the samples after them.
proof fn lemma_frames_split(
    data: Seq<u8>,
    samples: Seq<i16>,
    feature_size: int,
    first: int,
    second: int,
)
    requires
        0 <= first,
        0 <= second,
        first * FRAME_SHIFT <= samples.len(),
        second > 0 ==> (first + second - 1) * FRAME_SHIFT + FRAME_LENGTH <= samples.len(),
    ensures
        frames_features(data, samples, feature_size, first + second) == frames_features(
            data,
            samples,
            feature_size,
            first,
        ) + frames_features(data, samples.skip(first * FRAME_SHIFT), feature_size, second),
    decreases second,
{
    let all = frames_features(data, samples, feature_size, first);
    if second > 0 {
        lemma_frames_split(data, samples, feature_size, first, second - 1);
        let rest = samples.skip(first * FRAME_SHIFT);
        let start = (second - 1) * FRAME_SHIFT;
        let place = (first + second - 1) * FRAME_SHIFT;
        assert(rest.subrange(start, start + FRAME_LENGTH) =~= samples.subrange(
            place,
            place + FRAME_LENGTH,
        ));
        let last = clamped(
            frame_features(data, rest.subrange(start, start + FRAME_LENGTH), feature_size),
        );
        let earlier = frames_features(data, rest, feature_size, second - 1);
        assert((all + earlier) + last =~= all + (earlier + last));
    } else {
        assert(all + Seq::<i32>::empty() =~= all);
    }
}

/// Samples that come in pieces give the same features: those of the first piece's frames, and those
/// of the frames that its last samples make with the second piece.
pub proof fn law_pieces_give_the_same_features(
    data: Seq<u8>,
    samples: Seq<i16>,
    more: Seq<i16>,
    feature_size: int,
)
    ensures
        ({
            let first = frame_count(samples.len() as int);
            let rest = (samples + more).skip(first * FRAME_SHIFT);
            let second = frame_count(rest.len() as int);
            &&& 0 <= first * FRAME_SHIFT <= samples.len()
            &&& frame_count((samples + more).len() as int) == first + second
            &&& frames_features(data, samples + more, feature_size, first + second)
                == frames_features(data, samples, feature_size, first) + frames_features(
                data,
                rest,
                feature_size,
                second,
            )
        }),
{
    let first = frame_count(samples.len() as int);
    let rest = (samples + more).skip(first * FRAME_SHIFT);
    let second = frame_count(rest.len() as int);
    lemma_first_frames(data, samples, more, feature_size, first);
    lemma_frames_split(data, samples + more, feature_size, first, second);
}

/// The samples `from..to`.
pub fn sample_part(samples: &[i16], from: usize, to: usize) -> (part: Vec<i16>)
    requires
        from <= to <= samples@.len(),
    ensures
        part@ == samples@.subrange(from as int, to as int),
{
    let mut part: Vec<i16> = Vec::new();
    for index in from..to
        invariant
            from <= to <= samples@.len(),
            part@ == samples@.subrange(from as int, index as int),
    {
        part.push(samples[index]);
    }
    part
}

impl OriginalFeatureExtractor {
    /// The clamped features of all frames of the samples, in 22 fractional bits.
    pub fn extract_frames_q22(&self, samples: &[i16]) -> (values: Vec<i32>)
        requires
            self.valid(),
        ensures
            values@ == frames_features(
                self.data(),
                samples@,
                self.size() as int,
                frame_count(samples@.len() as int),
            ),
    {
        let mut values: Vec<i32> = Vec::new();
        let length: usize = samples.len();
        if length < FRAME_LENGTH {
            return values;
        }
        let count: usize = 1 + (length - FRAME_LENGTH) / FRAME_SHIFT;
        for index in 0..count
            invariant
                self.valid(),
                length == samples@.len(),
                length >= FRAME_LENGTH,
                count == frame_count(length as int),
                values@ == frames_features(
                    self.data(),
                    samples@,
                    self.size() as int,
                    index as int,
                ),
        {
            let start: usize = index * FRAME_SHIFT;
            let frame: Vec<i16> = sample_part(samples, start, start + FRAME_LENGTH);
            if let Ok(frame_values) = self.extract_frame_q22(&frame) {
                let ghost before = values@;
                let ghost whole = clamped(frame_values@);
                for at in 0..frame_values.len()
                    invariant
                        whole == clamped(frame_values@),
                        values@ == before + whole.take(at as int),
                {
                    let value: i32 = frame_values[at];
                    values.push(
                        if value < 0 {
                            0
                        } else {
                            value
                        },
                    );
                    assert(whole.take(at + 1) =~= whole.take(at as int).push(whole[at as int]));
                }
                assert(whole.take(frame_values@.len() as int) =~= whole);
            }
        }
        values
    }
}

/// Moving a number up does not depend on the shift that it is counted from.
proof fn lemma_normalized(value: u32, shift: int, other: int)
    ensures
        normalized(value, shift).0 == normalized(value, other).0,
        normalized(value, shift).1 - shift == normalized(value, other).1 - other,
        shift <= normalized(value, shift).1 <= shift + 31,
{
    let moved = moved_up(moved_up(moved_up(moved_up((value, shift), 16), 8), 4), 2).0;
    assert((moved >> 31) ^ 1 <= 1) by (bit_vector);
}

/// No arithmetic of the logarithm wraps.
proof fn lemma_log_parts(shift: i32, tabled: i32)
    requires
        -200 <= shift <= 200,
        -0x8000 <= tabled < 0x8000,
    ensures
        31i32.wrapping_sub(shift).wrapping_mul(0x2C5C86).wrapping_add(tabled.wrapping_mul(0x80))
            == (31 - shift) * 0x2C5C86 + 0x80 * tabled,
{
    assert(31i32.wrapping_sub(shift) == 31 - shift);
    assert(31i32.wrapping_sub(shift).wrapping_mul(0x2C5C86) == (31 - shift) * 0x2C5C86);
    assert(tabled.wrapping_mul(0x80) == 0x80 * tabled);
}

/// The logarithm of a filter by the place of its leading bit.
proof fn lemma_filter_log(data: Seq<u8>, filter: i32, exponent: i32, top: u32, moved: int)
    requires
        valid_tables(data),
        -64 <= exponent < 64,
        normalized(filter.wrapping_add(2) as u32, 2 * exponent) == (top, 2 * exponent + moved),
        0 <= moved < 32,
    ensures
        filter_log(data, filter, exponent) == (31 - 2 * exponent - moved) * 0x2C5C86 + 0x80
            * log_entry(data, ((top >> 21) ^ 0x400) as int),
{
    let shift = 2 * exponent + moved;
    assert(exponent.wrapping_mul(2) as i8 == 2 * exponent);
    lemma_log_parts(shift as i32, log_entry(data, ((top >> 21) ^ 0x400) as int));
}

/// A feature measures its filter in absolute units: for the same filter, a block exponent that is
/// lower by one raises the feature by two doublings.
pub proof fn law_lower_exponents_raise_features(data: Seq<u8>, filter: i32, exponent: i32)
    requires
        valid_tables(data),
        -64 < exponent < 64,
    ensures
        filter_log(data, filter, (exponent - 1) as i32) == filter_log(data, filter, exponent) + 2
            * 0x2C5C86,
{
    let value = filter.wrapping_add(2) as u32;
    lemma_normalized(value, 2 * exponent, 2 * exponent - 2);
    let top = normalized(value, 2 * exponent).0;
    let moved = normalized(value, 2 * exponent).1 - 2 * exponent;
    lemma_filter_log(data, filter, exponent, top, moved);
    lemma_filter_log(data, filter, (exponent - 1) as i32, top, moved);
}

/// A number whose upper bit is set after a shift by `zeros` is moved up by `zeros`.
proof fn lemma_moved_to_the_top(value: u32, zeros: u32, shift: int)
    requires
        zeros < 32,
        (value << zeros) >> zeros == value,
        value << zeros >= 0x8000_0000,
    ensures
        normalized(value, shift) == (value << zeros, shift + zeros),
{
    let first: u32 = if value >> 16 == 0 {
        16
    } else {
        0
    };
    let after_first = value << first;
    let second: u32 = if after_first >> 24 == 0 {
        8
    } else {
        0
    };
    let after_second = after_first << second;
    let third: u32 = if after_second >> 28 == 0 {
        4
    } else {
        0
    };
    let after_third = after_second << third;
    let fourth: u32 = if after_third >> 30 == 0 {
        2
    } else {
        0
    };
    let after_fourth = after_third << fourth;
    let last = (after_fourth >> 31) ^ 1;
    assert(last <= 1 && after_fourth << last == value << zeros && first + second + third + fourth
        + last == zeros) by (bit_vector)
        requires
            zeros < 32,
            (value << zeros) >> zeros == value,
            value << zeros >= 0x8000_0000,
            first == if value >> 16 == 0 { 16u32 } else { 0u32 },
            after_first == value << first,
            second == if after_first >> 24 == 0 { 8u32 } else { 0u32 },
            after_second == after_first << second,
            third == if after_second >> 28 == 0 { 4u32 } else { 0u32 },
            after_third == after_second << third,
            fourth == if after_third >> 30 == 0 { 2u32 } else { 0u32 },
            after_fourth == after_third << fourth,
            last == (after_fourth >> 31) ^ 1,
    ;
    assert(value << 0 == value) by (bit_vector);
    assert(after_first << 0 == after_first) by (bit_vector);
    assert(after_second << 0 == after_second) by (bit_vector);
    assert(after_third << 0 == after_third) by (bit_vector);
}

/// The logarithm of a filter: its whole doublings, each worth the logarithm of two, and the table's
/// logarithm of the ten bits behind the leading one.
pub proof fn law_logarithm_of_filters(data: Seq<u8>, filter: i32, zeros: u32, exponent: i32)
    requires
        valid_tables(data),
        0 <= filter <= i32::MAX - 2,
        -64 <= exponent < 64,
        zeros < 32,
        (((filter + 2) as u32) << zeros) >> zeros == filter + 2,
        ((filter + 2) as u32) << zeros >= 0x8000_0000,
    ensures
        filter_log(data, filter, exponent) == (31 - zeros - 2 * exponent) * 0x2C5C86 + 0x80
            * log_entry(data, ((((filter + 2) as u32) << zeros) >> 21) - 0x400),
{
    let value = (filter + 2) as u32;
    let top = value << zeros;
    lemma_moved_to_the_top(value, zeros, 2 * exponent);
    assert((top >> 21) ^ 0x400 < 1024 && (top >> 21) ^ 0x400 == (top >> 21) - 0x400)
        by (bit_vector)
        requires
            top >= 0x8000_0000,
    ;
    lemma_filter_log(data, filter, exponent, top, zeros as int);
}

/// Twice the energy, with the two units that every filter gets counted in, is one doubling more.
pub proof fn law_doubled_filters_are_one_doubling_more(
    data: Seq<u8>,
    filter: i32,
    doubled: i32,
    zeros: u32,
    exponent: i32,
)
    requires
        valid_tables(data),
        0 <= filter < 0x3fff_fffe,
        doubled + 2 == 2 * (filter + 2),
        -64 <= exponent < 64,
        1 <= zeros < 32,
        (((filter + 2) as u32) << zeros) >> zeros == filter + 2,
        ((filter + 2) as u32) << zeros >= 0x8000_0000,
    ensures
        filter_log(data, doubled, exponent) == filter_log(data, filter, exponent) + 0x2C5C86,
{
    let value = (filter + 2) as u32;
    let twice = (doubled + 2) as u32;
    let fewer = (zeros - 1) as u32;
    assert((twice << fewer) >> fewer == twice && twice << fewer == value << zeros) by (bit_vector)
        requires
            1 <= zeros < 32,
            fewer == zeros - 1,
            twice == 2 * value,
            (value << zeros) >> zeros == value,
            value < 0x4000_0002,
    ;
    let top = value << zeros;
    lemma_moved_to_the_top(value, zeros, 2 * exponent);
    lemma_moved_to_the_top(twice, fewer, 2 * exponent);
    lemma_filter_log(data, filter, exponent, top, zeros as int);
    lemma_filter_log(data, doubled, exponent, top, fewer as int);
}

/// The power of a spectral line is the sum of the squares of its parts.
pub proof fn law_power_is_the_sum_of_squares(lines: Spectrum, index: int)
    ensures
        power(lines, index) == lines.real[index] * lines.real[index] + lines.imaginary[index]
            * lines.imaginary[index],
{
    let re = lines.real[index] as int;
    let im = lines.imaginary[index] as int;
    assert(0 <= re * re <= 0x4000_0000) by (nonlinear_arith)
        requires
            -0x8000 <= re < 0x8000,
    ;
    assert(0 <= im * im <= 0x4000_0000) by (nonlinear_arith)
        requires
            -0x8000 <= im < 0x8000,
    ;
    assert((-0x8000_0000i32) as u32 == 0x8000_0000u32) by (bit_vector);
}

/// A shift down of a signed number is a division rounded down.
proof fn lemma_low_bits_off(value: i64)
    requires
        -0x8000_0000 <= value <= 0x8000_0000,
    ensures
        value >> 15 == value / 0x8000,
{
    assert(value == (value >> 15) * 0x8000 + (value & 0x7fff) && 0 <= (value & 0x7fff) && (value
        & 0x7fff) < 0x8000 && -0x1_0000 <= (value >> 15) && (value >> 15) <= 0x1_0000)
        by (bit_vector)
        requires
            -0x8000_0000 <= value <= 0x8000_0000,
    ;
    lemma_fundamental_div_mod_converse(
        value as int,
        0x8000,
        (value >> 15) as int,
        (value & 0x7fff) as int,
    );
}

/// The share of a power is the power times the weight in 15 fractional bits, rounded down.
pub proof fn law_share_is_the_weighted_power(value: u32, weight: i32)
    requires
        -0x8000 <= weight < 0x8000,
        value <= 0x8000_0000,
    ensures
        share(value, weight) == (value * weight) / 0x8000,
{
    let low = (value & 0xffff) as int;
    let high = (value >> 16) as int;
    assert(value == (value >> 16) * 0x1_0000 + (value & 0xffff) && value & 0xffff <= 0xffff && value
        >> 16 <= 0x8000) by (bit_vector)
        requires
            value <= 0x8000_0000,
    ;
    assert(-0x8000_0000 <= low * weight <= 0x8000_0000) by (nonlinear_arith)
        requires
            0 <= low <= 0xffff,
            -0x8000 <= weight < 0x8000,
    ;
    lemma_low_bits_off((low * weight) as i64);
    assert(value * weight == low * weight + 0x8000 * (weight * high * 2)) by (nonlinear_arith)
        requires
            value == high * 0x1_0000 + low,
    ;
    lemma_hoist_over_denominator(low * weight, weight * high * 2, 0x8000);
    assert(-0x4000_0000_0000 <= value * weight < 0x4000_0000_0000) by (nonlinear_arith)
        requires
            0 <= value <= 0x8000_0000,
            -0x8000 <= weight < 0x8000,
    ;
}

/// A number times a coefficient in 15 fractional bits, rounded down.
proof fn lemma_scaled(value: i32, coefficient: i32)
    requires
        -0x8000 <= coefficient < 0x8000,
        -0x8000_0000 < value,
    ensures
        scaled(value, coefficient) == (value * coefficient) / 0x8000,
{
    let low = ((value as u32) & 0xffff) as int;
    let high = (value >> 16) as int;
    assert(value == (value >> 16) * 0x1_0000 + ((value as u32) & 0xffff) && (value as u32) & 0xffff
        <= 0xffff && -0x8000 <= value >> 16 && value >> 16 < 0x8000) by (bit_vector);
    assert(-0x8000_0000 <= low * coefficient <= 0x8000_0000) by (nonlinear_arith)
        requires
            0 <= low <= 0xffff,
            -0x8000 <= coefficient < 0x8000,
    ;
    assert(-0x8000_0000 <= coefficient * high <= 0x8000_0000) by (nonlinear_arith)
        requires
            -0x8000 <= high < 0x8000,
            -0x8000 <= coefficient < 0x8000,
    ;
    lemma_low_bits_off((low * coefficient) as i64);
    assert(value * coefficient == low * coefficient + 0x8000 * (coefficient * high * 2))
        by (nonlinear_arith)
        requires
            value == high * 0x1_0000 + low,
    ;
    lemma_hoist_over_denominator(low * coefficient, coefficient * high * 2, 0x8000);
    assert(-0x3fff_ffff_8000 <= value * coefficient <= 0x3fff_ffff_8000) by (nonlinear_arith)
        requires
            -0x8000_0000 < value < 0x8000_0000,
            -0x8000 <= coefficient < 0x8000,
    ;
}

/// What a window makes of a frame that uses at most half of the range of samples: from each sample,
/// less the mean, goes off a constant part of the one before it, and the rest is weighted. The first
/// sample has none before it, and its weight comes without the fraction. The mean is the sum of the
/// samples over their number, rounded towards zero.
pub proof fn law_windows_weight_raised_samples(data: Seq<u8>, samples: Seq<i16>)
    requires
        valid_tables(data),
        samples.len() >= 400,
        forall|index: int| 0 <= index < 400 ==> -0x4000 < #[trigger] samples[index] < 0x4000,
    ensures
        ({
            let middle = mean(samples);
            let sum = sample_sum(samples, 400);
            &&& windowed(data, samples)[0] == (samples[0] - middle) * window(data, 0)
            &&& forall|index: int|
                1 <= index < 400 ==> (#[trigger] windowed(data, samples)[index]) == ((0x8000 * (
                samples[index] - middle) - 0x7C29 * (samples[index - 1] - middle)) * window(
                    data,
                    index,
                )) / 0x8000
            &&& 0 <= sum ==> 0 <= 400 * middle <= sum < 400 * middle + 400
            &&& sum <= 0 ==> 400 * middle - 400 < sum <= 400 * middle <= 0
        }),
{
    let sum = sample_sum(samples, 400);
    lemma_sum_bound(samples, 400);
    lemma_fundamental_div_mod(sum, 400);
    lemma_fundamental_div_mod(-sum, 400);
    let middle = mean(samples);
    assert(-0x4000 < middle < 0x4000);
    let first = samples[0] - middle;
    assert(-0x4000_0000 <= first * window(data, 0) <= 0x4000_0000) by (nonlinear_arith)
        requires
            -0x8000 < first < 0x8000,
            -0x8000 <= window(data, 0) < 0x8000,
    ;
    assert forall|index: int| 1 <= index < 400 implies (#[trigger] windowed(data, samples)[index])
        == ((0x8000 * (samples[index] - middle) - 0x7C29 * (samples[index - 1] - middle)) * window(
        data,
        index,
    )) / 0x8000 by {
        let here = samples[index] - middle;
        let before = samples[index - 1] - middle;
        assert(emphasized(samples, index) == 0x8000 * here - 0x7C29 * before);
        lemma_scaled(emphasized(samples, index), window(data, index));
    }
}

/// The sum of small samples is small.
proof fn lemma_sum_bound(samples: Seq<i16>, count: int)
    requires
        0 <= count <= 400 <= samples.len(),
        forall|index: int| 0 <= index < 400 ==> -0x4000 < #[trigger] samples[index] < 0x4000,
    ensures
        -0x3fff * count <= sample_sum(samples, count) <= 0x3fff * count,
    decreases count,
{
    if count > 0 {
        lemma_sum_bound(samples, count - 1);
    }
}

/// The bits that occur in a frame stay under a limit just if all samples do.
proof fn lemma_bits_below(work: Seq<i32>, index: int, limit: u32)
    requires
        0 <= index <= 400,
        16 <= limit <= 31,
    ensures
        used_bits(work, index) < 1u32 << limit <==> forall|at: int|
            index <= at < 400 ==> magnitude(#[trigger] work[at]) < 1u32 << limit,
        used_bits(work, index) >= 0x8000,
    decreases 400 - index,
{
    assert(0x8000u32 < 1u32 << limit) by (bit_vector)
        requires
            16 <= limit <= 31,
    ;
    if index < 400 {
        lemma_bits_below(work, index + 1, limit);
        let rest = used_bits(work, index + 1);
        let here = magnitude(work[index]);
        assert((rest | here < 1u32 << limit) == (rest < 1u32 << limit && here < 1u32 << limit)
            && rest | here >= rest) by (bit_vector)
            requires
                16 <= limit <= 31,
        ;
    }
}

/// A number has a leading bit.
proof fn lemma_leading_bit(value: u32, limit: u32) -> (bit: u32)
    requires
        value > 0,
        limit < 31,
        value < 1u32 << ((limit + 1) as u32),
    ensures
        bit <= limit,
        1u32 << bit <= value < 1u32 << ((bit + 1) as u32),
    decreases limit,
{
    if value >= 1u32 << limit {
        limit
    } else if limit == 0 {
        assert(1u32 << 0 == 1) by (bit_vector);
        0
    } else {
        lemma_leading_bit(value, (limit - 1) as u32)
    }
}

/// A number is doubled until its leading bit is the thirtieth.
proof fn lemma_doublings(value: u32, bit: u32, count: int)
    requires
        bit <= 30,
        1u32 << bit <= value < 1u32 << ((bit + 1) as u32),
        0 <= count <= bit,
    ensures
        doublings(value, count) == count + 30 - bit,
    decreases 30 - bit,
{
    let next = (bit + 1) as u32;
    let doubled = value << 1;
    let after = (bit + 2) as u32;
    assert(bit < 30 ==> doubled >= 1u32 << next && (after < 32 ==> doubled < 1u32 << after)
        && value < 0x4000_0000) by (bit_vector)
        requires
            bit <= 30,
            next == bit + 1,
            after == bit + 2,
            1u32 << bit <= value,
            value < 1u32 << next,
            doubled == value << 1,
    ;
    if bit < 30 {
        lemma_doublings(doubled, next, count + 1);
    } else {
        assert(1u32 << 30 == 0x4000_0000 && 1u32 << 31 == 0x8000_0000) by (bit_vector);
    }
}

/// The first stage divides by a power of two, so that twice the frame under a shift that is greater
/// by one gives the same.
proof fn lemma_paired_doubled(data: Seq<u8>, work: Seq<i32>, louder: Seq<i32>, scale: i32)
    requires
        valid_tables(data),
        1 <= scale < 20,
        work.len() == 512,
        louder.len() == 512,
        forall|index: int|
            0 <= index < 512 ==> -0x1000_0000 <= #[trigger] work[index] <= 0x1000_0000
                && louder[index] == 2 * work[index],
    ensures
        paired(data, louder, (scale + 1) as i32) == paired(data, work, scale),
{
    let lower = (scale - 1) as i32;
    let higher = (scale + 1) as i32;
    assert(lower & 31 == lower && scale & 31 == scale && higher & 31 == higher) by (bit_vector)
        requires
            1 <= scale < 20,
            lower == scale - 1,
            higher == scale + 1,
    ;
    let exponent = lower as u32;
    let next = scale as u32;
    assert(1u32 << next == 2 * (1u32 << exponent) && 1u32 << exponent <= 0x8_0000) by (bit_vector)
        requires
            exponent < 19,
            next == exponent + 1,
    ;
    let rounding = 1u32 << exponent;
    let shift = scale as u32;
    let greater = higher as u32;
    assert forall|source: i32, other: i32, sum: bool|
        -0x2000_0000 <= source <= 0x2000_0000 && -0x1000_0000 <= other <= 0x1000_0000 implies (
    #[trigger] folded(source, other, sum, shift)) == folded(
        (2 * source) as i32,
        (2 * other) as i32,
        sum,
        greater,
    ) by {
        let value = if sum {
            source.wrapping_add(other)
        } else {
            source.wrapping_sub(other)
        };
        let twice = (2 * value) as i32;
        assert(twice >> greater == value >> shift) by (bit_vector)
            requires
                twice == 2 * value,
                -0x4000_0000 <= value < 0x4000_0000,
                greater == shift + 1,
                shift < 20,
        ;
    }
    let first = paired(data, work, scale);
    let second = paired(data, louder, higher);
    assert forall|index: int| 0 <= index < 257 implies first.real[index] == second.real[index]
        && first.imaginary[index] == second.imaginary[index] by {
        if index < 256 {
            let at = reversed(data, index / 2);
            let rounded = work[at].wrapping_add(rounding as i32);
            let rounded_next = work[at + 1].wrapping_add(rounding as i32);
            assert(folded(rounded, work[at + 256], index % 2 == 0, shift) == folded(
                (2 * rounded) as i32,
                louder[at + 256],
                index % 2 == 0,
                greater,
            ));
            assert(folded(rounded_next, work[at + 257], index % 2 == 0, shift) == folded(
                (2 * rounded_next) as i32,
                louder[at + 257],
                index % 2 == 0,
                greater,
            ));
        }
    }
    assert(first.real =~= second.real);
    assert(first.imaginary =~= second.imaginary);
}

/// A frame that is not near silence is shifted down by one more bit where it is twice as loud.
proof fn lemma_louder_shift(work: Seq<i32>, louder: Seq<i32>, loud: int)
    requires
        work.len() == 512,
        louder.len() == 512,
        forall|index: int|
            0 <= index < 512 ==> -0x1000_0000 <= #[trigger] work[index] <= 0x1000_0000
                && louder[index] == 2 * work[index],
        1 <= loud < 400,
        work[loud] >= 0x8000 || work[loud] <= -0x8000,
    ensures
        ({
            let scale = down_shift(used_bits(work, 1), used_bits(work, 2));
            &&& 2 <= scale < 18
            &&& down_shift(used_bits(louder, 1), used_bits(louder, 2)) == scale + 1
        }),
{
    assert(1u32 << 15 == 0x8000 && 1u32 << 16 == 0x1_0000 && 1u32 << 29 == 0x2000_0000 && 1u32 << 30
        == 0x4000_0000) by (bit_vector);
    let bits = used_bits(work, 1);
    let more = used_bits(louder, 1);
    lemma_bits_below(work, 1, 29);
    lemma_bits_below(work, 2, 29);
    lemma_bits_below(louder, 1, 30);
    lemma_bits_below(louder, 2, 30);
    let bit = lemma_leading_bit(bits, 28);
    assert(bit >= 15) by {
        let next = (bit + 1) as u32;
        assert(bit < 15 ==> 1u32 << next <= 0x8000) by (bit_vector)
            requires
                next == bit + 1,
        ;
    }
    let next = (bit + 1) as u32;
    let after = (bit + 2) as u32;
    assert(1u32 << next == 2 * (1u32 << bit) && 1u32 << after == 2 * (1u32 << next))
        by (bit_vector)
        requires
            bit <= 28,
            next == bit + 1,
            after == bit + 2,
    ;
    lemma_bits_below(work, 1, next);
    lemma_bits_below(louder, 1, after);
    assert(more < 1u32 << after) by {
        assert forall|at: int| 1 <= at < 400 implies magnitude(#[trigger] louder[at]) < 1u32
            << after by {
            assert(magnitude(work[at]) < 1u32 << next);
        }
    }
    lemma_bits_below(louder, 1, next);
    assert(more >= 1u32 << next) by {
        if more < 1u32 << next {
            assert forall|at: int| 1 <= at < 400 implies magnitude(#[trigger] work[at]) < 1u32
                << bit by {
                assert(magnitude(louder[at]) < 1u32 << next);
            }
            assert(magnitude(work[loud]) < 1u32 << bit);
            if bit > 15 {
                lemma_bits_below(work, 1, bit);
            }
        }
    }
    lemma_doublings(bits, bit, 0);
    lemma_doublings(more, next, 0);
    assert(bits ^ 0 == bits && more ^ 0 == more) by (bit_vector);
}

/// Twice the sound is two doublings more of energy: where a windowed frame is exactly twice another
/// one, is not near silence and does not reach the limits of the arithmetic, each of its features is
/// greater by twice the logarithm of two.
pub proof fn law_doubled_frames_raise_features(
    data: Seq<u8>,
    samples: Seq<i16>,
    louder: Seq<i16>,
    loud: int,
    feature_size: int,
)
    requires
        valid_tables(data),
        feature_size == VAD_FEATURE_SIZE || feature_size == FEATURE_SIZE,
        forall|index: int|
            0 <= index < 512 ==> -0x1000_0000 <= #[trigger] windowed(data, samples)[index]
                <= 0x1000_0000 && windowed(data, louder)[index] == 2 * windowed(
                data,
                samples,
            )[index],
        1 <= loud < 400,
        windowed(data, samples)[loud] >= 0x8000 || windowed(data, samples)[loud] <= -0x8000,
    ensures
        forall|index: int|
            0 <= index < feature_size ==> (#[trigger] frame_features(
                data,
                louder,
                feature_size,
            )[index]) == frame_features(data, samples, feature_size)[index] + 2 * 0x2C5C86,
{
    reveal(frame_features);
    let work = windowed(data, samples);
    let doubled = windowed(data, louder);
    let scale = down_shift(used_bits(work, 1), used_bits(work, 2));
    lemma_louder_shift(work, doubled, loud);
    lemma_paired_doubled(data, work, doubled, scale);
    let lines = separated(data, stages_from(data, paired(data, work, scale), 2, 128));
    assert forall|index: int| 0 <= index < feature_size implies (#[trigger] frame_features(
        data,
        louder,
        feature_size,
    )[index]) == frame_features(data, samples, feature_size)[index] + 2 * 0x2C5C86 by {
        law_lower_exponents_raise_features(
            data,
            filters(data, lines, feature_size, 255)[index],
            (9 - scale) as i32,
        );
    }
}

/// Rotating a line is multiplying it with a number on the circle: seen from the line, the product
/// points by the cosine along it and by the sine across it.
pub proof fn law_rotations_turn_lines(re: i32, im: i32, cosine: i32, sine: i32)
    requires
        -0x7fff <= re <= 0x7fff,
        -0x7fff <= im <= 0x7fff,
        -0x7fff <= cosine <= 0x7fff,
        -0x7fff <= sine <= 0x7fff,
    ensures
        ({
            let along = real_product(re, im, cosine, sine) - 0x4000;
            let across = imaginary_product(re, im, cosine, sine) - 0x4000;
            let energy = re * re + im * im;
            &&& along * re + across * im == cosine * energy
            &&& across * re - along * im == sine * energy
        }),
{
    lemma_products(re, im, cosine, sine);
    let along = re * cosine - im * sine;
    let across = im * cosine + re * sine;
    assert(along * re + across * im == cosine * (re * re + im * im)) by (nonlinear_arith)
        requires
            along == re * cosine - im * sine,
            across == im * cosine + re * sine,
    ;
    assert(across * re - along * im == sine * (re * re + im * im)) by (nonlinear_arith)
        requires
            along == re * cosine - im * sine,
            across == im * cosine + re * sine,
    ;
}

proof fn lemma_product_bound(value: int, factor: int, limit: int)
    requires
        -limit <= value <= limit,
        -0x8000 <= factor <= 0x8000,
    ensures
        -0x8000 * limit <= value * factor <= 0x8000 * limit,
{
    assert(-0x8000 * limit <= value * factor <= 0x8000 * limit) by (nonlinear_arith)
        requires
            -limit <= value <= limit,
            -0x8000 <= factor <= 0x8000,
    ;
}

proof fn lemma_products(re: i32, im: i32, cosine: i32, sine: i32)
    requires
        -0x7fff <= re <= 0x7fff,
        -0x7fff <= im <= 0x7fff,
        -0x8000 <= cosine <= 0x7fff,
        -0x8000 <= sine <= 0x7fff,
    ensures
        real_product(re, im, cosine, sine) == re * cosine - im * sine + 0x4000,
        imaginary_product(re, im, cosine, sine) == im * cosine + re * sine + 0x4000,
{
    lemma_product_bound(re as int, cosine as int, 0x7fff);
    lemma_product_bound(im as int, sine as int, 0x7fff);
    lemma_product_bound(im as int, cosine as int, 0x7fff);
    lemma_product_bound(re as int, sine as int, 0x7fff);
}

/// A 32-bit number shifted down by 15 bits is divided by them, rounded down.
proof fn lemma_down_by_fifteen(product: i32)
    ensures
        0x8000 * (product >> 15) <= product < 0x8000 * ((product >> 15) + 1),
{
    assert(product == (product >> 15) * 0x8000 + (product & 0x7fff) && 0 <= (product & 0x7fff) && (
    product & 0x7fff) < 0x8000 && -0x1_0000 <= product >> 15 && product >> 15 <= 0x1_0000)
        by (bit_vector);
}

/// A sum and a difference of small numbers, and what they tell of both.
proof fn lemma_combined(left: i32, product: i32)
    requires
        -0x2000 <= left <= 0x2000,
        -0x2000_0000 <= product <= 0x2000_4000,
    ensures
        ({
            let rotated = product >> 15;
            let sum = combined(left, product, true, true);
            let difference = combined(left, product, false, true);
            let half_sum = combined(left, product, true, false);
            let half_difference = combined(left, product, false, false);
            &&& sum + difference == 2 * left
            &&& sum - difference == 2 * rotated
            &&& left <= half_sum + half_difference <= left + 1
            &&& half_sum - half_difference == rotated
        }),
{
    lemma_down_by_fifteen(product);
    let rotated = product >> 15;
    assert(((product as u32) >> 15) as i16 == product >> 15) by (bit_vector)
        requires
            -0x2000_0000 <= product <= 0x2000_4000,
    ;
    let more = (rotated + left + 1) as i32;
    let less = (left + 1 - rotated) as i32;
    assert(((more as u32) >> 1) as i16 == more >> 1 && ((less as u32) >> 1) as i16 == less >> 1)
        by (bit_vector)
        requires
            -0x1_0000 <= more < 0x1_0000,
            -0x1_0000 <= less < 0x1_0000,
    ;
    assert(more == 2 * (more >> 1) + (more & 1) && 0 <= (more & 1) && (more & 1) <= 1 && less == 2
        * (less >> 1) + (less & 1) && 0 <= (less & 1) && (less & 1) <= 1) by (bit_vector)
        requires
            -0x1_0000 <= more < 0x1_0000,
            -0x1_0000 <= less < 0x1_0000,
    ;
}

/// A number that a stage adds to one line of a pair and takes off the other, in units of the lines.
pub open spec fn exchanged(first: i16, second: i16, step: int) -> int {
    if step == 16 {
        (first - second) / 2
    } else {
        first - second
    }
}

/// What a stage makes of two lines, as far as they do not reach the limits of the arithmetic: the two
/// add up to the first line, or to twice it in the stage that does not halve, and differ by the second
/// line rotated, each up to rounding.
pub proof fn law_stages_add_and_subtract_rotated_lines(
    data: Seq<u8>,
    lines: Spectrum,
    half: int,
    step: int,
    index: int,
)
    requires
        valid_tables(data),
        stage_shape(half, step),
        0 <= index < 256,
        index % (2 * half) < half,
        index + half < 256,
        -0x2000 <= lines.real[index] <= 0x2000,
        -0x2000 <= lines.imaginary[index] <= 0x2000,
        -0x1fff <= lines.real[index + half] <= 0x1fff,
        -0x1fff <= lines.imaginary[index + half] <= 0x1fff,
    ensures
        ({
            let after = stage(data, lines, half, step);
            let turn = (index % half) * step;
            let re = lines.real[index + half];
            let im = lines.imaginary[index + half];
            let real_sum = after.real[index] + after.real[index + half];
            let imaginary_sum = after.imaginary[index] + after.imaginary[index + half];
            let real_turn = exchanged(after.real[index], after.real[index + half], step);
            let imaginary_turn = exchanged(
                after.imaginary[index],
                after.imaginary[index + half],
                step,
            );
            &&& step == 16 ==> real_sum == 2 * lines.real[index] && imaginary_sum == 2
                * lines.imaginary[index]
            &&& step != 16 ==> lines.real[index] <= real_sum <= lines.real[index] + 1
            &&& step != 16 ==> lines.imaginary[index] <= imaginary_sum <= lines.imaginary[index] + 1
            &&& -0x4000 <= re * cosine(data, turn) - im * sine(data, turn) - 0x8000 * real_turn
                < 0x4000
            &&& -0x4000 <= im * cosine(data, turn) + re * sine(data, turn) - 0x8000 * imaginary_turn
                < 0x4000
        }),
{
    let right = index + half;
    lemma_right_line(index, half, step);
    let turn = (index % half) * step;
    let re = lines.real[right] as i32;
    let im = lines.imaginary[right] as i32;
    let turn_cosine = cosine(data, turn);
    let turn_sine = sine(data, turn);
    lemma_products(re, im, turn_cosine, turn_sine);
    lemma_product_bound(re as int, turn_cosine as int, 0x1fff);
    lemma_product_bound(im as int, turn_sine as int, 0x1fff);
    lemma_product_bound(im as int, turn_cosine as int, 0x1fff);
    lemma_product_bound(re as int, turn_sine as int, 0x1fff);
    let both = real_product(re, im, turn_cosine, turn_sine);
    let imaginary = imaginary_product(re, im, turn_cosine, turn_sine);
    lemma_combined(lines.real[index] as i32, both);
    lemma_combined(lines.imaginary[index] as i32, imaginary);
    lemma_down_by_fifteen(both);
    lemma_down_by_fifteen(imaginary);
}

/// The second line of a pair belongs to the first one.
proof fn lemma_right_line(index: int, half: int, step: int)
    requires
        stage_shape(half, step),
        0 <= index,
        index % (2 * half) < half,
    ensures
        left_line(index, half) == index,
        left_line(index + half, half) == index,
{
    let span = 2 * half;
    lemma_fundamental_div_mod(index, span);
    let block = index / span;
    let place = index % span;
    assert(index + half == block * span + (place + half)) by (nonlinear_arith)
        requires
            index == span * block + place,
    ;
    lemma_fundamental_div_mod_converse(index + half, span, block, place + half);
}

/// Half of a small number, rounded down.
proof fn lemma_half(value: i32)
    requires
        -0x1_0000 <= value < 0x1_0000,
    ensures
        value - 1 <= 2 * (value >> 1) <= value,
        (value >> 1) as i16 == value >> 1,
        value.wrapping_shr(1) == value >> 1,
{
    assert(value - 1 <= 2 * (value >> 1) && 2 * (value >> 1) <= value && (value >> 1) as i16
        == value >> 1) by (bit_vector)
        requires
            -0x1_0000 <= value < 0x1_0000,
    ;
}

/// The low bits of a shifted number do not depend on its sign bit.
proof fn lemma_low_bits(value: i32)
    requires
        -0x2000_0000 <= value <= 0x2000_4000,
    ensures
        (((value as u32) >> 15) as i32) as i16 == value >> 15,
        forall|base: i32|
            -0x3000 <= base <= 0x3000 ==> (#[trigger] base.wrapping_add(
                ((value as u32) >> 15) as i32,
            )) as i16 == base + (value >> 15),
{
    lemma_down_by_fifteen(value);
    assert((((value as u32) >> 15) as i32) as i16 == value >> 15) by (bit_vector)
        requires
            -0x2000_0000 <= value <= 0x2000_4000,
    ;
    let shifted = ((value as u32) >> 15) as i32;
    assert(0 <= shifted && shifted < 0x2_0000 && (shifted == value >> 15 || shifted == (value >> 15)
        + 0x2_0000)) by (bit_vector)
        requires
            shifted == ((value as u32) >> 15) as i32,
    ;
    assert forall|base: i32| -0x3000 <= base <= 0x3000 implies (#[trigger] base.wrapping_add(
        shifted,
    )) as i16 == base + (value >> 15) by {
        let sum = base.wrapping_add(shifted);
        let wanted = (base + (value >> 15)) as i32;
        assert(sum == wanted || sum == wanted + 0x2_0000);
        assert(sum as i16 == wanted) by (bit_vector)
            requires
                sum == wanted || sum == wanted + 0x2_0000,
                -0x8000 <= wanted < 0x8000,
        ;
    }
}

/// The halves that a separation works with, up to rounding.
proof fn lemma_halves(parts: Mirrored)
    requires
        -0x1000 <= parts.line_real <= 0x1000,
        -0x1000 <= parts.line_imaginary <= 0x1000,
        -0x1000 <= parts.mirror_real <= 0x1000,
        -0x1000 <= parts.mirror_imaginary <= 0x1000,
    ensures
        parts.line_real + parts.mirror_real <= 2 * parts.average_real() <= parts.line_real
            + parts.mirror_real + 1,
        parts.line_imaginary + parts.mirror_imaginary <= 2 * parts.average_imaginary()
            <= parts.line_imaginary + parts.mirror_imaginary + 1,
        parts.mirror_real - parts.line_real <= 2 * parts.difference_real() <= parts.mirror_real
            - parts.line_real + 1,
        parts.line_imaginary - parts.mirror_imaginary <= 2 * parts.difference_imaginary()
            <= parts.line_imaginary - parts.mirror_imaginary + 1,
{
    lemma_half((parts.line_real + parts.mirror_real + 1) as i32);
    lemma_half((parts.line_imaginary + parts.mirror_imaginary + 1) as i32);
    lemma_half((parts.mirror_real - parts.line_real + 1) as i32);
    lemma_half((parts.line_imaginary - parts.mirror_imaginary + 1) as i32);
}

/// What a separation adds to the halves: rotated parts, up to rounding.
proof fn lemma_rotations(parts: Mirrored, average: int, difference: int)
    requires
        -0x1001 <= average <= 0x1001,
        -0x1001 <= difference <= 0x1001,
        average == parts.average_imaginary(),
        difference == parts.difference_real(),
        -0x1001 <= parts.average_real() <= 0x1001,
        -0x1001 <= parts.difference_imaginary() <= 0x1001,
        -0x8000 <= parts.cosine <= 0x7fff,
        -0x8000 <= parts.sine <= 0x7fff,
    ensures
        ({
            let cosine = parts.cosine as int;
            let sine = parts.sine as int;
            let up = parts.real_line() - parts.average_real();
            let down = parts.real_mirror() - parts.average_real();
            let turned = parts.imaginary_line() - parts.difference_imaginary();
            &&& -0x4000 <= average * cosine - difference * sine - 0x8000 * up < 0x4000
            &&& -0x4000 <= difference * sine - average * cosine - 0x8000 * down < 0x4000
            &&& -0x4000 <= average * sine + difference * cosine - 0x8000 * turned < 0x4000
            &&& parts.imaginary_mirror() == turned - parts.difference_imaginary()
        }),
{
    let cosine = parts.cosine as int;
    let sine = parts.sine as int;
    lemma_product_bound(average, cosine, 0x1001);
    lemma_product_bound(average, sine, 0x1001);
    lemma_product_bound(difference, cosine, 0x1001);
    lemma_product_bound(difference, sine, 0x1001);
    let positive = parts.positive_rotation();
    let negative = parts.negative_rotation();
    assert(positive == 0x4000 - difference * sine + average * cosine);
    assert(negative == 0x4000 + difference * sine - average * cosine);
    lemma_down_by_fifteen(positive);
    lemma_down_by_fifteen(negative);
    lemma_low_bits(positive);
    lemma_low_bits(negative);
    let turned = (average * sine + difference * cosine + 0x4000) as i32;
    lemma_down_by_fifteen(turned);
    assert((turned >> 15) as i16 == turned >> 15) by (bit_vector)
        requires
            -0x2000_0000 <= turned <= 0x2000_4000,
    ;
    assert(parts.imaginary_rotation() == turned >> 15);
    assert(parts.real_line() == parts.average_real() + (positive >> 15));
    assert(parts.real_mirror() == parts.average_real() + (negative >> 15));
}

/// A line and its mirror image are separated so that the spectrum is that of real samples, as far as
/// the lines do not reach the limits of the arithmetic: the two real parts add up to those before, the
/// imaginary parts differ by the difference of those before, and what else they differ by, and add up
/// to, is the rest of both lines rotated, each up to rounding.
pub proof fn law_separation_is_symmetric(parts: Mirrored)
    requires
        -0x1000 <= parts.line_real <= 0x1000,
        -0x1000 <= parts.line_imaginary <= 0x1000,
        -0x1000 <= parts.mirror_real <= 0x1000,
        -0x1000 <= parts.mirror_imaginary <= 0x1000,
        -0x8000 <= parts.cosine <= 0x7fff,
        -0x8000 <= parts.sine <= 0x7fff,
    ensures
        ({
            let both = parts.line_real + parts.mirror_real;
            let imaginary = parts.line_imaginary - parts.mirror_imaginary;
            let sum = parts.line_imaginary + parts.mirror_imaginary;
            let rise = parts.mirror_real - parts.line_real;
            let real_turn = sum * parts.cosine - rise * parts.sine;
            let imaginary_turn = sum * parts.sine + rise * parts.cosine;
            let real_gap = parts.real_line() - parts.real_mirror();
            let imaginary_sum = parts.imaginary_line() + parts.imaginary_mirror();
            &&& both <= parts.real_line() + parts.real_mirror() <= both + 2
            &&& imaginary <= parts.imaginary_line() - parts.imaginary_mirror() <= imaginary + 1
            &&& -0x2_0000 <= real_turn - 0x8000 * real_gap <= 0x2_0000
            &&& -0x2_0000 <= imaginary_turn - 0x8000 * imaginary_sum <= 0x2_0000
        }),
{
    let sum = parts.line_imaginary + parts.mirror_imaginary;
    let rise = parts.mirror_real - parts.line_real;
    lemma_halves(parts);
    let average = parts.average_imaginary() as int;
    let difference = parts.difference_real() as int;
    lemma_rotations(parts, average, difference);
    let cosine = parts.cosine as int;
    let sine = parts.sine as int;
    lemma_product_bound(2 * average - sum, cosine, 1);
    lemma_product_bound(2 * average - sum, sine, 1);
    lemma_product_bound(2 * difference - rise, cosine, 1);
    lemma_product_bound(2 * difference - rise, sine, 1);
    assert((2 * average - sum) * cosine == 2 * (average * cosine) - sum * cosine)
        by (nonlinear_arith);
    assert((2 * average - sum) * sine == 2 * (average * sine) - sum * sine) by (nonlinear_arith);
    assert((2 * difference - rise) * cosine == 2 * (difference * cosine) - rise * cosine)
        by (nonlinear_arith);
    assert((2 * difference - rise) * sine == 2 * (difference * sine) - rise * sine)
        by (nonlinear_arith);
}

/// A spectral line is shared out without loss: what its filter does not get, the one below gets, and
/// no other filter changes.
pub proof fn law_lines_are_shared_without_loss(
    data: Seq<u8>,
    lines: Spectrum,
    feature_size: int,
    filters: Seq<i32>,
    index: int,
)
    requires
        filters.len() == feature_size,
        0 < filter_index(data, feature_size, index) < feature_size,
        ({
            let filter = filter_index(data, feature_size, index);
            let strength = power(lines, index + 1);
            let lower = share(strength, filter_weight(data, feature_size, index));
            &&& i32::MIN <= filters[filter] + strength - lower <= i32::MAX
            &&& i32::MIN <= filters[filter - 1] + lower <= i32::MAX
        }),
    ensures
        ({
            let filter = filter_index(data, feature_size, index);
            let after = filtered_line(data, lines, feature_size, filters, index);
            &&& after.len() == feature_size
            &&& after[filter] + after[filter - 1] == filters[filter] + filters[filter - 1] + power(
                lines,
                index + 1,
            )
            &&& forall|other: int|
                0 <= other < feature_size && other != filter && other != filter - 1 ==> (
                #[trigger] after[other]) == filters[other]
        }),
{
}

}
