//! Memory attention: where each beam looks for the next token in the encoder's frames.
//!
//! Numbers are binary32 numbers, given by their bits, and their arithmetic is handed in as
//! functions. What the frames of a chunk weigh is stated in [`crate::frame_weights`]; where a beam
//! starts, goes on and stops is decided here.

use vstd::arithmetic::div_mod::*;
use vstd::prelude::*;
use vstd::slice::slice_subrange;

use crate::frame_weights;
use crate::frame_weights::{FrameArithmetic, FrameRows};
use crate::kernels::{is_product, offset};
use crate::topk;
use crate::topk::number_place;

verus! {

/// The binary32 number one.
pub const ONE: u32 = 0x3f80_0000;

/// The sizes and thresholds of memory attention. Thresholds are binary32 numbers, held by their
/// bits.
#[derive(Clone, Copy, Debug)]
pub struct MemoryAttentionConfig {
    pub max_beams: usize,
    pub sequence_limit: usize,
    pub hidden_size: usize,
    pub choose_threshold: u32,
    pub stop_threshold: u32,
    pub beta_threshold: u32,
    pub end_margin: usize,
}

impl Default for MemoryAttentionConfig {
    fn default() -> (config: Self)
        ensures
            config == (MemoryAttentionConfig {
                max_beams: 8,
                sequence_limit: 2_048,
                hidden_size: 512,
                choose_threshold: 0x3dcc_cccd,
                stop_threshold: 0x3f66_6666,
                beta_threshold: 0x3d4c_cccd,
                end_margin: 16,
            }),
    {
        MemoryAttentionConfig {
            max_beams: 8,
            sequence_limit: 2_048,
            hidden_size: 512,
            choose_threshold: 0x3dcc_cccd,
            stop_threshold: 0x3f66_6666,
            beta_threshold: 0x3d4c_cccd,
            end_margin: 16,
        }
    }
}

/// Why attention cannot be set up or cannot go on.
#[derive(Clone, Copy, Debug, PartialEq, Eq, Structural)]
pub enum AttentionError {
    /// A dimension is zero.
    Dimensions,
    /// The weights do not have the hidden size.
    Weights,
    /// A parent lies outside of the beam state.
    Parent,
    /// A range of the state is not valid.
    Range,
    /// The number of frames is too large.
    FrameCount,
    /// The encoder bank is empty.
    EmptyBank,
    /// The encoder bank exceeds the sequence limit.
    SequenceLimit,
    /// The conformer output does not match the encoder bank.
    ConformerOutput,
    /// The attention hidden values do not match the encoder bank.
    AttentionHidden,
    /// The chunk hidden values do not match the encoder bank.
    ChunkHidden,
    /// The memory hidden values do not match the encoder bank.
    MemoryHidden,
    /// The conformer mask does not match the encoder bank.
    ConformerMask,
    /// The number of active beams is not valid.
    ActiveBeams,
    /// The passthrough values do not match the active beams.
    Passthrough,
    /// The query does not match the active beams.
    Query,
    /// The stop query does not match the active beams.
    StopQuery,
    /// The frame width has changed.
    FrameWidth,
}

/// Where a beam stands: where it started, ended and goes on, as chunk and frame, how wide chunks
/// are, and in which phase it is (three: to start, one: stopped, minus one: waiting).
#[derive(Clone, Copy, Debug)]
pub struct BeamStatus {
    pub start_chunk: i32,
    pub start_frame: i32,
    pub end_chunk: i32,
    pub end_frame: i32,
    pub scan_chunk: i32,
    pub scan_frame: i32,
    pub previous_end_chunk: i32,
    pub previous_end_frame: i32,
    pub frame_width: i32,
    pub phase: i32,
}

/// What a beam remembers of the frames.
#[derive(Debug)]
pub struct BeamMemory {
    pub alpha_current: Vec<u32>,
    pub alpha_working: Vec<u32>,
    pub beta: Vec<u32>,
    pub choose_prefix: Vec<u32>,
    pub stop_product: u32,
}

/// The content of a beam's memory.
#[verifier::ext_equal]
pub struct Memory {
    pub current: Seq<u32>,
    pub working: Seq<u32>,
    pub beta: Seq<u32>,
    pub prefix: Seq<u32>,
    pub product: u32,
}

impl View for BeamMemory {
    type V = Memory;

    open spec fn view(&self) -> Memory {
        Memory {
            current: self.alpha_current@,
            working: self.alpha_working@,
            beta: self.beta@,
            prefix: self.choose_prefix@,
            product: self.stop_product,
        }
    }
}

/// The contents of beams' memories.
pub open spec fn memory_views(memories: Seq<BeamMemory>) -> Seq<Memory> {
    Seq::new(memories.len(), |index: int| memories[index]@)
}

/// What the frames of a chunk weigh: the new weight of each frame, its share of the context, and
/// what is carried on to the next chunk.
#[derive(Debug)]
pub struct ChunkValues {
    pub alpha: Vec<u32>,
    pub beta: Vec<u32>,
    pub choose_prefix: Vec<u32>,
    pub stop_product: u32,
}

/// The content of a chunk's values.
#[verifier::ext_equal]
pub struct Chunk {
    pub alpha: Seq<u32>,
    pub beta: Seq<u32>,
    pub prefix: Seq<u32>,
    pub product: u32,
}

impl View for ChunkValues {
    type V = Chunk;

    open spec fn view(&self) -> Chunk {
        Chunk {
            alpha: self.alpha@,
            beta: self.beta@,
            prefix: self.choose_prefix@,
            product: self.stop_product,
        }
    }
}

/// The bits are those of a number.
pub open spec fn is_number(bits: u32) -> bool {
    bits % 0x8000_0000 <= 0x7f80_0000
}

/// One number is less than another.
pub open spec fn is_less(left: u32, right: u32) -> bool {
    is_number(left) && is_number(right) && topk::place(left) < topk::place(right)
}

/// Whether one number is less than another.
pub fn less(left: u32, right: u32) -> (result: bool)
    ensures
        result == is_less(left, right),
{
    left % 0x8000_0000 <= 0x7f80_0000 && right % 0x8000_0000 <= 0x7f80_0000 && number_place(left)
        < number_place(right)
}

/// The position of a frame of a chunk.
pub open spec fn position(chunk: int, frame: int, width: int) -> int {
    chunk * width + frame
}

/// The place of a frame lies within the sequence. Before chunks have a width all places are zero.
pub open spec fn place_ok(chunk: i32, frame: i32, width: int, limit: int) -> bool {
    if width == 0 {
        chunk == 0 && frame == 0
    } else {
        0 <= chunk && 0 <= frame < width && position(chunk as int, frame as int, width) <= limit
    }
}

/// A beam's places lie within the sequence.
pub open spec fn status_ok(status: BeamStatus, width: int, limit: int) -> bool {
    &&& place_ok(status.start_chunk, status.start_frame, width, limit)
    &&& place_ok(status.end_chunk, status.end_frame, width, limit)
    &&& place_ok(status.scan_chunk, status.scan_frame, width, limit)
    &&& place_ok(status.previous_end_chunk, status.previous_end_frame, width, limit)
    &&& status.frame_width == 0 || status.frame_width == width
    &&& status.phase == 3 || status.phase == 1 || status.phase == -1
}

/// A beam remembers as many frames as there may be, and what it has chosen in each channel.
pub open spec fn memory_ok(memory: Memory, config: MemoryAttentionConfig) -> bool {
    &&& memory.current.len() == config.sequence_limit
    &&& memory.working.len() == config.sequence_limit
    &&& memory.beta.len() == config.sequence_limit
    &&& memory.prefix.len() == config.hidden_size
}

/// The frames to scan.
#[derive(Clone, Copy, Debug)]
pub struct FrameBank {
    pub chunk_count: usize,
    pub frame_width: usize,
    pub final_flush: bool,
}

impl FrameBank {
    /// The number of frames.
    pub open spec fn frames(self) -> int {
        self.chunk_count * self.frame_width
    }

    /// There are frames, and no more than the limit.
    pub open spec fn fits(self, limit: int) -> bool {
        self.chunk_count > 0 && self.frame_width > 0 && self.frames() <= limit
    }
}

/// The phase of a beam that has scanned all frames: stopped if no more will come.
pub open spec fn phase_at_end(bank: FrameBank) -> i32 {
    if bank.final_flush {
        1
    } else {
        -1i32
    }
}

/// The first position from `from` on whose weight is not under the threshold.
pub open spec fn first_chosen(working: Seq<u32>, from: int, count: int, threshold: u32) -> int
    decreases count - from,
{
    if from < count && is_less(working[from], threshold) {
        first_chosen(working, from + 1, count, threshold)
    } else {
        from
    }
}

/// The first place from `from` on whose weight is over the threshold.
pub open spec fn first_over(alpha: Seq<u32>, from: int, threshold: u32) -> int
    decreases alpha.len() - from,
{
    if from < alpha.len() && !is_less(threshold, alpha[from]) {
        first_over(alpha, from + 1, threshold)
    } else {
        from
    }
}

/// `values` with `part` written from position `start` on.
pub open spec fn written(values: Seq<u32>, start: int, part: Seq<u32>) -> Seq<u32> {
    Seq::new(
        values.len(),
        |index: int|
            if start <= index < start + part.len() {
                part[index - start]
            } else {
                values[index]
            },
    )
}

/// `count` zeros.
pub open spec fn zeros(count: int) -> Seq<u32> {
    Seq::new(count as nat, |index: int| 0u32)
}

/// Which values the frames from one position to another may get: by beam, positions and memory.
pub type Weighing = spec_fn(int, int, int, Memory, Chunk) -> bool;

/// Which context the frames from one position to another may give: by beam, positions and memory.
pub type Gathering = spec_fn(int, int, int, Memory, Context) -> bool;

/// Evaluating the frames from `begin` to `end` for a beam may give `values`.
pub open spec fn evaluates(
    evaluate: Weighing,
    beam: int,
    begin: int,
    end: int,
    memory: Memory,
    values: Chunk,
) -> bool {
    evaluate(beam, begin, end, memory, values)
}

/// A beam's status and memory.
#[verifier::ext_equal]
pub struct Beam {
    pub status: BeamStatus,
    pub memory: Memory,
}

/// The memory after the frames from `begin` on took their new weights, up to the frame at which
/// the beam stops.
pub open spec fn weighed(memory: Memory, begin: int, values: Chunk, stop: int) -> Memory {
    Memory {
        current: written(memory.current, begin, values.alpha.take(stop)),
        working: memory.working,
        beta: written(memory.beta, begin, values.beta.take(stop)),
        prefix: values.prefix,
        product: values.product,
    }
}

/// How a beam scans chunks from a given frame on.
pub open spec fn scans(
    evaluate: Weighing,
    config: MemoryAttentionConfig,
    bank: FrameBank,
    beam: int,
    before: Beam,
    chunk: int,
    frame: int,
    after: Beam,
) -> bool
    decreases bank.chunk_count - chunk,
{
    if chunk >= bank.chunk_count {
        after == (Beam {
            status: BeamStatus {
                end_chunk: bank.chunk_count as i32,
                end_frame: 0,
                scan_chunk: bank.chunk_count as i32,
                scan_frame: 0,
                phase: phase_at_end(bank),
                ..before.status
            },
            memory: before.memory,
        })
    } else {
        let width = bank.frame_width as int;
        let begin = position(chunk, frame, width);
        exists|values: Chunk|
            {
                &&& #[trigger] evaluates(
                    evaluate,
                    beam,
                    begin,
                    (chunk + 1) * width,
                    before.memory,
                    values,
                )
                &&& {
                    let stop = first_over(values.alpha, 0, config.stop_threshold);
                    let memory = weighed(before.memory, begin, values, stop);
                    if stop < values.alpha.len() {
                        let last = ((begin + stop) % width) as i32;
                        after == (Beam {
                            status: BeamStatus {
                                end_chunk: chunk as i32,
                                end_frame: last,
                                scan_chunk: chunk as i32,
                                scan_frame: last,
                                phase: 1,
                                ..before.status
                            },
                            memory,
                        })
                    } else {
                        scans(
                            evaluate,
                            config,
                            bank,
                            beam,
                            Beam { status: before.status, memory },
                            chunk + 1,
                            0,
                            after,
                        )
                    }
                }
            }
    }
}

/// A copy of the first `count` values.
pub(crate) fn copy_values(values: &Vec<u32>, count: usize) -> (result: Vec<u32>)
    requires
        count <= values@.len(),
    ensures
        result@ == values@.take(count as int),
{
    let mut result: Vec<u32> = Vec::new();
    for index in 0..count
        invariant
            count <= values@.len(),
            result@ == values@.take(index as int),
    {
        result.push(values[index]);
        assert(result@ =~= values@.take(index + 1));
    }
    result
}

/// Writes the first `count` of `part` into `values` from position `start` on.
fn write(values: &mut Vec<u32>, start: usize, part: &Vec<u32>, count: usize)
    requires
        count <= part@.len(),
        start + count <= old(values)@.len(),
    ensures
        final(values)@ == written(old(values)@, start as int, part@.take(count as int)),
{
    let total: usize = values.len();
    for index in 0..count
        invariant
            count <= part@.len(),
            start + count <= total == values@.len(),
            values@ == written(old(values)@, start as int, part@.take(index as int)),
    {
        values.set(start + index, part[index]);
        assert(values@ =~= written(old(values)@, start as int, part@.take(index + 1)));
    }
    assert(values@ =~= written(old(values)@, start as int, part@.take(count as int)));
}

/// The first place whose weight is over the threshold.
fn find_over(alpha: &Vec<u32>, threshold: u32) -> (result: usize)
    ensures
        result == first_over(alpha@, 0, threshold),
        result <= alpha@.len(),
{
    let mut place: usize = 0;
    while place < alpha.len() && !less(threshold, alpha[place])
        invariant
            place <= alpha@.len(),
            first_over(alpha@, place as int, threshold) == first_over(alpha@, 0, threshold),
        decreases alpha@.len() - place,
    {
        place = place + 1;
    }
    place
}

/// A frame of a chunk lies before the chunk's end, which lies within the bank.
proof fn lemma_chunk_inside(bank: FrameBank, chunk: int, frame: int)
    requires
        0 <= chunk < bank.chunk_count,
        0 <= frame < bank.frame_width,
    ensures
        0 <= position(chunk, frame, bank.frame_width as int) < (chunk + 1) * bank.frame_width,
        (chunk + 1) * bank.frame_width <= bank.frames(),
        (chunk + 1) * bank.frame_width == chunk * bank.frame_width + bank.frame_width,
        chunk * bank.frame_width >= 0,
{
    let width = bank.frame_width as int;
    assert((chunk + 1) * width == chunk * width + width) by (nonlinear_arith);
    assert((chunk + 1) * width <= bank.chunk_count * width) by (nonlinear_arith)
        requires
            chunk + 1 <= bank.chunk_count,
            width >= 0,
    ;
    assert(chunk * width >= 0) by (nonlinear_arith)
        requires
            chunk >= 0,
            width >= 0,
    ;
}

/// The frame of a position inside a chunk.
proof fn lemma_frame_of(width: int, chunk: int, frame: int)
    requires
        0 <= frame < width,
    ensures
        position(chunk, frame, width) % width == frame,
        position(chunk, frame, width) / width == chunk,
{
    lemma_fundamental_div_mod_converse(position(chunk, frame, width), width, chunk, frame);
}

/// The chunks of a bank are no more than its frames.
proof fn lemma_chunks_fit(bank: FrameBank, limit: int)
    requires
        bank.fits(limit),
    ensures
        bank.chunk_count <= bank.frames() <= limit,
        bank.frame_width <= bank.frames(),
        place_ok(bank.chunk_count as i32, 0, bank.frame_width as int, limit) || limit > i32::MAX,
{
    let count = bank.chunk_count as int;
    let width = bank.frame_width as int;
    assert(count <= count * width && width <= count * width) by (nonlinear_arith)
        requires
            count >= 1,
            width >= 1,
    ;
}

impl<
    B: Fn(u32, u32) -> u32,
    S: Fn(u32, u32, u32) -> u32,
    F: Fn(u32, u32, u32) -> u32,
    P: Fn(u32, u32) -> u32,
    M: Fn(u32, u32) -> u32,
    W: Fn(u32, u32) -> u32,
    D: Fn(u32, u32) -> u32,
    H: Fn(u32, u32) -> u32,
    G: Fn(u32, u32) -> u32,
> FrameArithmetic<B, S, F, P, M, W, D, H, G> {
    /// Scans chunks from where the beam stands; the status after it.
    fn scan_chunks(
        &self,
        config: MemoryAttentionConfig,
        input: &MemoryAttentionInput,
        weight_at_v: &[u32],
        weight_at_v_stop: &[u32],
        beam: usize,
        status: BeamStatus,
        memory: &mut BeamMemory,
    ) -> (result: BeamStatus)
        requires
            frame_weights::computes(*self),
            input_error(config, *input) is None,
            config.sequence_limit <= i32::MAX,
            beam < input.lengths@.len(),
            weight_at_v@.len() == config.hidden_size,
            weight_at_v_stop@.len() == config.hidden_size,
            status_ok(status, input.bank.frame_width as int, config.sequence_limit as int),
            memory_ok(old(memory)@, config),
        ensures
            scans(
                weighing(*self, *input, weight_at_v@, weight_at_v_stop@),
                config,
                input.bank,
                beam as int,
                Beam { status, memory: old(memory)@ },
                status.scan_chunk as int,
                status.scan_frame as int,
                Beam { status: result, memory: final(memory)@ },
            ),
            status_ok(result, input.bank.frame_width as int, config.sequence_limit as int),
            memory_ok(final(memory)@, config),
            result.frame_width == status.frame_width,
            result.phase == 1 || result.phase == phase_at_end(input.bank),
            attended(result, input.bank.frame_width as int).1 <= input.bank.frames(),
    {
        let bank: FrameBank = input.bank;
        let ghost evaluate = weighing(*self, *input, weight_at_v@, weight_at_v_stop@);
        let rows: FrameRows = rows_of_beam(input, weight_at_v, weight_at_v_stop, beam);
        let ghost start = Beam { status, memory: memory@ };
        let ghost first_chunk = status.scan_chunk as int;
        let ghost first_frame = status.scan_frame as int;
        let width: usize = bank.frame_width;
        let mut chunk: usize = status.scan_chunk as usize;
        let mut frame: usize = status.scan_frame as usize;
        while chunk < bank.chunk_count
            invariant
                frame_weights::computes(*self),
                input_error(config, *input) is None,
                bank == input.bank,
                bank.fits(config.sequence_limit as int),
                beam < input.lengths@.len(),
                weight_at_v@.len() == config.hidden_size,
                rows@ == beam_rows(*input, weight_at_v@, weight_at_v_stop@, beam as int),
                rows@.wf(),
                rows@.conformer_mask.len() == bank.frames(),
                evaluate == weighing(*self, *input, weight_at_v@, weight_at_v_stop@),
                config.sequence_limit <= i32::MAX,
                width == bank.frame_width,
                frame < width,
                start == (Beam { status, memory: old(memory)@ }),
                first_chunk == status.scan_chunk,
                first_frame == status.scan_frame,
                status_ok(status, width as int, config.sequence_limit as int),
                memory_ok(memory@, config),
                forall|after: Beam|
                    #[trigger] scans(
                        evaluate,
                        config,
                        bank,
                        beam as int,
                        Beam { status, memory: memory@ },
                        chunk as int,
                        frame as int,
                        after,
                    ) ==> scans(
                        evaluate,
                        config,
                        bank,
                        beam as int,
                        start,
                        first_chunk,
                        first_frame,
                        after,
                    ),
            decreases bank.chunk_count - chunk,
        {
            proof {
                lemma_chunk_inside(bank, chunk as int, frame as int);
            }
            let ghost before = memory@;
            let begin: usize = chunk * width + frame;
            let end: usize = chunk * width + width;
            let values: ChunkValues = self.weigh_frames(&rows, &*memory, begin, end);
            assert(evaluates(
                evaluate,
                beam as int,
                position(chunk as int, frame as int, width as int),
                (chunk + 1) * width,
                before,
                values@,
            ));
            let stop: usize = find_over(&values.alpha, config.stop_threshold);
            write(&mut memory.alpha_current, begin, &values.alpha, stop);
            write(&mut memory.beta, begin, &values.beta, stop);
            let stopped: bool = stop < values.alpha.len();
            let ghost chunk_values = values@;
            memory.choose_prefix = values.choose_prefix;
            memory.stop_product = values.stop_product;
            assert(memory@ =~= weighed(before, begin as int, chunk_values, stop as int));
            if stopped {
                proof {
                    lemma_chunks_fit(bank, config.sequence_limit as int);
                    lemma_frame_of(width as int, chunk as int, frame + stop as int);
                }
                let last: usize = (begin + stop) % width;
                let result = BeamStatus {
                    end_chunk: chunk as i32,
                    end_frame: last as i32,
                    scan_chunk: chunk as i32,
                    scan_frame: last as i32,
                    phase: 1,
                    ..status
                };
                assert(scans(
                    evaluate,
                    config,
                    bank,
                    beam as int,
                    Beam { status, memory: before },
                    chunk as int,
                    frame as int,
                    Beam { status: result, memory: memory@ },
                ));
                return result;
            }
            proof {
                assert forall|after: Beam|
                    #[trigger] scans(
                        evaluate,
                        config,
                        bank,
                        beam as int,
                        Beam { status, memory: memory@ },
                        chunk + 1,
                        0,
                        after,
                    ) implies scans(
                    evaluate,
                    config,
                    bank,
                    beam as int,
                    start,
                    first_chunk,
                    first_frame,
                    after,
                ) by {
                    assert(scans(
                        evaluate,
                        config,
                        bank,
                        beam as int,
                        Beam { status, memory: before },
                        chunk as int,
                        frame as int,
                        after,
                    ));
                }
            }
            chunk = chunk + 1;
            frame = 0;
        }
        proof {
            lemma_chunks_fit(bank, config.sequence_limit as int);
        }
        let phase: i32 = if bank.final_flush {
            1
        } else {
            -1
        };
        let result = BeamStatus {
            end_chunk: bank.chunk_count as i32,
            end_frame: 0,
            scan_chunk: bank.chunk_count as i32,
            scan_frame: 0,
            phase,
            ..status
        };
        assert(scans(
            evaluate,
            config,
            bank,
            beam as int,
            Beam { status, memory: memory@ },
            chunk as int,
            frame as int,
            Beam { status: result, memory: memory@ },
        ));
        result
    }
}

/// The memory of a beam that first learns how wide chunks are: its working weights become current.
pub open spec fn entered(before: Beam) -> Memory {
    if before.status.frame_width < 1 {
        Memory { current: before.memory.working, ..before.memory }
    } else {
        before.memory
    }
}

/// Up to where a beam that starts takes over its working weights.
pub open spec fn known_end(status: BeamStatus, width: int) -> int {
    let end = position(status.end_chunk as int, status.end_frame as int, width);
    let previous = position(
        status.previous_end_chunk as int,
        status.previous_end_frame as int,
        width,
    );
    if end < previous {
        previous
    } else {
        end
    }
}

/// The beam that starts to scan at position `start`.
pub open spec fn restarted(
    status: BeamStatus,
    memory: Memory,
    start: int,
    width: int,
    hidden_size: int,
) -> Beam {
    Beam {
        status: BeamStatus {
            start_chunk: (start / width) as i32,
            start_frame: (start % width) as i32,
            scan_chunk: (start / width) as i32,
            scan_frame: (start % width) as i32,
            ..status
        },
        memory: Memory {
            current: written(
                memory.current,
                start,
                memory.working.subrange(start, known_end(status, width)),
            ),
            working: memory.working,
            beta: memory.beta,
            prefix: zeros(hidden_size),
            product: ONE,
        },
    }
}

/// How a beam goes on over a bank of frames: whether it is ready, or the error.
pub open spec fn advances(
    evaluate: Weighing,
    config: MemoryAttentionConfig,
    bank: FrameBank,
    beam: int,
    before: Beam,
    after: Beam,
    result: Result<bool, AttentionError>,
) -> bool {
    let width = bank.frame_width as int;
    let memory = entered(before);
    let status = BeamStatus { frame_width: width as i32, ..before.status };
    if before.status.frame_width >= 1 && before.status.frame_width != width {
        after == before && result == Err::<bool, AttentionError>(AttentionError::FrameWidth)
    } else if status.phase == 1 {
        after == (Beam { status, memory }) && result == Ok::<bool, AttentionError>(true)
    } else if status.phase == 3 {
        let start = first_chosen(
            memory.working,
            position(status.start_chunk as int, status.start_frame as int, width),
            bank.frames(),
            config.choose_threshold,
        );
        if start == bank.frames() {
            after == (Beam {
                status: BeamStatus {
                    start_chunk: bank.chunk_count as i32,
                    start_frame: 0,
                    end_chunk: bank.chunk_count as i32,
                    end_frame: 0,
                    scan_chunk: bank.chunk_count as i32,
                    scan_frame: 0,
                    phase: phase_at_end(bank),
                    ..status
                },
                memory,
            }) && result == Ok::<bool, AttentionError>(bank.final_flush)
        } else if known_end(status, width) < start || known_end(status, width)
            > config.sequence_limit {
            after == (Beam { status: before.status, memory }) && result == Err::<
                bool,
                AttentionError,
            >(AttentionError::Range)
        } else {
            let begun = restarted(status, memory, start, width, config.hidden_size as int);
            scans(
                evaluate,
                config,
                bank,
                beam,
                begun,
                begun.status.scan_chunk as int,
                begun.status.scan_frame as int,
                after,
            ) && result == Ok::<bool, AttentionError>(after.status.phase == 1)
        }
    } else {
        scans(
            evaluate,
            config,
            bank,
            beam,
            Beam { status, memory },
            status.scan_chunk as int,
            status.scan_frame as int,
            after,
        ) && result == Ok::<bool, AttentionError>(after.status.phase == 1)
    }
}

/// The first position from `from` on whose weight is not under the threshold.
fn find_chosen(working: &Vec<u32>, from: usize, count: usize, threshold: u32) -> (result: usize)
    requires
        count <= working@.len(),
    ensures
        result == first_chosen(working@, from as int, count as int, threshold),
        from <= result,
        result <= count || result == from,
{
    let mut place: usize = from;
    while place < count && less(working[place], threshold)
        invariant
            count <= working@.len(),
            from <= place,
            place <= count || place == from,
            first_chosen(working@, place as int, count as int, threshold) == first_chosen(
                working@,
                from as int,
                count as int,
                threshold,
            ),
        decreases count - place,
    {
        place = place + 1;
    }
    place
}

/// A place of a beam has its position within the sequence, also while its own width is not known.
proof fn lemma_position_inside(chunk: i32, frame: i32, width: int, limit: int, own_width: int)
    requires
        place_ok(chunk, frame, width, limit),
        own_width == 0 || own_width == width,
        width >= 0,
        limit >= 0,
    ensures
        0 <= chunk,
        0 <= frame,
        0 <= position(chunk as int, frame as int, own_width) <= limit,
{
    let chunks = chunk as int;
    assert(chunks * width >= 0 && chunks * 0 == 0) by (nonlinear_arith)
        requires
            chunks >= 0,
            width >= 0,
    ;
    assert(chunks == 0 ==> chunks * width == 0) by (nonlinear_arith);
}

/// The position of a place of a beam.
fn position_of(chunk: i32, frame: i32, width: usize, limit: usize) -> (result: usize)
    requires
        0 <= chunk,
        0 <= frame,
        position(chunk as int, frame as int, width as int) <= limit,
    ensures
        result == position(chunk as int, frame as int, width as int),
{
    proof {
        let chunks = chunk as int;
        let wide = width as int;
        assert(chunks * wide >= 0) by (nonlinear_arith)
            requires
                chunks >= 0,
                wide >= 0,
        ;
    }
    (chunk as usize) * width + frame as usize
}

/// A copy of the values from `start` to `end`.
fn copy_range(values: &Vec<u32>, start: usize, end: usize) -> (result: Vec<u32>)
    requires
        start <= end <= values@.len(),
    ensures
        result@ == values@.subrange(start as int, end as int),
{
    let mut result: Vec<u32> = Vec::new();
    for index in start..end
        invariant
            start <= end <= values@.len(),
            result@ == values@.subrange(start as int, index as int),
    {
        result.push(values[index]);
        assert(result@ =~= values@.subrange(start as int, index + 1));
    }
    result
}

/// `count` zeros.
fn zero_values(count: usize) -> (result: Vec<u32>)
    ensures
        result@ == zeros(count as int),
{
    let mut result: Vec<u32> = Vec::new();
    for index in 0..count
        invariant
            result@ == zeros(index as int),
    {
        result.push(0);
        assert(result@ =~= zeros(index + 1));
    }
    result
}

/// The chunk and frame of a position within the sequence.
proof fn lemma_place_of(start: int, width: int, limit: int)
    requires
        0 <= start <= limit,
        0 < width,
        limit <= i32::MAX,
    ensures
        0 <= start / width <= limit,
        0 <= start % width < width,
        start % width <= limit,
        position(start / width, start % width, width) == start,
        width <= i32::MAX ==> place_ok(
            (start / width) as i32,
            (start % width) as i32,
            width,
            limit,
        ),
{
    lemma_fundamental_div_mod(start, width);
    lemma_mod_bound(start, width);
    lemma_div_pos_is_pos(start, width);
    let quotient = start / width;
    let remainder = start % width;
    assert(quotient * width == width * quotient) by (nonlinear_arith);
    assert(quotient <= width * quotient) by (nonlinear_arith)
        requires
            quotient >= 0,
            width >= 1,
    ;
}

impl<
    B: Fn(u32, u32) -> u32,
    S: Fn(u32, u32, u32) -> u32,
    F: Fn(u32, u32, u32) -> u32,
    P: Fn(u32, u32) -> u32,
    M: Fn(u32, u32) -> u32,
    W: Fn(u32, u32) -> u32,
    D: Fn(u32, u32) -> u32,
    H: Fn(u32, u32) -> u32,
    G: Fn(u32, u32) -> u32,
> FrameArithmetic<B, S, F, P, M, W, D, H, G> {
    /// Advances a beam over a bank of frames.
    fn advance_beam(
        &self,
        config: MemoryAttentionConfig,
        input: &MemoryAttentionInput,
        weight_at_v: &[u32],
        weight_at_v_stop: &[u32],
        beam: usize,
        status: BeamStatus,
        memory: &mut BeamMemory,
    ) -> (result: (BeamStatus, Result<bool, AttentionError>))
        requires
            frame_weights::computes(*self),
            input_error(config, *input) is None,
            config.sequence_limit <= i32::MAX,
            beam < input.lengths@.len(),
            weight_at_v@.len() == config.hidden_size,
            weight_at_v_stop@.len() == config.hidden_size,
            status_ok(status, input.bank.frame_width as int, config.sequence_limit as int)
                || (status.frame_width >= 1 && status.frame_width != input.bank.frame_width),
            memory_ok(old(memory)@, config),
            stop_inside(status, input.bank),
        ensures
            advances(
                weighing(*self, *input, weight_at_v@, weight_at_v_stop@),
                config,
                input.bank,
                beam as int,
                Beam { status, memory: old(memory)@ },
                Beam { status: result.0, memory: final(memory)@ },
                result.1,
            ),
            result.1 is Ok ==> status_ok(
                result.0,
                input.bank.frame_width as int,
                config.sequence_limit as int,
            ) && result.0.frame_width == input.bank.frame_width && attended(
                result.0,
                input.bank.frame_width as int,
            ).1 <= input.bank.frames(),
            result.1 is Err ==> result.0 == status,
            memory_ok(final(memory)@, config),
    {
        let bank: FrameBank = input.bank;
        let width: usize = bank.frame_width;
        let limit: usize = config.sequence_limit;
        let ghost before = Beam { status, memory: memory@ };
        proof {
            lemma_chunks_fit(bank, limit as int);
        }
        if status.frame_width >= 1 && status.frame_width != width as i32 {
            return (status, Err(AttentionError::FrameWidth));
        }
        if status.frame_width < 1 {
            memory.alpha_current = copy_values(&memory.alpha_working, limit);
        }
        assert(memory@ =~= entered(before));
        let known = BeamStatus { frame_width: width as i32, ..status };
        if known.phase == 1 {
            return (known, Ok(true));
        }
        if known.phase == 3 {
            let frames: usize = bank.chunk_count * width;
            proof {
                let wide = width as int;
                let most = limit as int;
                lemma_position_inside(known.start_chunk, known.start_frame, wide, most, wide);
                lemma_position_inside(known.end_chunk, known.end_frame, wide, most, wide);
                lemma_position_inside(
                    known.previous_end_chunk,
                    known.previous_end_frame,
                    wide,
                    most,
                    wide,
                );
            }
            let from: usize = position_of(known.start_chunk, known.start_frame, width, limit);
            let start: usize = find_chosen(
                &memory.alpha_working,
                from,
                frames,
                config.choose_threshold,
            );
            if start == frames {
                let phase: i32 = if bank.final_flush {
                    1
                } else {
                    -1
                };
                let count: i32 = bank.chunk_count as i32;
                let result = BeamStatus {
                    start_chunk: count,
                    start_frame: 0,
                    end_chunk: count,
                    end_frame: 0,
                    scan_chunk: count,
                    scan_frame: 0,
                    phase,
                    ..known
                };
                return (result, Ok(bank.final_flush));
            }
            let end: usize = position_of(known.end_chunk, known.end_frame, width, limit);
            let previous: usize = position_of(
                known.previous_end_chunk,
                known.previous_end_frame,
                width,
                limit,
            );
            let copy_end: usize = if end < previous {
                previous
            } else {
                end
            };
            if copy_end < start || copy_end > limit {
                return (status, Err(AttentionError::Range));
            }
            let part: Vec<u32> = copy_range(&memory.alpha_working, start, copy_end);
            let ghost entry = memory@;
            write(&mut memory.alpha_current, start, &part, copy_end - start);
            assert(part@.take(copy_end - start) =~= part@);
            memory.choose_prefix = zero_values(config.hidden_size);
            memory.stop_product = ONE;
            proof {
                lemma_place_of(start as int, width as int, limit as int);
            }
            let start_chunk: i32 = (start / width) as i32;
            let start_frame: i32 = (start % width) as i32;
            let begun = BeamStatus {
                start_chunk,
                start_frame,
                scan_chunk: start_chunk,
                scan_frame: start_frame,
                ..known
            };
            assert((Beam { status: begun, memory: memory@ }) =~= restarted(
                known,
                entry,
                start as int,
                width as int,
                config.hidden_size as int,
            ));
            let result: BeamStatus = self.scan_chunks(
                config,
                input,
                weight_at_v,
                weight_at_v_stop,
                beam,
                begun,
                memory,
            );
            return (result, Ok(result.phase == 1));
        }
        let result: BeamStatus = self.scan_chunks(
            config,
            input,
            weight_at_v,
            weight_at_v_stop,
            beam,
            known,
            memory,
        );
        (result, Ok(result.phase == 1))
    }
}

/// The status of a beam that goes on from another one: it keeps where it ended as the previous
/// end.
pub open spec fn inherited(target: BeamStatus, source: BeamStatus) -> BeamStatus {
    BeamStatus {
        previous_end_chunk: target.end_chunk,
        previous_end_frame: target.end_frame,
        frame_width: target.frame_width,
        ..source
    }
}

/// The range of weights that a beam takes over from another one.
pub open spec fn inherited_range(target: BeamStatus, source: BeamStatus) -> (int, int) {
    let width = if target.frame_width < 1 {
        source.frame_width as int
    } else {
        target.frame_width as int
    };
    let start = position(source.start_chunk as int, source.start_frame as int, width);
    let end = position(source.end_chunk as int, source.end_frame as int, width);
    let previous = if target.frame_width < 1 {
        position(source.previous_end_chunk as int, source.previous_end_frame as int, width)
    } else {
        position(target.end_chunk as int, target.end_frame as int, width)
    };
    (
        start,
        if end < previous {
            previous
        } else {
            end
        },
    )
}

/// The beams' statuses and memories.
#[verifier::ext_equal]
pub struct Beams {
    pub status: Seq<BeamStatus>,
    pub memories: Seq<Memory>,
}

impl Beams {
    /// As many beams as there may be, all places within the sequence, and one width of chunks for
    /// all, that of the first beam.
    pub open spec fn wf(self, config: MemoryAttentionConfig) -> bool {
        let limit = config.sequence_limit as int;
        &&& self.status.len() == config.max_beams
        &&& self.memories.len() == config.max_beams
        &&& forall|beam: int|
            0 <= beam < self.status.len() ==> status_ok(
                #[trigger] self.status[beam],
                self.status[0].frame_width as int,
                limit,
            )
        &&& forall|beam: int|
            0 <= beam < self.memories.len() ==> memory_ok(#[trigger] self.memories[beam], config)
    }
}

/// The beams after the targets from `index` on took over from their parents, and whether all
/// ranges were valid. The first range that is not valid ends it.
pub open spec fn gathered(beams: Beams, limit: int, parents: Seq<usize>, index: int) -> (
    Beams,
    Result<(), AttentionError>,
)
    decreases parents.len() - index,
{
    if index >= parents.len() || index < 0 {
        (beams, Ok(()))
    } else {
        let parent = parents[index] as int;
        let target = beams.status[index];
        let source = beams.status[parent];
        let status = beams.status.update(index, inherited(target, source));
        let (start, end) = inherited_range(target, source);
        if end < start || end > limit {
            (Beams { status, ..beams }, Err(AttentionError::Range))
        } else {
            let memory = Memory {
                working: written(
                    beams.memories[index].working,
                    start,
                    beams.memories[parent].current.subrange(start, end),
                ),
                ..beams.memories[index]
            };
            gathered(
                Beams { status, memories: beams.memories.update(index, memory) },
                limit,
                parents,
                index + 1,
            )
        }
    }
}

/// All parents are beams.
pub open spec fn known_parents(config: MemoryAttentionConfig, parents: Seq<usize>) -> bool {
    &&& parents.len() <= config.max_beams
    &&& forall|index: int| 0 <= index < parents.len() ==> #[trigger] parents[index] < config.max_beams
}

/// Memory attention over the beams of a search.
#[derive(Debug)]
pub struct MemoryTryAttention {
    pub config: MemoryAttentionConfig,
    pub weight_at_v: Vec<u32>,
    pub weight_at_v_stop: Vec<u32>,
    pub status: Vec<BeamStatus>,
    pub memories: Vec<BeamMemory>,
}

/// A beam before its first frame.
pub open spec fn fresh_status() -> BeamStatus {
    BeamStatus {
        start_chunk: 0,
        start_frame: 0,
        end_chunk: 0,
        end_frame: 0,
        scan_chunk: 0,
        scan_frame: 0,
        previous_end_chunk: 0,
        previous_end_frame: 0,
        frame_width: 0,
        phase: 3,
    }
}

/// The memory of a beam before its first frame.
pub open spec fn fresh_memory(config: MemoryAttentionConfig) -> Memory {
    Memory {
        current: zeros(config.sequence_limit as int),
        working: Seq::new(config.sequence_limit as nat, |index: int| ONE),
        beta: zeros(config.sequence_limit as int),
        prefix: zeros(config.hidden_size as int),
        product: 0,
    }
}

/// All beams before their first frame.
pub open spec fn fresh_beams(config: MemoryAttentionConfig) -> Beams {
    Beams {
        status: Seq::new(config.max_beams as nat, |index: int| fresh_status()),
        memories: Seq::new(config.max_beams as nat, |index: int| fresh_memory(config)),
    }
}

/// A beam before its first frame.
fn new_memory(config: MemoryAttentionConfig) -> (result: BeamMemory)
    ensures
        result@ == fresh_memory(config),
{
    let mut working: Vec<u32> = Vec::new();
    for index in 0..config.sequence_limit
        invariant
            working@ == Seq::new(index as nat, |place: int| ONE),
    {
        working.push(ONE);
        assert(working@ =~= Seq::new((index + 1) as nat, |place: int| ONE));
    }
    let result = BeamMemory {
        alpha_current: zero_values(config.sequence_limit),
        alpha_working: working,
        beta: zero_values(config.sequence_limit),
        choose_prefix: zero_values(config.hidden_size),
        stop_product: 0,
    };
    assert(result@ =~= fresh_memory(config));
    result
}

/// All beams before their first frame.
fn new_beams(config: MemoryAttentionConfig) -> (result: (Vec<BeamStatus>, Vec<BeamMemory>))
    ensures
        (Beams { status: result.0@, memories: memory_views(result.1@) }) == fresh_beams(config),
{
    let mut status: Vec<BeamStatus> = Vec::new();
    let mut memories: Vec<BeamMemory> = Vec::new();
    for beam in 0..config.max_beams
        invariant
            status@ == fresh_beams(config).status.take(beam as int),
            memory_views(memories@) == fresh_beams(config).memories.take(beam as int),
    {
        let ghost before = memories@;
        status.push(
            BeamStatus {
                start_chunk: 0,
                start_frame: 0,
                end_chunk: 0,
                end_frame: 0,
                scan_chunk: 0,
                scan_frame: 0,
                previous_end_chunk: 0,
                previous_end_frame: 0,
                frame_width: 0,
                phase: 3,
            },
        );
        memories.push(new_memory(config));
        assert(memory_views(memories@) =~= memory_views(before).push(fresh_memory(config)));
        assert(status@ =~= fresh_beams(config).status.take(beam + 1));
        assert(memory_views(memories@) =~= fresh_beams(config).memories.take(beam + 1));
    }
    assert(status@ =~= fresh_beams(config).status);
    assert(memory_views(memories@) =~= fresh_beams(config).memories);
    (status, memories)
}

impl MemoryTryAttention {
    /// The beams.
    pub open spec fn beams(&self) -> Beams {
        Beams { status: self.status@, memories: memory_views(self.memories@) }
    }

    /// The dimensions are positive, the weights have the hidden size, and the beams are well formed.
    pub open spec fn wf(&self) -> bool {
        &&& self.config.max_beams > 0
        &&& 0 < self.config.sequence_limit <= i32::MAX
        &&& self.config.hidden_size > 0
        &&& self.config.end_margin > 0
        &&& self.weight_at_v@.len() == self.config.hidden_size
        &&& self.weight_at_v_stop@.len() == self.config.hidden_size
        &&& self.beams().wf(self.config)
    }

    /// Attention before the first frame.
    pub fn new(
        weight_at_v: Vec<u32>,
        weight_at_v_stop: Vec<u32>,
        config: MemoryAttentionConfig,
    ) -> (result: Result<Self, AttentionError>)
        requires
            config.sequence_limit <= i32::MAX,
        ensures
            match result {
                Ok(attention) => {
                    &&& config.max_beams > 0 && config.sequence_limit > 0 && config.hidden_size > 0
                        && config.end_margin > 0
                    &&& weight_at_v@.len() == config.hidden_size
                    &&& weight_at_v_stop@.len() == config.hidden_size
                    &&& attention.config == config
                    &&& attention.weight_at_v@ == weight_at_v@
                    &&& attention.weight_at_v_stop@ == weight_at_v_stop@
                    &&& attention.beams() == fresh_beams(config)
                    &&& attention.wf()
                },
                Err(error) => if config.max_beams == 0 || config.sequence_limit == 0
                    || config.hidden_size == 0 || config.end_margin == 0 {
                    error == AttentionError::Dimensions
                } else {
                    error == AttentionError::Weights && (weight_at_v@.len() != config.hidden_size
                        || weight_at_v_stop@.len() != config.hidden_size)
                },
            },
    {
        if config.max_beams == 0 || config.sequence_limit == 0 || config.hidden_size == 0
            || config.end_margin == 0 {
            return Err(AttentionError::Dimensions);
        }
        if weight_at_v.len() != config.hidden_size || weight_at_v_stop.len() != config.hidden_size {
            return Err(AttentionError::Weights);
        }
        let (status, memories) = new_beams(config);
        Ok(MemoryTryAttention { config, weight_at_v, weight_at_v_stop, status, memories })
    }

    /// The sizes and thresholds.
    pub fn config(&self) -> (result: MemoryAttentionConfig)
        ensures
            result == self.config,
    {
        self.config
    }

    /// Forgets all frames.
    pub fn reset(&mut self)
        ensures
            final(self).beams() == fresh_beams(old(self).config),
            final(self).config == old(self).config,
            final(self).weight_at_v == old(self).weight_at_v,
            final(self).weight_at_v_stop == old(self).weight_at_v_stop,
            old(self).wf() ==> final(self).wf(),
    {
        let (status, memories) = new_beams(self.config);
        self.status = status;
        self.memories = memories;
    }
}

/// Whether all parents are beams.
fn parents_known(config: MemoryAttentionConfig, parents: &[usize]) -> (result: bool)
    ensures
        result == known_parents(config, parents@),
{
    if parents.len() > config.max_beams {
        return false;
    }
    for index in 0..parents.len()
        invariant
            forall|place: int| 0 <= place < index ==> #[trigger] parents@[place] < config.max_beams,
    {
        if parents[index] >= config.max_beams {
            assert(!(parents@[index as int] < config.max_beams));
            return false;
        }
    }
    true
}

/// The range of weights that a beam takes over from another one.
fn range_to_inherit(
    target: BeamStatus,
    source: BeamStatus,
    limit: usize,
    Ghost(width): Ghost<int>,
) -> (result: (usize, usize))
    requires
        width >= 0,
        status_ok(target, width, limit as int),
        status_ok(source, width, limit as int),
    ensures
        (result.0 as int, result.1 as int) == inherited_range(target, source),
        result.0 <= limit,
        result.1 <= limit,
{
    let new: bool = target.frame_width < 1;
    let own: usize = if new {
        source.frame_width as usize
    } else {
        target.frame_width as usize
    };
    proof {
        let most = limit as int;
        lemma_position_inside(source.start_chunk, source.start_frame, width, most, own as int);
        lemma_position_inside(source.end_chunk, source.end_frame, width, most, own as int);
        lemma_position_inside(
            source.previous_end_chunk,
            source.previous_end_frame,
            width,
            most,
            own as int,
        );
        lemma_position_inside(target.end_chunk, target.end_frame, width, most, own as int);
    }
    let start: usize = position_of(source.start_chunk, source.start_frame, own, limit);
    let end: usize = position_of(source.end_chunk, source.end_frame, own, limit);
    let previous: usize = if new {
        position_of(source.previous_end_chunk, source.previous_end_frame, own, limit)
    } else {
        position_of(target.end_chunk, target.end_frame, own, limit)
    };
    (
        start,
        if end < previous {
            previous
        } else {
            end
        },
    )
}

impl MemoryTryAttention {
    /// Lets each beam go on from its parent.
    pub fn gather_beams(&mut self, parents: &[usize]) -> (result: Result<(), AttentionError>)
        requires
            old(self).wf(),
        ensures
            final(self).config == old(self).config,
            final(self).weight_at_v == old(self).weight_at_v,
            final(self).weight_at_v_stop == old(self).weight_at_v_stop,
            (final(self).beams(), result) == if known_parents(old(self).config, parents@) {
                gathered(
                    old(self).beams(),
                    old(self).config.sequence_limit as int,
                    parents@,
                    0,
                )
            } else {
                (old(self).beams(), Err(AttentionError::Parent))
            },
            final(self).wf(),
    {
        if !parents_known(self.config, parents) {
            return Err(AttentionError::Parent);
        }
        let limit: usize = self.config.sequence_limit;
        let ghost width = self.status@[0].frame_width as int;
        let mut index: usize = 0;
        let count: usize = parents.len();
        while index < count
            invariant
                self.wf(),
                self.config == old(self).config,
                self.weight_at_v == old(self).weight_at_v,
                self.weight_at_v_stop == old(self).weight_at_v_stop,
                limit == self.config.sequence_limit,
                index <= count == parents@.len(),
                known_parents(self.config, parents@),
                width == self.status@[0].frame_width,
                gathered(self.beams(), limit as int, parents@, index as int) == gathered(
                    old(self).beams(),
                    limit as int,
                    parents@,
                    0,
                ),
            decreases count - index,
        {
            let ghost before = self.beams();
            let parent: usize = parents[index];
            let target: BeamStatus = self.status[index];
            let source: BeamStatus = self.status[parent];
            assert(status_ok(before.status[0], width, limit as int));
            assert(memory_ok(before.memories[index as int], self.config));
            assert(memory_ok(before.memories[parent as int], self.config));
            let (start, end) = range_to_inherit(target, source, limit, Ghost(width));
            let status = BeamStatus {
                previous_end_chunk: target.end_chunk,
                previous_end_frame: target.end_frame,
                frame_width: target.frame_width,
                ..source
            };
            self.status.set(index, status);
            let ghost updated = before.status.update(index as int, inherited(target, source));
            assert(self.status@ =~= updated);
            assert forall|beam: int| 0 <= beam < updated.len() implies status_ok(
                #[trigger] updated[beam],
                width,
                limit as int,
            ) by {
                assert(status_ok(before.status[beam], width, limit as int));
            }
            if end < start || end > limit {
                assert(self.beams() =~= Beams { status: updated, ..before });
                return Err(AttentionError::Range);
            }
            let part: Vec<u32> = copy_range(&self.memories[parent].alpha_current, start, end);
            write(&mut self.memories[index].alpha_working, start, &part, end - start);
            proof {
                assert(part@.take(end - start) =~= part@);
                let memory = Memory {
                    working: written(before.memories[index as int].working, start as int, part@),
                    ..before.memories[index as int]
                };
                assert(self.memories@[index as int]@ =~= memory);
                assert(memory_views(self.memories@) =~= before.memories.update(
                    index as int,
                    memory,
                ));
                assert(self.beams() =~= Beams {
                    status: updated,
                    memories: before.memories.update(index as int, memory),
                });
                assert forall|beam: int| 0 <= beam < self.beams().memories.len() implies memory_ok(
                    #[trigger] self.beams().memories[beam],
                    self.config,
                ) by {
                    assert(memory_ok(before.memories[beam], self.config));
                }
            }
            index = index + 1;
        }
        Ok(())
    }
}

/// What a step of attention takes: the rows of the encoder bank, the queries of the active beams,
/// and what is handed on as it is. Numbers are given by their bits.
#[derive(Clone, Copy, Debug)]
pub struct MemoryAttentionInput<'a> {
    pub conformer_output: &'a [u32],
    pub at_h: &'a [u32],
    pub chunk_at_h: &'a [u32],
    pub enc_mem_h: &'a [u32],
    pub conformer_mask: &'a [u32],
    pub bank: FrameBank,
    pub passthrough: &'a [u32],
    pub query: &'a [u32],
    pub query_stop: &'a [u32],
    pub lengths: &'a [i32],
}

/// The rows that a beam looks at: all frames, the beam's own queries, and the weights.
pub open spec fn beam_rows(
    input: MemoryAttentionInput,
    weight_at_v: Seq<u32>,
    weight_at_v_stop: Seq<u32>,
    beam: int,
) -> frame_weights::Rows {
    let hidden = weight_at_v.len() as int;
    frame_weights::Rows {
        at_h: input.at_h@,
        chunk_at_h: input.chunk_at_h@,
        enc_mem_h: input.enc_mem_h@,
        conformer_mask: input.conformer_mask@,
        query: input.query@.subrange(beam * hidden, beam * hidden + hidden),
        query_stop: input.query_stop@.subrange(beam * hidden, beam * hidden + hidden),
        weight_at_v,
        weight_at_v_stop,
    }
}

/// What the frames weigh for the beams of an input.
pub open spec fn weighing<
    B: Fn(u32, u32) -> u32,
    S: Fn(u32, u32, u32) -> u32,
    F: Fn(u32, u32, u32) -> u32,
    P: Fn(u32, u32) -> u32,
    M: Fn(u32, u32) -> u32,
    W: Fn(u32, u32) -> u32,
    D: Fn(u32, u32) -> u32,
    H: Fn(u32, u32) -> u32,
    G: Fn(u32, u32) -> u32,
>(
    with: FrameArithmetic<B, S, F, P, M, W, D, H, G>,
    input: MemoryAttentionInput,
    weight_at_v: Seq<u32>,
    weight_at_v_stop: Seq<u32>,
) -> Weighing {
    |beam: int, begin: int, end: int, memory: Memory, values: Chunk|
        frame_weights::weighs_frames(
            with,
            beam_rows(input, weight_at_v, weight_at_v_stop, beam),
            memory,
            begin,
            end - begin,
            values,
        )
}

/// The contexts that the beams of an input gather.
pub open spec fn gathering<
    B: Fn(u32, u32) -> u32,
    S: Fn(u32, u32, u32) -> u32,
    F: Fn(u32, u32, u32) -> u32,
    P: Fn(u32, u32) -> u32,
    M: Fn(u32, u32) -> u32,
    W: Fn(u32, u32) -> u32,
    D: Fn(u32, u32) -> u32,
    H: Fn(u32, u32) -> u32,
    G: Fn(u32, u32) -> u32,
>(
    with: FrameArithmetic<B, S, F, P, M, W, D, H, G>,
    input: MemoryAttentionInput,
    hidden_size: int,
) -> Gathering {
    |beam: int, begin: int, end: int, memory: Memory, found: Context|
        frame_weights::gathers_context(
            with.take,
            with.plus,
            input.conformer_output@,
            memory.beta,
            begin,
            end,
            hidden_size,
            found,
        )
}

/// The rows that a beam looks at.
fn rows_of_beam<'a>(
    input: &MemoryAttentionInput<'a>,
    weight_at_v: &'a [u32],
    weight_at_v_stop: &'a [u32],
    beam: usize,
) -> (rows: FrameRows<'a>)
    requires
        beam < input.lengths@.len(),
        input.query@.len() == input.lengths@.len() * weight_at_v@.len(),
        input.query_stop@.len() == input.lengths@.len() * weight_at_v@.len(),
    ensures
        rows@ == beam_rows(*input, weight_at_v@, weight_at_v_stop@, beam as int),
        rows@.query.len() == weight_at_v@.len(),
        rows@.query_stop.len() == weight_at_v@.len(),
{
    let hidden: usize = weight_at_v.len();
    let start: usize = offset(beam, hidden, input.lengths.len(), input.query.len());
    let rows = FrameRows {
        at_h: input.at_h,
        chunk_at_h: input.chunk_at_h,
        enc_mem_h: input.enc_mem_h,
        conformer_mask: input.conformer_mask,
        query: slice_subrange(input.query, start, start + hidden),
        query_stop: slice_subrange(input.query_stop, start, start + hidden),
        weight_at_v,
        weight_at_v_stop,
    };
    assert(rows@ =~= beam_rows(*input, weight_at_v@, weight_at_v_stop@, beam as int));
    rows
}

/// What is wrong with an input, if anything.
pub open spec fn input_error(config: MemoryAttentionConfig, input: MemoryAttentionInput) -> Option<
    AttentionError,
> {
    let frames = input.bank.frames();
    let bank_size = frames * config.hidden_size;
    let active = input.lengths@.len();
    let beam_size = active * config.hidden_size;
    if frames > usize::MAX {
        Some(AttentionError::FrameCount)
    } else if input.bank.chunk_count == 0 || input.bank.frame_width == 0 {
        Some(AttentionError::EmptyBank)
    } else if frames > config.sequence_limit {
        Some(AttentionError::SequenceLimit)
    } else if input.conformer_output@.len() != bank_size {
        Some(AttentionError::ConformerOutput)
    } else if input.at_h@.len() != bank_size {
        Some(AttentionError::AttentionHidden)
    } else if input.chunk_at_h@.len() != bank_size {
        Some(AttentionError::ChunkHidden)
    } else if input.enc_mem_h@.len() != bank_size {
        Some(AttentionError::MemoryHidden)
    } else if input.conformer_mask@.len() != frames {
        Some(AttentionError::ConformerMask)
    } else if active == 0 || active > config.max_beams {
        Some(AttentionError::ActiveBeams)
    } else if input.passthrough@.len() != beam_size {
        Some(AttentionError::Passthrough)
    } else if input.query@.len() != beam_size {
        Some(AttentionError::Query)
    } else if input.query_stop@.len() != beam_size {
        Some(AttentionError::StopQuery)
    } else {
        None
    }
}

/// What is wrong with an input, if anything.
fn check_input(config: MemoryAttentionConfig, input: &MemoryAttentionInput) -> (result: Option<
    AttentionError,
>)
    ensures
        result == input_error(config, *input),
{
    let hidden: usize = config.hidden_size;
    let active: usize = input.lengths.len();
    let passthrough_len: usize = input.passthrough.len();
    let frames: usize = match input.bank.chunk_count.checked_mul(input.bank.frame_width) {
        Some(frames) => frames,
        None => {
            return Some(AttentionError::FrameCount);
        },
    };
    if input.bank.chunk_count == 0 || input.bank.frame_width == 0 {
        Some(AttentionError::EmptyBank)
    } else if frames > config.sequence_limit {
        Some(AttentionError::SequenceLimit)
    } else if !is_product(input.conformer_output.len(), frames, hidden) {
        Some(AttentionError::ConformerOutput)
    } else if !is_product(input.at_h.len(), frames, hidden) {
        Some(AttentionError::AttentionHidden)
    } else if !is_product(input.chunk_at_h.len(), frames, hidden) {
        Some(AttentionError::ChunkHidden)
    } else if !is_product(input.enc_mem_h.len(), frames, hidden) {
        Some(AttentionError::MemoryHidden)
    } else if input.conformer_mask.len() != frames {
        Some(AttentionError::ConformerMask)
    } else if active == 0 || active > config.max_beams {
        Some(AttentionError::ActiveBeams)
    } else if !is_product(passthrough_len, active, hidden) {
        Some(AttentionError::Passthrough)
    } else if !is_product(input.query.len(), active, hidden) {
        Some(AttentionError::Query)
    } else if !is_product(input.query_stop.len(), active, hidden) {
        Some(AttentionError::StopQuery)
    } else {
        None
    }
}

/// One of the beams.
pub open spec fn beam_at(beams: Beams, index: int) -> Beam {
    Beam { status: beams.status[index], memory: beams.memories[index] }
}

/// The beams with one of them replaced.
pub open spec fn with_beam(beams: Beams, index: int, beam: Beam) -> Beams {
    Beams {
        status: beams.status.update(index, beam.status),
        memories: beams.memories.update(index, beam.memory),
    }
}

/// How the active beams from `index` on go on over a bank of frames: whether all are ready, or the
/// first error, which ends it.
pub open spec fn all_advance(
    evaluate: Weighing,
    config: MemoryAttentionConfig,
    bank: FrameBank,
    active: int,
    index: int,
    before: Beams,
    ready: bool,
    after: Beams,
    result: Result<bool, AttentionError>,
) -> bool
    decreases active - index,
{
    if index >= active {
        after == before && result == Ok::<bool, AttentionError>(ready)
    } else {
        exists|beam: Beam, outcome: Result<bool, AttentionError>|
            {
                &&& #[trigger] advances(
                    evaluate,
                    config,
                    bank,
                    index,
                    beam_at(before, index),
                    beam,
                    outcome,
                )
                &&& match outcome {
                    Ok(own) => all_advance(
                        evaluate,
                        config,
                        bank,
                        active,
                        index + 1,
                        with_beam(before, index, beam),
                        ready && own,
                        after,
                        result,
                    ),
                    Err(error) => after == with_beam(before, index, beam) && result == Err::<
                        bool,
                        AttentionError,
                    >(error),
                }
            }
    }
}

/// The frames that a beam attends to.
pub open spec fn attended(status: BeamStatus, width: int) -> (int, int) {
    (
        position(status.start_chunk as int, status.start_frame as int, width),
        position(status.end_chunk as int, status.end_frame as int, width),
    )
}

/// A beam that has stopped did so within the frames, unless its chunks are of another width.
pub open spec fn stop_inside(status: BeamStatus, bank: FrameBank) -> bool {
    status.phase == 1 && (status.frame_width == 0 || status.frame_width == bank.frame_width)
        ==> attended(status, bank.frame_width as int).1 <= bank.frames()
}

/// The first beams that have stopped did so within the frames.
pub open spec fn stops_inside(beams: Beams, bank: FrameBank, active: int) -> bool {
    forall|beam: int| 0 <= beam < active ==> stop_inside(#[trigger] beams.status[beam], bank)
}

/// The first beams end within the frames.
pub open spec fn ends_inside(beams: Beams, bank: FrameBank, active: int) -> bool {
    forall|beam: int|
        0 <= beam < active ==> attended(
            #[trigger] beams.status[beam],
            bank.frame_width as int,
        ).1 <= bank.frames()
}

/// The beams from `index` on are to start anew, up to the first one whose range is not valid.
pub open spec fn settled(beams: Beams, width: int, limit: int, active: int, index: int) -> (
    Beams,
    Result<(), AttentionError>,
)
    decreases active - index,
{
    if index >= active {
        (beams, Ok(()))
    } else {
        let status = BeamStatus { phase: 3, ..beams.status[index] };
        let after = Beams { status: beams.status.update(index, status), ..beams };
        let (start, end) = attended(status, width);
        if end < start || end > limit {
            (after, Err(AttentionError::Range))
        } else {
            settled(after, width, limit, active, index + 1)
        }
    }
}

/// Places that are zero lie within any sequence, whatever the width of chunks.
proof fn lemma_fresh_places(status: BeamStatus, width: int, limit: int)
    requires
        status_ok(status, 0, limit),
        0 < width,
        0 <= limit,
    ensures
        status_ok(status, width, limit),
{
    assert(0 * width == 0) by (nonlinear_arith);
}

/// Replacing a beam by a well-formed one keeps the beams well formed.
proof fn lemma_with_beam(
    beams: Beams,
    config: MemoryAttentionConfig,
    index: int,
    beam: Beam,
    width: int,
)
    requires
        beams.wf(config),
        0 <= index < config.max_beams,
        0 < width,
        beams.status[0].frame_width == 0 || beams.status[0].frame_width == width,
        index > 0 ==> beams.status[0].frame_width == width,
        status_ok(beam.status, width, config.sequence_limit as int),
        beam.status.frame_width == width,
        memory_ok(beam.memory, config),
    ensures
        with_beam(beams, index, beam).wf(config),
        with_beam(beams, index, beam).status[0].frame_width == width,
{
    let after = with_beam(beams, index, beam);
    let limit = config.sequence_limit as int;
    assert forall|other: int| 0 <= other < after.status.len() implies status_ok(
        #[trigger] after.status[other],
        width,
        limit,
    ) by {
        assert(status_ok(beams.status[other], beams.status[0].frame_width as int, limit));
        if beams.status[0].frame_width == 0 {
            lemma_fresh_places(beams.status[other], width, limit);
        }
    }
    assert forall|other: int| 0 <= other < after.memories.len() implies memory_ok(
        #[trigger] after.memories[other],
        config,
    ) by {
        assert(memory_ok(beams.memories[other], config));
    }
}

/// Changing just a beam's memory keeps the beams well formed.
proof fn lemma_with_memory(beams: Beams, config: MemoryAttentionConfig, index: int, beam: Beam)
    requires
        beams.wf(config),
        0 <= index < config.max_beams,
        beam.status == beams.status[index],
        memory_ok(beam.memory, config),
    ensures
        with_beam(beams, index, beam).wf(config),
{
    let after = with_beam(beams, index, beam);
    assert(after.status =~= beams.status);
    assert forall|other: int| 0 <= other < after.memories.len() implies memory_ok(
        #[trigger] after.memories[other],
        config,
    ) by {
        assert(memory_ok(beams.memories[other], config));
    }
}

impl<
    B: Fn(u32, u32) -> u32,
    S: Fn(u32, u32, u32) -> u32,
    F: Fn(u32, u32, u32) -> u32,
    P: Fn(u32, u32) -> u32,
    M: Fn(u32, u32) -> u32,
    W: Fn(u32, u32) -> u32,
    D: Fn(u32, u32) -> u32,
    H: Fn(u32, u32) -> u32,
    G: Fn(u32, u32) -> u32,
> FrameArithmetic<B, S, F, P, M, W, D, H, G> {
    /// Advances the active beams over a bank of frames; whether all are ready.
    fn advance_all(&self, attention: &mut MemoryTryAttention, input: &MemoryAttentionInput) -> (
    result: Result<bool, AttentionError>)
        requires
            old(attention).wf(),
            frame_weights::computes(*self),
            input_error(old(attention).config, *input) is None,
            stops_inside(old(attention).beams(), input.bank, input.lengths@.len() as int),
        ensures
            final(attention).wf(),
            final(attention).config == old(attention).config,
            final(attention).weight_at_v == old(attention).weight_at_v,
            final(attention).weight_at_v_stop == old(attention).weight_at_v_stop,
            all_advance(
                weighing(
                    *self,
                    *input,
                    old(attention).weight_at_v@,
                    old(attention).weight_at_v_stop@,
                ),
                old(attention).config,
                input.bank,
                input.lengths@.len() as int,
                0,
                old(attention).beams(),
                true,
                final(attention).beams(),
                result,
            ),
            result is Ok ==> final(attention).status@[0].frame_width == input.bank.frame_width
                && ends_inside(
                final(attention).beams(),
                input.bank,
                input.lengths@.len() as int,
            ),
    {
        let config: MemoryAttentionConfig = attention.config;
        let bank: FrameBank = input.bank;
        let active: usize = input.lengths.len();
        let ghost evaluate = weighing(
            *self,
            *input,
            attention.weight_at_v@,
            attention.weight_at_v_stop@,
        );
        let ghost limit = config.sequence_limit as int;
        let ghost width = bank.frame_width as int;
        let mut ready: bool = true;
        let mut index: usize = 0;
        while index < active
            invariant
                attention.wf(),
                attention.config == config,
                config == old(attention).config,
                attention.weight_at_v == old(attention).weight_at_v,
                attention.weight_at_v_stop == old(attention).weight_at_v_stop,
                frame_weights::computes(*self),
                input_error(config, *input) is None,
                bank == input.bank,
                active == input.lengths@.len(),
                evaluate == weighing(
                    *self,
                    *input,
                    attention.weight_at_v@,
                    attention.weight_at_v_stop@,
                ),
                stops_inside(old(attention).beams(), bank, active as int),
                forall|beam: int|
                    index <= beam < active ==> #[trigger] attention.status@[beam]
                        == old(attention).status@[beam],
                ends_inside(attention.beams(), bank, index as int),
                limit == config.sequence_limit,
                width == bank.frame_width,
                bank.fits(limit),
                0 < active <= config.max_beams,
                index <= active,
                index > 0 ==> attention.status@[0].frame_width == width,
                forall|after: Beams, outcome: Result<bool, AttentionError>|
                    #[trigger] all_advance(
                        evaluate,
                        config,
                        bank,
                        active as int,
                        index as int,
                        attention.beams(),
                        ready,
                        after,
                        outcome,
                    ) ==> all_advance(
                        evaluate,
                        config,
                        bank,
                        active as int,
                        0,
                        old(attention).beams(),
                        true,
                        after,
                        outcome,
                    ),
            decreases active - index,
        {
            let ghost before = attention.beams();
            let status: BeamStatus = attention.status[index];
            proof {
                assert(status_ok(
                    before.status[index as int],
                    before.status[0].frame_width as int,
                    limit,
                ));
                assert(memory_ok(before.memories[index as int], config));
                assert(stop_inside(old(attention).beams().status[index as int], bank));
                if before.status[0].frame_width == 0 {
                    lemma_fresh_places(status, width, limit);
                }
            }
            let (next, outcome) = self.advance_beam(
                config,
                input,
                &attention.weight_at_v,
                &attention.weight_at_v_stop,
                index,
                status,
                &mut attention.memories[index],
            );
            attention.status.set(index, next);
            let ghost beam = Beam { status: next, memory: attention.memories@[index as int]@ };
            assert(memory_views(attention.memories@) =~= before.memories.update(
                index as int,
                beam.memory,
            ));
            assert(attention.beams() =~= with_beam(before, index as int, beam));
            assert(beam_at(before, index as int) =~= Beam {
                status,
                memory: before.memories[index as int],
            });
            assert(advances(
                evaluate,
                config,
                bank,
                index as int,
                beam_at(before, index as int),
                beam,
                outcome,
            ));
            match outcome {
                Ok(own) => {
                    let all_ready: bool = ready && own;
                    proof {
                        lemma_with_beam(before, config, index as int, beam, width);
                        assert forall|after: Beams, end: Result<bool, AttentionError>|
                            #[trigger] all_advance(
                                evaluate,
                                config,
                                bank,
                                active as int,
                                index + 1,
                                attention.beams(),
                                all_ready,
                                after,
                                end,
                            ) implies all_advance(
                            evaluate,
                            config,
                            bank,
                            active as int,
                            0,
                            old(attention).beams(),
                            true,
                            after,
                            end,
                        ) by {
                            assert(all_advance(
                                evaluate,
                                config,
                                bank,
                                active as int,
                                index as int,
                                before,
                                ready,
                                after,
                                end,
                            ));
                        }
                    }
                    ready = all_ready;
                },
                Err(error) => {
                    proof {
                        lemma_with_memory(before, config, index as int, beam);
                        assert(all_advance(
                            evaluate,
                            config,
                            bank,
                            active as int,
                            index as int,
                            before,
                            ready,
                            attention.beams(),
                            Err(error),
                        ));
                    }
                    return Err(error);
                },
            }
            index = index + 1;
        }
        assert(all_advance(
            evaluate,
            config,
            bank,
            active as int,
            index as int,
            attention.beams(),
            ready,
            attention.beams(),
            Ok(ready),
        ));
        Ok(ready)
    }
}

/// What a beam finds in the frames that it attends to, and the sum of their shares.
#[derive(Debug)]
pub struct BeamContext {
    pub context: Vec<u32>,
    pub beta_sum: u32,
}

/// The content of a beam's context.
#[verifier::ext_equal]
pub struct Context {
    pub context: Seq<u32>,
    pub beta_sum: u32,
}

impl View for BeamContext {
    type V = Context;

    open spec fn view(&self) -> Context {
        Context { context: self.context@, beta_sum: self.beta_sum }
    }
}

/// Collecting the frames from `begin` to `end` for a beam may give `found`.
pub open spec fn collects(
    collect: Gathering,
    beam: int,
    begin: int,
    end: int,
    memory: Memory,
    found: Context,
) -> bool {
    collect(beam, begin, end, memory, found)
}

/// `parts` are the contexts of the first beams.
pub open spec fn all_collected(
    collect: Gathering,
    beams: Beams,
    width: int,
    parts: Seq<Context>,
) -> bool {
    forall|beam: int|
        0 <= beam < parts.len() ==> collects(
            collect,
            beam,
            attended(beams.status[beam], width).0,
            attended(beams.status[beam], width).1,
            beams.memories[beam],
            #[trigger] parts[beam],
        )
}

/// The contexts one after the other.
pub open spec fn joined_context(parts: Seq<Context>) -> Seq<u32>
    decreases parts.len(),
{
    if parts.len() == 0 {
        Seq::empty()
    } else {
        joined_context(parts.drop_last()) + parts.last().context
    }
}

/// The flag of a beam: one when its frames weigh too little, plus two when it is at the end.
pub open spec fn beam_flag(
    config: MemoryAttentionConfig,
    bank: FrameBank,
    beta_sum: u32,
    end: int,
) -> i32 {
    let light: i32 = if is_less(beta_sum, config.beta_threshold) {
        1
    } else {
        0
    };
    let at_end = bank.final_flush && bank.frames() - end < config.end_margin;
    if at_end {
        (light + 2) as i32
    } else {
        light
    }
}

/// The flags of the first beams.
pub open spec fn beam_flags(
    config: MemoryAttentionConfig,
    bank: FrameBank,
    beams: Beams,
    parts: Seq<Context>,
) -> Seq<i32> {
    Seq::new(
        parts.len(),
        |beam: int|
            beam_flag(
                config,
                bank,
                parts[beam].beta_sum,
                attended(beams.status[beam], bank.frame_width as int).1,
            ),
    )
}

/// The last position at which one of the first `count` beams ends.
pub open spec fn last_end(beams: Beams, width: int, count: int) -> int
    decreases count,
{
    if count <= 0 {
        -1
    } else {
        let end = attended(beams.status[count - 1], width).1;
        let before = last_end(beams, width, count - 1);
        if before < end {
            end
        } else {
            before
        }
    }
}

/// What a step of attention gives.
#[derive(Debug)]
pub struct MemoryAttentionResult {
    pub ready: bool,
    pub max_end: isize,
    pub context: Vec<u32>,
    pub passthrough: Vec<u32>,
    pub flags: Vec<i32>,
    pub lengths: Vec<i32>,
}

/// The content of a step's result.
#[verifier::ext_equal]
pub struct Attention {
    pub ready: bool,
    pub max_end: int,
    pub context: Seq<u32>,
    pub passthrough: Seq<u32>,
    pub flags: Seq<i32>,
    pub lengths: Seq<i32>,
}

impl View for MemoryAttentionResult {
    type V = Attention;

    open spec fn view(&self) -> Attention {
        Attention {
            ready: self.ready,
            max_end: self.max_end as int,
            context: self.context@,
            passthrough: self.passthrough@,
            flags: self.flags@,
            lengths: self.lengths@,
        }
    }
}

/// The result while a beam waits for more frames.
pub open spec fn waiting() -> Attention {
    Attention {
        ready: false,
        max_end: -1,
        context: Seq::empty(),
        passthrough: Seq::empty(),
        flags: Seq::empty(),
        lengths: Seq::empty(),
    }
}

/// How a step goes on once all beams are ready.
pub open spec fn concludes(
    collect: Gathering,
    config: MemoryAttentionConfig,
    input: MemoryAttentionInput,
    before: Beams,
    after: Beams,
    result: Result<Attention, AttentionError>,
) -> bool {
    let width = input.bank.frame_width as int;
    let active = input.lengths@.len() as int;
    let (beams, outcome) = settled(before, width, config.sequence_limit as int, active, 0);
    after == beams && match outcome {
        Ok(_) => exists|parts: Seq<Context>|
            {
                &&& parts.len() == active
                &&& #[trigger] all_collected(collect, before, width, parts)
                &&& result == Ok::<Attention, AttentionError>(
                    Attention {
                        ready: true,
                        max_end: last_end(before, width, active),
                        context: joined_context(parts),
                        passthrough: input.passthrough@,
                        flags: beam_flags(config, input.bank, before, parts),
                        lengths: input.lengths@,
                    },
                )
            },
        Err(error) => result == Err::<Attention, AttentionError>(error),
    }
}

/// How a step of attention goes.
pub open spec fn attends(
    evaluate: Weighing,
    collect: Gathering,
    config: MemoryAttentionConfig,
    input: MemoryAttentionInput,
    before: Beams,
    after: Beams,
    result: Result<Attention, AttentionError>,
) -> bool {
    match input_error(config, input) {
        Some(error) => after == before && result == Err::<Attention, AttentionError>(error),
        None => exists|between: Beams, outcome: Result<bool, AttentionError>|
            {
                &&& #[trigger] all_advance(
                    evaluate,
                    config,
                    input.bank,
                    input.lengths@.len() as int,
                    0,
                    before,
                    true,
                    between,
                    outcome,
                )
                &&& match outcome {
                    Ok(ready) => if ready {
                        concludes(collect, config, input, between, after, result)
                    } else {
                        after == between && result == Ok::<Attention, AttentionError>(waiting())
                    },
                    Err(error) => after == between && result == Err::<Attention, AttentionError>(
                        error,
                    ),
                }
            },
    }
}

/// The content of a step's result.
pub open spec fn result_view(result: Result<MemoryAttentionResult, AttentionError>) -> Result<
    Attention,
    AttentionError,
> {
    match result {
        Ok(found) => Ok(found@),
        Err(error) => Err(error),
    }
}

/// The beams with a beam that is to start anew.
proof fn lemma_settle_one(beams: Beams, config: MemoryAttentionConfig, index: int)
    requires
        beams.wf(config),
        0 <= index < config.max_beams,
    ensures
        (Beams {
            status: beams.status.update(
                index,
                BeamStatus { phase: 3, ..beams.status[index] },
            ),
            ..beams
        }).wf(config),
{
    let after = Beams {
        status: beams.status.update(index, BeamStatus { phase: 3, ..beams.status[index] }),
        ..beams
    };
    let limit = config.sequence_limit as int;
    assert forall|beam: int| 0 <= beam < after.status.len() implies status_ok(
        #[trigger] after.status[beam],
        after.status[0].frame_width as int,
        limit,
    ) by {
        assert(status_ok(beams.status[beam], beams.status[0].frame_width as int, limit));
    }
}

impl<
    B: Fn(u32, u32) -> u32,
    S: Fn(u32, u32, u32) -> u32,
    F: Fn(u32, u32, u32) -> u32,
    P: Fn(u32, u32) -> u32,
    M: Fn(u32, u32) -> u32,
    W: Fn(u32, u32) -> u32,
    D: Fn(u32, u32) -> u32,
    H: Fn(u32, u32) -> u32,
    G: Fn(u32, u32) -> u32,
> FrameArithmetic<B, S, F, P, M, W, D, H, G> {
    /// The contexts, flags and last position of the beams, which are to start anew.
    fn conclude(&self, attention: &mut MemoryTryAttention, input: &MemoryAttentionInput) -> (
    result: Result<(Vec<u32>, Vec<i32>, isize), AttentionError>)
        requires
            old(attention).wf(),
            frame_weights::computes(*self),
            input_error(old(attention).config, *input) is None,
            old(attention).status@[0].frame_width == input.bank.frame_width,
            ends_inside(old(attention).beams(), input.bank, input.lengths@.len() as int),
        ensures
            final(attention).wf(),
            final(attention).config == old(attention).config,
            final(attention).weight_at_v == old(attention).weight_at_v,
            final(attention).weight_at_v_stop == old(attention).weight_at_v_stop,
            final(attention).beams() == settled(
                old(attention).beams(),
                input.bank.frame_width as int,
                old(attention).config.sequence_limit as int,
                input.lengths@.len() as int,
                0,
            ).0,
            match result {
                Ok(found) => settled(
                    old(attention).beams(),
                    input.bank.frame_width as int,
                    old(attention).config.sequence_limit as int,
                    input.lengths@.len() as int,
                    0,
                ).1 is Ok && exists|parts: Seq<Context>|
                    {
                        &&& parts.len() == input.lengths@.len()
                        &&& #[trigger] all_collected(
                            gathering(
                                *self,
                                *input,
                                old(attention).config.hidden_size as int,
                            ),
                            old(attention).beams(),
                            input.bank.frame_width as int,
                            parts,
                        )
                        &&& found.0@ == joined_context(parts)
                        &&& found.0@.len() == input.lengths@.len() * old(
                            attention,
                        ).config.hidden_size
                        &&& found.1@ == beam_flags(
                            old(attention).config,
                            input.bank,
                            old(attention).beams(),
                            parts,
                        )
                        &&& found.2 == last_end(
                            old(attention).beams(),
                            input.bank.frame_width as int,
                            input.lengths@.len() as int,
                        )
                    },
                Err(error) => settled(
                    old(attention).beams(),
                    input.bank.frame_width as int,
                    old(attention).config.sequence_limit as int,
                    input.lengths@.len() as int,
                    0,
                ).1 == Err::<(), AttentionError>(error),
            },
    {
        let config: MemoryAttentionConfig = attention.config;
        let bank: FrameBank = input.bank;
        let active: usize = input.lengths.len();
        let hidden: usize = config.hidden_size;
        let ghost collect = gathering(*self, *input, hidden as int);
        let width: usize = bank.frame_width;
        let limit: usize = config.sequence_limit;
        let frames: usize = bank.chunk_count * width;
        let ghost start = attention.beams();
        let ghost mut parts: Seq<Context> = Seq::empty();
        let mut context: Vec<u32> = Vec::new();
        let mut flags: Vec<i32> = Vec::new();
        let mut max_end: isize = -1;
        let mut index: usize = 0;
        while index < active
            invariant
                attention.wf(),
                attention.config == config,
                config == old(attention).config,
                attention.weight_at_v == old(attention).weight_at_v,
                attention.weight_at_v_stop == old(attention).weight_at_v_stop,
                start == old(attention).beams(),
                width == bank.frame_width,
                limit == config.sequence_limit,
                frames == bank.frames(),
                attention.status@[0].frame_width == width,
                index <= active <= config.max_beams,
                frame_weights::computes(*self),
                input_error(config, *input) is None,
                bank == input.bank,
                active == input.lengths@.len(),
                hidden == config.hidden_size,
                collect == gathering(*self, *input, hidden as int),
                ends_inside(start, bank, active as int),
                context@.len() == index * hidden,
                attention.beams().memories == start.memories,
                forall|beam: int|
                    index <= beam < config.max_beams ==> attention.status@[beam]
                        == #[trigger] start.status[beam],
                settled(attention.beams(), width as int, limit as int, active as int, index as int)
                    == settled(start, width as int, limit as int, active as int, 0),
                parts.len() == index,
                all_collected(collect, start, width as int, parts),
                context@ == joined_context(parts),
                flags@ == beam_flags(config, bank, start, parts),
                max_end == last_end(start, width as int, index as int),
                -1 <= max_end <= limit,
            decreases active - index,
        {
            let ghost before = attention.beams();
            proof {
                lemma_settle_one(before, config, index as int);
                assert(status_ok(before.status[index as int], width as int, limit as int));
                assert(attention.status@[index as int] == start.status[index as int]);
            }
            let known: BeamStatus = attention.status[index];
            let status = BeamStatus { phase: 3, ..known };
            attention.status.set(index, status);
            assert(attention.beams() =~= Beams {
                status: before.status.update(index as int, status),
                ..before
            });
            proof {
                let wide = width as int;
                let most = limit as int;
                lemma_position_inside(status.start_chunk, status.start_frame, wide, most, wide);
                lemma_position_inside(status.end_chunk, status.end_frame, wide, most, wide);
            }
            let begin: usize = position_of(status.start_chunk, status.start_frame, width, limit);
            let end: usize = position_of(status.end_chunk, status.end_frame, width, limit);
            if end < begin || end > limit {
                return Err(AttentionError::Range);
            }
            let memory: &BeamMemory = &attention.memories[index];
            proof {
                assert(memory@ == memory_views(attention.memories@)[index as int]);
                assert(memory_ok(before.memories[index as int], config));
                assert(attended(start.status[index as int], width as int).1 <= frames);
                assert((index + 1) * hidden == index * hidden + hidden) by (nonlinear_arith);
            }
            let found: BeamContext = self.gather_context(
                input.conformer_output,
                memory,
                begin,
                end,
                frames,
                hidden,
            );
            assert(collects(
                collect,
                index as int,
                begin as int,
                end as int,
                start.memories[index as int],
                found@,
            ));
            let mut flag: i32 = 0;
            if less(found.beta_sum, config.beta_threshold) {
                flag = 1;
            }
            if bank.final_flush && (frames - end < config.end_margin) {
                flag = flag + 2;
            }
            let ghost earlier = parts;
            proof {
                parts = parts.push(found@);
                assert(parts.drop_last() =~= earlier);
            }
            flags.push(flag);
            assert(flags@ =~= beam_flags(config, bank, start, parts));
            let mut own: Vec<u32> = found.context;
            context.append(&mut own);
            if max_end < end as isize {
                max_end = end as isize;
            }
            index = index + 1;
        }
        Ok((context, flags, max_end))
    }
}

impl MemoryTryAttention {
    /// Advances the active beams over the encoder bank. Once all are ready, gives what each
    /// attends to. A beam that has stopped must have done so within the bank.
    pub fn step<
        B: Fn(u32, u32) -> u32,
        S: Fn(u32, u32, u32) -> u32,
        F: Fn(u32, u32, u32) -> u32,
        P: Fn(u32, u32) -> u32,
        M: Fn(u32, u32) -> u32,
        W: Fn(u32, u32) -> u32,
        D: Fn(u32, u32) -> u32,
        H: Fn(u32, u32) -> u32,
        G: Fn(u32, u32) -> u32,
    >(
        &mut self,
        with: &FrameArithmetic<B, S, F, P, M, W, D, H, G>,
        input: &MemoryAttentionInput,
    ) -> (result: Result<MemoryAttentionResult, AttentionError>)
        requires
            old(self).wf(),
            frame_weights::computes(*with),
            input_error(old(self).config, *input) is None ==> stops_inside(
                old(self).beams(),
                input.bank,
                input.lengths@.len() as int,
            ),
        ensures
            final(self).wf(),
            final(self).config == old(self).config,
            final(self).weight_at_v == old(self).weight_at_v,
            final(self).weight_at_v_stop == old(self).weight_at_v_stop,
            attends(
                weighing(*with, *input, old(self).weight_at_v@, old(self).weight_at_v_stop@),
                gathering(*with, *input, old(self).config.hidden_size as int),
                old(self).config,
                *input,
                old(self).beams(),
                final(self).beams(),
                result_view(result),
            ),
            result matches Ok(found) ==> {
                &&& found.ready ==> found.context@.len() == input.lengths@.len() * old(
                    self,
                ).config.hidden_size
                &&& ends_inside(final(self).beams(), input.bank, input.lengths@.len() as int)
            },
    {
        let ghost before = self.beams();
        let ghost config = self.config;
        let ghost evaluate = weighing(*with, *input, self.weight_at_v@, self.weight_at_v_stop@);
        let ghost collect = gathering(*with, *input, config.hidden_size as int);
        match check_input(self.config, input) {
            Some(error) => {
                return Err(error);
            },
            None => {},
        }
        let active: usize = input.lengths.len();
        let outcome: Result<bool, AttentionError> = with.advance_all(self, input);
        let ghost between = self.beams();
        assert(all_advance(
            evaluate,
            config,
            input.bank,
            active as int,
            0,
            before,
            true,
            between,
            outcome,
        ));
        let ready: bool = match outcome {
            Ok(ready) => ready,
            Err(error) => {
                return Err(error);
            },
        };
        if !ready {
            let result = MemoryAttentionResult {
                ready: false,
                max_end: -1,
                context: Vec::new(),
                passthrough: Vec::new(),
                flags: Vec::new(),
                lengths: Vec::new(),
            };
            assert(result@ =~= waiting());
            return Ok(result);
        }
        match with.conclude(self, input) {
            Ok((context, flags, max_end)) => {
                let result = MemoryAttentionResult {
                    ready: true,
                    max_end,
                    context,
                    passthrough: copy_slice(input.passthrough),
                    flags,
                    lengths: copy_lengths(input.lengths),
                };
                assert(concludes(collect, config, *input, between, self.beams(), Ok(result@)));
                proof {
                    law_ready_beams_start_anew(
                        between,
                        input.bank.frame_width as int,
                        config.sequence_limit as int,
                        active as int,
                        0,
                    );
                    assert forall|beam: int| 0 <= beam < active implies attended(
                        #[trigger] self.beams().status[beam],
                        input.bank.frame_width as int,
                    ).1 <= input.bank.frames() by {
                        assert(attended(
                            between.status[beam],
                            input.bank.frame_width as int,
                        ).1 <= input.bank.frames());
                    }
                }
                Ok(result)
            },
            Err(error) => {
                assert(concludes(collect, config, *input, between, self.beams(), Err(error)));
                Err(error)
            },
        }
    }
}

/// A copy of values.
fn copy_slice(values: &[u32]) -> (result: Vec<u32>)
    ensures
        result@ == values@,
{
    let mut result: Vec<u32> = Vec::new();
    for index in 0..values.len()
        invariant
            result@ == values@.take(index as int),
    {
        result.push(values[index]);
        assert(result@ =~= values@.take(index + 1));
    }
    assert(values@.take(values@.len() as int) =~= values@);
    result
}

/// A copy of lengths.
fn copy_lengths(values: &[i32]) -> (result: Vec<i32>)
    ensures
        result@ == values@,
{
    let mut result: Vec<i32> = Vec::new();
    for index in 0..values.len()
        invariant
            result@ == values@.take(index as int),
    {
        result.push(values[index]);
        assert(result@ =~= values@.take(index + 1));
    }
    assert(values@.take(values@.len() as int) =~= values@);
    result
}

/// A scan with no more frames to come ends with the beam stopped.
proof fn lemma_flushed_scan_stops(
    evaluate: Weighing,
    config: MemoryAttentionConfig,
    bank: FrameBank,
    beam: int,
    before: Beam,
    chunk: int,
    frame: int,
    after: Beam,
)
    requires
        bank.final_flush,
        scans(evaluate, config, bank, beam, before, chunk, frame, after),
    ensures
        after.status.phase == 1,
    decreases bank.chunk_count - chunk,
{
    if chunk < bank.chunk_count {
        let width = bank.frame_width as int;
        let begin = position(chunk, frame, width);
        let values = choose|values: Chunk|
            {
                &&& #[trigger] evaluates(
                    evaluate,
                    beam,
                    begin,
                    (chunk + 1) * width,
                    before.memory,
                    values,
                )
                &&& {
                    let stop = first_over(values.alpha, 0, config.stop_threshold);
                    let memory = weighed(before.memory, begin, values, stop);
                    if stop < values.alpha.len() {
                        let last = ((begin + stop) % width) as i32;
                        after == (Beam {
                            status: BeamStatus {
                                end_chunk: chunk as i32,
                                end_frame: last,
                                scan_chunk: chunk as i32,
                                scan_frame: last,
                                phase: 1,
                                ..before.status
                            },
                            memory,
                        })
                    } else {
                        scans(
                            evaluate,
                            config,
                            bank,
                            beam,
                            Beam { status: before.status, memory },
                            chunk + 1,
                            0,
                            after,
                        )
                    }
                }
            };
        let stop = first_over(values.alpha, 0, config.stop_threshold);
        let memory = weighed(before.memory, begin, values, stop);
        if stop >= values.alpha.len() {
            lemma_flushed_scan_stops(
                evaluate,
                config,
                bank,
                beam,
                Beam { status: before.status, memory },
                chunk + 1,
                0,
                after,
            );
        }
    }
}

/// When no more frames will come, no beam waits: a step that meets no error is ready.
pub proof fn law_final_flush_does_not_wait(
    evaluate: Weighing,
    config: MemoryAttentionConfig,
    bank: FrameBank,
    active: int,
    index: int,
    before: Beams,
    ready: bool,
    after: Beams,
    result: Result<bool, AttentionError>,
)
    requires
        bank.final_flush,
        all_advance(evaluate, config, bank, active, index, before, ready, after, result),
    ensures
        result matches Ok(all) ==> all == ready,
    decreases active - index,
{
    if index < active {
        let (beam, outcome) = choose|beam: Beam, outcome: Result<bool, AttentionError>|
            {
                &&& #[trigger] advances(
                    evaluate,
                    config,
                    bank,
                    index,
                    beam_at(before, index),
                    beam,
                    outcome,
                )
                &&& match outcome {
                    Ok(own) => all_advance(
                        evaluate,
                        config,
                        bank,
                        active,
                        index + 1,
                        with_beam(before, index, beam),
                        ready && own,
                        after,
                        result,
                    ),
                    Err(error) => after == with_beam(before, index, beam) && result == Err::<
                        bool,
                        AttentionError,
                    >(error),
                }
            };
        if outcome is Ok {
            lemma_flushed_beam_is_ready(
                evaluate,
                config,
                bank,
                index,
                beam_at(before, index),
                beam,
                outcome,
            );
            law_final_flush_does_not_wait(
                evaluate,
                config,
                bank,
                active,
                index + 1,
                with_beam(before, index, beam),
                ready,
                after,
                result,
            );
        }
    }
}

/// Contexts of one size are joined to a context of as many times that size.
proof fn lemma_joined_length(parts: Seq<Context>, hidden: int)
    requires
        forall|beam: int| 0 <= beam < parts.len() ==> (#[trigger] parts[beam]).context.len() == hidden,
    ensures
        joined_context(parts).len() == parts.len() * hidden,
    decreases parts.len(),
{
    if parts.len() > 0 {
        let shorter = parts.drop_last();
        assert forall|beam: int| 0 <= beam < shorter.len() implies (
        #[trigger] shorter[beam]).context.len() == hidden by {
            assert(parts[beam].context.len() == hidden);
        }
        lemma_joined_length(shorter, hidden);
        assert(parts.last() == parts[parts.len() - 1]);
        assert(parts.len() * hidden == shorter.len() * hidden + hidden) by (nonlinear_arith)
            requires
                parts.len() == shorter.len() + 1,
        ;
    } else {
        assert(parts.len() * hidden == 0) by (nonlinear_arith)
            requires
                parts.len() == 0,
        ;
    }
}

/// What a step gives fits the active beams: while a beam waits it is empty, which does not happen
/// when no more frames will come; otherwise there are a context and a flag for each beam, and
/// lengths and passthrough are handed on. Only when no more frames will come is a beam at the end.
pub proof fn law_results_fit_the_beams<
    B: Fn(u32, u32) -> u32,
    S: Fn(u32, u32, u32) -> u32,
    F: Fn(u32, u32, u32) -> u32,
    P: Fn(u32, u32) -> u32,
    M: Fn(u32, u32) -> u32,
    W: Fn(u32, u32) -> u32,
    D: Fn(u32, u32) -> u32,
    H: Fn(u32, u32) -> u32,
    G: Fn(u32, u32) -> u32,
>(
    with: FrameArithmetic<B, S, F, P, M, W, D, H, G>,
    config: MemoryAttentionConfig,
    input: MemoryAttentionInput,
    weight_at_v: Seq<u32>,
    weight_at_v_stop: Seq<u32>,
    before: Beams,
    after: Beams,
    result: Attention,
)
    requires
        attends(
            weighing(with, input, weight_at_v, weight_at_v_stop),
            gathering(with, input, config.hidden_size as int),
            config,
            input,
            before,
            after,
            Ok(result),
        ),
    ensures
        input.bank.final_flush ==> result.ready,
        !result.ready ==> result == waiting(),
        result.ready ==> {
            &&& result.context.len() == input.lengths@.len() * config.hidden_size
            &&& result.flags.len() == input.lengths@.len()
            &&& forall|beam: int|
                0 <= beam < result.flags.len() ==> 0 <= #[trigger] result.flags[beam] <= 3 && (
                result.flags[beam] >= 2 ==> input.bank.final_flush)
            &&& result.lengths == input.lengths@
            &&& result.passthrough == input.passthrough@
        },
{
    let evaluate = weighing(with, input, weight_at_v, weight_at_v_stop);
    let collect = gathering(with, input, config.hidden_size as int);
    let active = input.lengths@.len() as int;
    let width = input.bank.frame_width as int;
    let (between, outcome) = choose|between: Beams, outcome: Result<bool, AttentionError>|
        {
            &&& #[trigger] all_advance(
                evaluate,
                config,
                input.bank,
                active,
                0,
                before,
                true,
                between,
                outcome,
            )
            &&& match outcome {
                Ok(ready) => if ready {
                    concludes(collect, config, input, between, after, Ok(result))
                } else {
                    after == between && Ok::<Attention, AttentionError>(result) == Ok::<
                        Attention,
                        AttentionError,
                    >(waiting())
                },
                Err(error) => after == between && Ok::<Attention, AttentionError>(result) == Err::<
                    Attention,
                    AttentionError,
                >(error),
            }
        };
    if input.bank.final_flush {
        law_final_flush_does_not_wait(
            evaluate,
            config,
            input.bank,
            active,
            0,
            before,
            true,
            between,
            outcome,
        );
    }
    if outcome == Ok::<bool, AttentionError>(true) {
        let parts = choose|parts: Seq<Context>|
            {
                &&& parts.len() == active
                &&& #[trigger] all_collected(collect, between, width, parts)
                &&& Ok::<Attention, AttentionError>(result) == Ok::<Attention, AttentionError>(
                    Attention {
                        ready: true,
                        max_end: last_end(between, width, active),
                        context: joined_context(parts),
                        passthrough: input.passthrough@,
                        flags: beam_flags(config, input.bank, between, parts),
                        lengths: input.lengths@,
                    },
                )
            };
        assert forall|beam: int| 0 <= beam < parts.len() implies (
        #[trigger] parts[beam]).context.len() == config.hidden_size by {
            assert(collects(
                collect,
                beam,
                attended(between.status[beam], width).0,
                attended(between.status[beam], width).1,
                between.memories[beam],
                parts[beam],
            ));
        }
        lemma_joined_length(parts, config.hidden_size as int);
    }
}

proof fn lemma_flushed_beam_is_ready(
    evaluate: Weighing,
    config: MemoryAttentionConfig,
    bank: FrameBank,
    beam: int,
    before: Beam,
    after: Beam,
    result: Result<bool, AttentionError>,
)
    requires
        bank.final_flush,
        advances(evaluate, config, bank, beam, before, after, result),
    ensures
        result is Ok ==> result == Ok::<bool, AttentionError>(true),
{
    let width = bank.frame_width as int;
    let memory = entered(before);
    let status = BeamStatus { frame_width: width as i32, ..before.status };
    let start = first_chosen(
        memory.working,
        position(status.start_chunk as int, status.start_frame as int, width),
        bank.frames(),
        config.choose_threshold,
    );
    let begun = restarted(status, memory, start, width, config.hidden_size as int);
    if scans(
        evaluate,
        config,
        bank,
        beam,
        begun,
        begun.status.scan_chunk as int,
        begun.status.scan_frame as int,
        after,
    ) {
        lemma_flushed_scan_stops(
            evaluate,
            config,
            bank,
            beam,
            begun,
            begun.status.scan_chunk as int,
            begun.status.scan_frame as int,
            after,
        );
    }
    if scans(
        evaluate,
        config,
        bank,
        beam,
        Beam { status, memory },
        status.scan_chunk as int,
        status.scan_frame as int,
        after,
    ) {
        lemma_flushed_scan_stops(
            evaluate,
            config,
            bank,
            beam,
            Beam { status, memory },
            status.scan_chunk as int,
            status.scan_frame as int,
            after,
        );
    }
}

/// Once a step is ready, all active beams are to start anew, and nothing else has changed.
pub proof fn law_ready_beams_start_anew(
    beams: Beams,
    width: int,
    limit: int,
    active: int,
    index: int,
)
    requires
        0 <= index <= active <= beams.status.len(),
        settled(beams, width, limit, active, index).1 is Ok,
    ensures
        settled(beams, width, limit, active, index).0.memories == beams.memories,
        settled(beams, width, limit, active, index).0.status.len() == beams.status.len(),
        forall|beam: int|
            0 <= beam < beams.status.len() ==> (#[trigger] settled(
                beams,
                width,
                limit,
                active,
                index,
            ).0.status[beam]) == if index <= beam < active {
                BeamStatus { phase: 3, ..beams.status[beam] }
            } else {
                beams.status[beam]
            },
    decreases active - index,
{
    if index < active {
        let status = BeamStatus { phase: 3, ..beams.status[index] };
        let after = Beams { status: beams.status.update(index, status), ..beams };
        law_ready_beams_start_anew(after, width, limit, active, index + 1);
        assert forall|beam: int| 0 <= beam < beams.status.len() implies (#[trigger] settled(
            beams,
            width,
            limit,
            active,
            index,
        ).0.status[beam]) == if index <= beam < active {
            BeamStatus { phase: 3, ..beams.status[beam] }
        } else {
            beams.status[beam]
        } by {
            assert(settled(after, width, limit, active, index + 1).0.status[beam] == settled(
                beams,
                width,
                limit,
                active,
                index,
            ).0.status[beam]);
        }
    }
}

/// Gathering beams keeps their number and the width of chunks of each.
pub proof fn law_gathering_keeps_widths(
    beams: Beams,
    limit: int,
    parents: Seq<usize>,
    index: int,
)
    requires
        0 <= index <= parents.len() <= beams.status.len(),
    ensures
        gathered(beams, limit, parents, index).0.status.len() == beams.status.len(),
        forall|beam: int|
            0 <= beam < beams.status.len() ==> (#[trigger] gathered(
                beams,
                limit,
                parents,
                index,
            ).0.status[beam]).frame_width == beams.status[beam].frame_width,
    decreases parents.len() - index,
{
    if index < parents.len() {
        let parent = parents[index] as int;
        let target = beams.status[index];
        let source = beams.status[parent];
        let status = beams.status.update(index, inherited(target, source));
        let (start, end) = inherited_range(target, source);
        if !(end < start || end > limit) {
            let memory = Memory {
                working: written(
                    beams.memories[index].working,
                    start,
                    beams.memories[parent].current.subrange(start, end),
                ),
                ..beams.memories[index]
            };
            let next = Beams { status, memories: beams.memories.update(index, memory) };
            law_gathering_keeps_widths(next, limit, parents, index + 1);
            assert forall|beam: int| 0 <= beam < beams.status.len() implies (#[trigger] gathered(
                beams,
                limit,
                parents,
                index,
            ).0.status[beam]).frame_width == beams.status[beam].frame_width by {
                assert(gathered(next, limit, parents, index + 1).0.status[beam].frame_width
                    == next.status[beam].frame_width);
            }
        }
    }
}

/// The frames before the first chosen one weigh too little, and that one does not.
proof fn lemma_first_chosen(working: Seq<u32>, from: int, count: int, threshold: u32)
    requires
        from <= count,
    ensures
        from <= first_chosen(working, from, count, threshold) <= count,
        forall|at: int|
            from <= at < first_chosen(working, from, count, threshold) ==> is_less(
                #[trigger] working[at],
                threshold,
            ),
        first_chosen(working, from, count, threshold) < count ==> !is_less(
            working[first_chosen(working, from, count, threshold)],
            threshold,
        ),
    decreases count - from,
{
    if from < count && is_less(working[from], threshold) {
        lemma_first_chosen(working, from + 1, count, threshold);
    }
}

/// The frames before the first one over the threshold are not over it, and that one is.
proof fn lemma_first_over(alpha: Seq<u32>, from: int, threshold: u32)
    requires
        0 <= from <= alpha.len(),
    ensures
        from <= first_over(alpha, from, threshold) <= alpha.len(),
        forall|at: int|
            from <= at < first_over(alpha, from, threshold) ==> !is_less(
                threshold,
                #[trigger] alpha[at],
            ),
        first_over(alpha, from, threshold) < alpha.len() ==> is_less(
            threshold,
            alpha[first_over(alpha, from, threshold)],
        ),
    decreases alpha.len() - from,
{
    if from < alpha.len() && !is_less(threshold, alpha[from]) {
        lemma_first_over(alpha, from + 1, threshold);
    }
}

/// Evaluating frames gives a weight and a share for each.
pub open spec fn sized(evaluate: Weighing) -> bool {
    forall|beam: int, begin: int, end: int, memory: Memory, values: Chunk|
        #[trigger] evaluates(evaluate, beam, begin, end, memory, values) ==> values.alpha.len()
            == end - begin && values.beta.len() == end - begin
}

/// A frame is evaluated for a beam and its weight is over the threshold.
pub open spec fn heavy_at(
    evaluate: Weighing,
    beam: int,
    begin: int,
    end: int,
    memory: Memory,
    values: Chunk,
    at: int,
    threshold: u32,
) -> bool {
    &&& evaluates(evaluate, beam, begin, end, memory, values)
    &&& begin <= at < end
    &&& is_less(threshold, values.alpha[at - begin])
}

/// A scan takes the frames in order from where it begins and stops at the first one whose weight is
/// over the threshold. The frames before that one get their weights, none of which is over it, and
/// all other frames keep theirs. A beam that meets no such frame goes to the end of the frames,
/// where it only stops if no more of them will come. Where the beam started does not change.
pub proof fn law_scans_stop_at_the_first_heavy_frame(
    evaluate: Weighing,
    config: MemoryAttentionConfig,
    bank: FrameBank,
    beam: int,
    before: Beam,
    chunk: int,
    frame: int,
    after: Beam,
)
    requires
        sized(evaluate),
        bank.fits(config.sequence_limit as int),
        bank.chunk_count <= i32::MAX,
        bank.frame_width <= i32::MAX,
        0 <= chunk <= bank.chunk_count,
        0 <= frame < bank.frame_width,
        chunk == bank.chunk_count ==> frame == 0,
        before.memory.current.len() == config.sequence_limit,
        scans(evaluate, config, bank, beam, before, chunk, frame, after),
    ensures
        ({
            let width = bank.frame_width as int;
            let begin = position(chunk, frame, width);
            let end = attended(after.status, width).1;
            &&& begin <= end <= bank.frames()
            &&& after.status.scan_chunk == after.status.end_chunk
            &&& after.status.scan_frame == after.status.end_frame
            &&& after.status.start_chunk == before.status.start_chunk
            &&& after.status.start_frame == before.status.start_frame
            &&& after.status.previous_end_chunk == before.status.previous_end_chunk
            &&& after.status.previous_end_frame == before.status.previous_end_frame
            &&& after.memory.working == before.memory.working
            &&& after.memory.current.len() == before.memory.current.len()
            &&& forall|at: int|
                begin <= at < end ==> !is_less(
                    config.stop_threshold,
                    #[trigger] after.memory.current[at],
                )
            &&& forall|at: int|
                0 <= at < before.memory.current.len() && !(begin <= at < end) ==> (
                #[trigger] after.memory.current[at]) == before.memory.current[at]
            &&& after.status.phase == 1 || after.status.phase == -1
            &&& end == bank.frames() ==> (after.status.phase == 1) == bank.final_flush
            &&& end < bank.frames() ==> after.status.phase == 1 && exists|
                first: int,
                last: int,
                memory: Memory,
                values: Chunk,
            |
                #[trigger] heavy_at(
                    evaluate,
                    beam,
                    first,
                    last,
                    memory,
                    values,
                    end,
                    config.stop_threshold,
                )
        }),
    decreases bank.chunk_count - chunk,
{
    let width = bank.frame_width as int;
    let begin = position(chunk, frame, width);
    if chunk < bank.chunk_count {
        let values = choose|values: Chunk|
            {
                &&& #[trigger] evaluates(
                    evaluate,
                    beam,
                    begin,
                    (chunk + 1) * width,
                    before.memory,
                    values,
                )
                &&& {
                    let stop = first_over(values.alpha, 0, config.stop_threshold);
                    let memory = weighed(before.memory, begin, values, stop);
                    if stop < values.alpha.len() {
                        let last = ((begin + stop) % width) as i32;
                        after == (Beam {
                            status: BeamStatus {
                                end_chunk: chunk as i32,
                                end_frame: last,
                                scan_chunk: chunk as i32,
                                scan_frame: last,
                                phase: 1,
                                ..before.status
                            },
                            memory,
                        })
                    } else {
                        scans(
                            evaluate,
                            config,
                            bank,
                            beam,
                            Beam { status: before.status, memory },
                            chunk + 1,
                            0,
                            after,
                        )
                    }
                }
            };
        let next = (chunk + 1) * width;
        assert(next == chunk * width + width) by (nonlinear_arith)
            requires
                next == (chunk + 1) * width,
        ;
        assert(next <= bank.frames()) by (nonlinear_arith)
            requires
                next == (chunk + 1) * width,
                bank.frames() == bank.chunk_count * width,
                chunk + 1 <= bank.chunk_count,
                width > 0,
        ;
        assert(0 <= chunk * width) by (nonlinear_arith)
            requires
                0 <= chunk,
                width > 0,
        ;
        let stop = first_over(values.alpha, 0, config.stop_threshold);
        lemma_first_over(values.alpha, 0, config.stop_threshold);
        let memory = weighed(before.memory, begin, values, stop);
        assert forall|at: int| begin <= at < begin + stop implies !is_less(
            config.stop_threshold,
            #[trigger] memory.current[at],
        ) by {
            assert(values.alpha.take(stop)[at - begin] == values.alpha[at - begin]);
        }
        if stop < values.alpha.len() {
            let end = begin + stop;
            let offset = frame + stop;
            lemma_fundamental_div_mod_converse(end, width, chunk, offset);
            assert(attended(after.status, width).1 == end);
            assert(heavy_at(
                evaluate,
                beam,
                begin,
                next,
                before.memory,
                values,
                end,
                config.stop_threshold,
            ));
        } else {
            law_scans_stop_at_the_first_heavy_frame(
                evaluate,
                config,
                bank,
                beam,
                Beam { status: before.status, memory },
                chunk + 1,
                0,
                after,
            );
            let end = attended(after.status, width).1;
            assert(position(chunk + 1, 0, width) == next);
            assert(begin + stop == next);
            assert forall|at: int| begin <= at < end implies !is_less(
                config.stop_threshold,
                #[trigger] after.memory.current[at],
            ) by {
                if at < next {
                    assert(after.memory.current[at] == memory.current[at]);
                }
            }
        }
    } else {
        assert(begin == bank.frames());
        assert(attended(after.status, width).1 == bank.frames());
    }
}

/// A beam that is to start does so at the first frame, from where it stood on, whose working weight
/// is not under the threshold; without such a frame it attends to none.
pub proof fn law_beams_start_at_the_first_chosen_frame(
    evaluate: Weighing,
    config: MemoryAttentionConfig,
    bank: FrameBank,
    beam: int,
    before: Beam,
    after: Beam,
    ready: bool,
)
    requires
        sized(evaluate),
        bank.fits(config.sequence_limit as int),
        bank.chunk_count <= i32::MAX,
        bank.frame_width <= i32::MAX,
        memory_ok(before.memory, config),
        status_ok(before.status, bank.frame_width as int, config.sequence_limit as int),
        before.status.phase == 3,
        attended(before.status, bank.frame_width as int).0 <= bank.frames(),
        advances(evaluate, config, bank, beam, before, after, Ok(ready)),
    ensures
        ({
            let width = bank.frame_width as int;
            let stood = attended(before.status, width).0;
            let (start, end) = attended(after.status, width);
            &&& stood <= start <= end <= bank.frames()
            &&& after.memory.working == before.memory.working
            &&& forall|at: int|
                stood <= at < start ==> is_less(
                    #[trigger] before.memory.working[at],
                    config.choose_threshold,
                )
            &&& start < bank.frames() ==> !is_less(
                before.memory.working[start],
                config.choose_threshold,
            )
            &&& start == bank.frames() ==> end == start
            &&& ready == (after.status.phase == 1)
        }),
{
    let width = bank.frame_width as int;
    let memory = entered(before);
    let status = BeamStatus { frame_width: width as i32, ..before.status };
    let stood = attended(before.status, width).0;
    let start = first_chosen(memory.working, stood, bank.frames(), config.choose_threshold);
    lemma_first_chosen(memory.working, stood, bank.frames(), config.choose_threshold);
    assert(0 <= stood) by (nonlinear_arith)
        requires
            stood == before.status.start_chunk * width + before.status.start_frame,
            0 <= before.status.start_chunk,
            0 <= before.status.start_frame,
            width > 0,
    ;
    if start < bank.frames() {
        let begun = restarted(status, memory, start, width, config.hidden_size as int);
        lemma_fundamental_div_mod(start, width);
        lemma_mod_bound(start, width);
        let chunk = start / width;
        let frame = start % width;
        assert(0 <= chunk < bank.chunk_count) by (nonlinear_arith)
            requires
                start == width * chunk + frame,
                0 <= frame < width,
                0 <= start < bank.chunk_count * width,
        ;
        assert(position(chunk, frame, width) == start) by (nonlinear_arith)
            requires
                start == width * chunk + frame,
                position(chunk, frame, width) == chunk * width + frame,
        ;
        law_scans_stop_at_the_first_heavy_frame(
            evaluate,
            config,
            bank,
            beam,
            begun,
            chunk,
            frame,
            after,
        );
    }
}

proof fn lemma_joined_parts(parts: Seq<Context>, hidden: int, beam: int)
    requires
        hidden >= 0,
        forall|at: int| 0 <= at < parts.len() ==> (#[trigger] parts[at]).context.len() == hidden,
        0 <= beam < parts.len(),
    ensures
        0 <= beam * hidden,
        beam * hidden + hidden <= joined_context(parts).len(),
        joined_context(parts).subrange(beam * hidden, beam * hidden + hidden)
            == parts[beam].context,
    decreases parts.len(),
{
    let shorter = parts.drop_last();
    assert forall|at: int| 0 <= at < shorter.len() implies (#[trigger] shorter[at]).context.len()
        == hidden by {
        assert(parts[at].context.len() == hidden);
    }
    lemma_joined_length(parts, hidden);
    lemma_joined_length(shorter, hidden);
    assert(0 <= beam * hidden) by (nonlinear_arith)
        requires
            0 <= beam,
            0 <= hidden,
    ;
    if beam < shorter.len() {
        lemma_joined_parts(shorter, hidden, beam);
        assert(joined_context(parts).subrange(beam * hidden, beam * hidden + hidden)
            =~= joined_context(shorter).subrange(beam * hidden, beam * hidden + hidden));
    } else {
        assert(parts.last() == parts[beam]);
        assert(joined_context(parts).subrange(beam * hidden, beam * hidden + hidden)
            =~= parts[beam].context);
    }
}

proof fn lemma_last_end(beams: Beams, width: int, count: int)
    requires
        0 <= count,
    ensures
        forall|beam: int|
            0 <= beam < count ==> attended(#[trigger] beams.status[beam], width).1 <= last_end(
                beams,
                width,
                count,
            ),
        last_end(beams, width, count) == -1 || exists|beam: int|
            0 <= beam < count && attended(#[trigger] beams.status[beam], width).1 == last_end(
                beams,
                width,
                count,
            ),
    decreases count,
{
    if count > 0 {
        lemma_last_end(beams, width, count - 1);
        let before = last_end(beams, width, count - 1);
        if before >= attended(beams.status[count - 1], width).1 && before != -1 {
            let beam = choose|beam: int|
                0 <= beam < count - 1 && attended(#[trigger] beams.status[beam], width).1 == before;
            assert(attended(beams.status[beam], width).1 == last_end(beams, width, count));
        }
    }
}

/// What a ready step tells of each beam: its context is what it gathered from the frames that it
/// attends to, its flag is odd just where these weigh too little, and it is two or more just where
/// no more frames will come and few are left behind its end. The greatest end is the last one of any
/// beam.
pub proof fn law_results_tell_of_each_beam(
    collect: Gathering,
    config: MemoryAttentionConfig,
    input: MemoryAttentionInput,
    before: Beams,
    after: Beams,
    result: Attention,
) -> (parts: Seq<Context>)
    requires
        forall|beam: int, begin: int, end: int, memory: Memory, found: Context|
            #[trigger] collects(collect, beam, begin, end, memory, found) ==> found.context.len()
                == config.hidden_size,
        concludes(collect, config, input, before, after, Ok(result)),
    ensures
        ({
            let width = input.bank.frame_width as int;
            let hidden = config.hidden_size as int;
            let active = input.lengths@.len() as int;
            &&& result.ready
            &&& parts.len() == active
            &&& result.flags.len() == active
            &&& forall|beam: int|
                0 <= beam < active ==> {
                    let (start, end) = attended(before.status[beam], width);
                    let part = #[trigger] parts[beam];
                    &&& collects(collect, beam, start, end, before.memories[beam], part)
                    &&& result.context.subrange(beam * hidden, beam * hidden + hidden)
                        == part.context
                    &&& (result.flags[beam] % 2 == 1) == is_less(
                        part.beta_sum,
                        config.beta_threshold,
                    )
                    &&& (result.flags[beam] >= 2) == (input.bank.final_flush && end
                        + config.end_margin > input.bank.frames())
                    &&& end <= result.max_end
                }
            &&& result.max_end == -1 || exists|beam: int|
                0 <= beam < active && attended(#[trigger] before.status[beam], width).1
                    == result.max_end
        }),
{
    let width = input.bank.frame_width as int;
    let hidden = config.hidden_size as int;
    let active = input.lengths@.len() as int;
    let parts = choose|parts: Seq<Context>|
        {
            &&& parts.len() == active
            &&& #[trigger] all_collected(collect, before, width, parts)
            &&& Ok::<Attention, AttentionError>(result) == Ok::<Attention, AttentionError>(
                Attention {
                    ready: true,
                    max_end: last_end(before, width, active),
                    context: joined_context(parts),
                    passthrough: input.passthrough@,
                    flags: beam_flags(config, input.bank, before, parts),
                    lengths: input.lengths@,
                },
            )
        };
    lemma_last_end(before, width, active);
    assert forall|beam: int| 0 <= beam < active implies (#[trigger] parts[beam]).context.len()
        == hidden by {
        assert(collects(
            collect,
            beam,
            attended(before.status[beam], width).0,
            attended(before.status[beam], width).1,
            before.memories[beam],
            parts[beam],
        ));
    }
    assert forall|beam: int| 0 <= beam < active implies {
        let (start, end) = attended(before.status[beam], width);
        let part = #[trigger] parts[beam];
        &&& collects(collect, beam, start, end, before.memories[beam], part)
        &&& result.context.subrange(beam * hidden, beam * hidden + hidden) == part.context
        &&& (result.flags[beam] % 2 == 1) == is_less(part.beta_sum, config.beta_threshold)
        &&& (result.flags[beam] >= 2) == (input.bank.final_flush && end + config.end_margin
            > input.bank.frames())
        &&& end <= result.max_end
    } by {
        lemma_joined_parts(parts, hidden, beam);
        assert(attended(before.status[beam], width).1 <= last_end(before, width, active));
        assert(result.flags[beam] == beam_flag(
            config,
            input.bank,
            parts[beam].beta_sum,
            attended(before.status[beam], width).1,
        ));
    }
    parts
}

/// Gathering copies beams: where no parent was overwritten before it was read, each beam starts and
/// ends where its parent did and goes on from there, remembers its own end as the previous one, and
/// takes over its parent's weights as working ones. Nothing else of any memory changes.
pub proof fn law_gathered_beams_follow_their_parents(
    beams: Beams,
    limit: int,
    parents: Seq<usize>,
    index: int,
)
    requires
        0 <= index <= parents.len() <= beams.status.len(),
        beams.status.len() == beams.memories.len(),
        forall|beam: int|
            0 <= beam < beams.status.len() ==> {
                let status = #[trigger] beams.status[beam];
                status.start_chunk >= 0 && status.start_frame >= 0 && status.frame_width >= 0
            },
        forall|beam: int|
            0 <= beam < beams.memories.len() ==> {
                let memory = #[trigger] beams.memories[beam];
                memory.current.len() == limit && memory.working.len() == limit
            },
        forall|beam: int|
            index <= beam < parents.len() ==> beam <= #[trigger] parents[beam] < parents.len(),
        gathered(beams, limit, parents, index).1 is Ok,
    ensures
        ({
            let after = gathered(beams, limit, parents, index).0;
            &&& after.memories.len() == beams.memories.len()
            &&& after.status.len() == beams.status.len()
            &&& forall|beam: int|
                0 <= beam < beams.memories.len() ==> {
                    let memory = #[trigger] after.memories[beam];
                    &&& memory.current == beams.memories[beam].current
                    &&& memory.beta == beams.memories[beam].beta
                    &&& memory.prefix == beams.memories[beam].prefix
                    &&& memory.product == beams.memories[beam].product
                    &&& memory.working.len() == beams.memories[beam].working.len()
                }
            &&& forall|beam: int|
                0 <= beam < index || parents.len() <= beam < beams.status.len()
                    ==> #[trigger] after.status[beam] == beams.status[beam]
                    && after.memories[beam] == beams.memories[beam]
            &&& forall|beam: int|
                index <= beam < parents.len() ==> {
                    let own = beams.status[beam];
                    let parent = beams.status[parents[beam] as int];
                    let status = #[trigger] after.status[beam];
                    let (start, end) = inherited_range(own, parent);
                    &&& status.start_chunk == parent.start_chunk
                    &&& status.start_frame == parent.start_frame
                    &&& status.end_chunk == parent.end_chunk
                    &&& status.end_frame == parent.end_frame
                    &&& status.scan_chunk == parent.scan_chunk
                    &&& status.scan_frame == parent.scan_frame
                    &&& status.phase == parent.phase
                    &&& status.previous_end_chunk == own.end_chunk
                    &&& status.previous_end_frame == own.end_frame
                    &&& status.frame_width == own.frame_width
                    &&& start <= end <= limit
                    &&& forall|at: int|
                        0 <= at < beams.memories[beam].working.len() ==> (
                        #[trigger] after.memories[beam].working[at]) == if start <= at < end {
                            beams.memories[parents[beam] as int].current[at]
                        } else {
                            beams.memories[beam].working[at]
                        }
                }
        }),
    decreases parents.len() - index,
{
    if index < parents.len() {
        let parent = parents[index] as int;
        let target = beams.status[index];
        let source = beams.status[parent];
        let status = beams.status.update(index, inherited(target, source));
        let (start, end) = inherited_range(target, source);
        assert(0 <= start) by {
            let width = if target.frame_width < 1 {
                source.frame_width as int
            } else {
                target.frame_width as int
            };
            assert(0 <= source.start_chunk * width) by (nonlinear_arith)
                requires
                    0 <= source.start_chunk,
                    0 <= width,
            ;
        }
        let memory = Memory {
            working: written(
                beams.memories[index].working,
                start,
                beams.memories[parent].current.subrange(start, end),
            ),
            ..beams.memories[index]
        };
        let next = Beams { status, memories: beams.memories.update(index, memory) };
        law_gathered_beams_follow_their_parents(next, limit, parents, index + 1);
        let after = gathered(next, limit, parents, index + 1).0;
        assert(after == gathered(beams, limit, parents, index).0);
        assert(after.status[index] == inherited(target, source));
        assert(after.memories[index] == memory);
        assert forall|at: int| 0 <= at < beams.memories[index].working.len() implies (
        #[trigger] after.memories[index].working[at]) == if start <= at < end {
            beams.memories[parent].current[at]
        } else {
            beams.memories[index].working[at]
        } by {
            if start <= at < end {
                assert(beams.memories[parent].current.subrange(start, end)[at - start]
                    == beams.memories[parent].current[at]);
            }
        }
    }
}

}
