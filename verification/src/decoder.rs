//! What the decoder's models are run on: a row for each beam, and the chunks that have come in.

use vstd::prelude::*;

use crate::beam;
use crate::beam::BeamSearchResult;
use crate::encoder;
use crate::encoder::{EncoderChunk, ENCODER_CHUNK_FRAMES, HIDDEN_SIZE};

verus! {

/// How many beams the models have rows for.
pub const MAX_BEAMS: usize = 8;

/// The token that starts every path.
pub const START_TOKEN_ID: i32 = 14_829;

/// How many frames a search may take.
pub const FRAME_BUDGET: usize = 768;

/// How many frames attention can hold.
pub const SEQUENCE_LIMIT: usize = 2_048;

/// How often the decoder may be called.
pub const MAX_DECODER_CALLS: usize = 2_048;

/// Why decoding cannot go on.
#[derive(Clone, Copy, Debug, PartialEq, Eq, Structural)]
pub enum DecoderError {
    /// There are more chunks than attention can hold.
    Capacity,
    /// A chunk does not have its shape.
    ChunkShape,
    /// The decoder was called too often.
    CallLimit,
    /// Attention waits for frames that will not come.
    Stalled,
}

/// Values with `filler` after them, up to a size.
pub open spec fn padded<T>(values: Seq<T>, filler: T, size: int) -> Seq<T> {
    values + Seq::new((size - values.len()) as nat, |index: int| filler)
}

/// Values with `filler` after them.
pub fn pad_values<T: Copy>(values: &[T], filler: T, size: usize) -> (result: Vec<T>)
    requires
        values@.len() <= size,
    ensures
        result@ == padded(values@, filler, size as int),
{
    let mut result: Vec<T> = Vec::new();
    let count: usize = values.len();
    for index in 0..size
        invariant
            count == values@.len() <= size,
            result@ == padded(values@, filler, size as int).take(index as int),
    {
        result.push(
            if index < count {
                values[index]
            } else {
                filler
            },
        );
        assert(result@ =~= padded(values@, filler, size as int).take(index + 1));
    }
    assert(result@ =~= padded(values@, filler, size as int));
    result
}

/// The rows of the beams: the label and the length of each, and how many are active.
#[derive(Debug)]
pub struct DecoderRows {
    labels: Vec<i32>,
    lengths: Vec<i32>,
    active_count: usize,
    done: bool,
}

/// The content of the rows.
#[verifier::ext_equal]
pub struct Rows {
    pub labels: Seq<i32>,
    pub lengths: Seq<i32>,
    pub active: int,
    pub done: bool,
}

impl View for DecoderRows {
    type V = Rows;

    closed spec fn view(&self) -> Rows {
        Rows {
            labels: self.labels@,
            lengths: self.lengths@,
            active: self.active_count as int,
            done: self.done,
        }
    }
}

/// The rows of a search that starts: one beam, with the token that starts every path.
pub open spec fn first_rows() -> Rows {
    Rows {
        labels: padded(seq![START_TOKEN_ID], 0, MAX_BEAMS as int),
        lengths: padded(Seq::<i32>::empty(), 0, MAX_BEAMS as int),
        active: 1,
        done: false,
    }
}

/// The rows after a step of the search: one for each candidate. Without candidates the search is
/// done, and the rows stay as they are.
pub open spec fn next_rows(before: Rows, found: beam::Outcome) -> Rows {
    let count = found.candidates.len();
    if count == 0 {
        Rows { active: 0, done: true, ..before }
    } else {
        Rows {
            labels: padded(
                Seq::new(count, |index: int| beam::token_id(found.candidates[index])),
                0,
                MAX_BEAMS as int,
            ),
            lengths: padded(
                Seq::new(count, |index: int| found.candidates[index].step as usize as i32),
                0,
                MAX_BEAMS as int,
            ),
            active: count as int,
            done: before.done,
        }
    }
}

/// The labels of the first rows.
fn first_labels() -> (labels: Vec<i32>)
    ensures
        labels@ == first_rows().labels,
{
    let mut start: Vec<i32> = Vec::new();
    start.push(START_TOKEN_ID);
    assert(start@ =~= seq![START_TOKEN_ID]);
    pad_values(start.as_slice(), 0, MAX_BEAMS)
}

impl DecoderRows {
    /// The rows of a search that starts.
    pub fn new() -> (rows: Self)
        ensures
            rows@ == first_rows(),
    {
        let none: Vec<i32> = Vec::new();
        assert(none@ =~= Seq::<i32>::empty());
        DecoderRows {
            labels: first_labels(),
            lengths: pad_values(none.as_slice(), 0, MAX_BEAMS),
            active_count: 1,
            done: false,
        }
    }

    /// The label of each row.
    pub fn labels(&self) -> (result: &[i32])
        ensures
            result@ == self@.labels,
    {
        self.labels.as_slice()
    }

    /// The length of each row.
    pub fn lengths(&self) -> (result: &[i32])
        ensures
            result@ == self@.lengths,
    {
        self.lengths.as_slice()
    }

    /// How many rows are active.
    pub fn active_count(&self) -> (result: usize)
        ensures
            result == self@.active,
    {
        self.active_count
    }

    /// Whether the search is done.
    pub fn done(&self) -> (result: bool)
        ensures
            result == self@.done,
    {
        self.done
    }

    /// Takes over the candidates of a step of the search; whether there are any.
    pub fn accept(&mut self, found: &BeamSearchResult) -> (result: bool)
        requires
            found.candidates@.len() <= MAX_BEAMS,
            forall|index: int|
                0 <= index < found.candidates@.len() ==> #[trigger] found.candidates@[index].token
                    > i32::MIN,
        ensures
            final(self)@ == next_rows(old(self)@, found@),
            result == (found@.candidates.len() > 0),
    {
        let count: usize = found.candidates.len();
        if count == 0 {
            self.active_count = 0;
            self.done = true;
            return false;
        }
        let labels: Vec<i32> = found.token_ids();
        let lengths: Vec<i32> = found.lengths();
        proof {
            assert(labels@ =~= Seq::new(
                count as nat,
                |index: int| beam::token_id(found@.candidates[index]),
            ));
            assert(lengths@ =~= Seq::new(
                count as nat,
                |index: int| found@.candidates[index].step as usize as i32,
            ));
        }
        self.labels = pad_values(labels.as_slice(), 0, MAX_BEAMS);
        self.lengths = pad_values(lengths.as_slice(), 0, MAX_BEAMS);
        self.active_count = count;
        true
    }
}

/// The chunks of the encoder's output that have come in, one after the other.
#[derive(Debug)]
pub struct EncoderBank<A> {
    pub conformer_output: Vec<A>,
    pub conformer_mask: Vec<A>,
    pub at_h: Vec<A>,
    pub chunk_at_h: Vec<A>,
    pub enc_mem_h: Vec<A>,
    pub chunk_count: usize,
}

/// The content of a bank.
#[verifier::ext_equal]
pub struct Bank<A> {
    pub chunks: encoder::Chunk<A>,
    pub count: int,
}

impl<A> View for EncoderBank<A> {
    type V = Bank<A>;

    open spec fn view(&self) -> Bank<A> {
        Bank {
            chunks: encoder::Chunk {
                conformer_output: self.conformer_output@,
                conformer_mask: self.conformer_mask@,
                at_h: self.at_h@,
                chunk_at_h: self.chunk_at_h@,
                enc_mem_h: self.enc_mem_h@,
            },
            count: self.chunk_count as int,
        }
    }
}

/// A chunk has its shape.
pub open spec fn has_chunk_shape<A>(chunk: encoder::Chunk<A>) -> bool {
    let size = ENCODER_CHUNK_FRAMES * HIDDEN_SIZE;
    &&& chunk.conformer_output.len() == size
    &&& chunk.at_h.len() == size
    &&& chunk.chunk_at_h.len() == size
    &&& chunk.enc_mem_h.len() == size
    &&& chunk.conformer_mask.len() == ENCODER_CHUNK_FRAMES
}

/// Values one after the other.
pub open spec fn with_chunk<A>(left: encoder::Chunk<A>, right: encoder::Chunk<A>) -> encoder::Chunk<
    A,
> {
    encoder::Chunk {
        conformer_output: left.conformer_output + right.conformer_output,
        conformer_mask: left.conformer_mask + right.conformer_mask,
        at_h: left.at_h + right.at_h,
        chunk_at_h: left.chunk_at_h + right.chunk_at_h,
        enc_mem_h: left.enc_mem_h + right.enc_mem_h,
    }
}

impl<A> Bank<A> {
    /// The bank holds as many frames as its chunks have, and no more than attention can hold.
    pub open spec fn wf(self) -> bool {
        let frames = self.count * ENCODER_CHUNK_FRAMES;
        &&& 0 <= frames <= SEQUENCE_LIMIT
        &&& self.chunks.conformer_output.len() == frames * HIDDEN_SIZE
        &&& self.chunks.conformer_mask.len() == frames
        &&& self.chunks.at_h.len() == frames * HIDDEN_SIZE
        &&& self.chunks.chunk_at_h.len() == frames * HIDDEN_SIZE
        &&& self.chunks.enc_mem_h.len() == frames * HIDDEN_SIZE
    }
}

impl<A> EncoderBank<A> {
    /// No chunks.
    pub fn new() -> (bank: Self)
        ensures
            bank@.count == 0,
            bank@.wf(),
    {
        EncoderBank {
            conformer_output: Vec::new(),
            conformer_mask: Vec::new(),
            at_h: Vec::new(),
            chunk_at_h: Vec::new(),
            enc_mem_h: Vec::new(),
            chunk_count: 0,
        }
    }

    /// Takes in one more chunk.
    pub fn append(&mut self, chunk: EncoderChunk<A>) -> (result: Result<(), DecoderError>)
        requires
            old(self)@.wf(),
        ensures
            final(self)@.wf(),
            match result {
                Ok(_) => old(self)@.count * ENCODER_CHUNK_FRAMES < SEQUENCE_LIMIT
                    && has_chunk_shape(chunk@) && final(self)@ == (Bank {
                    chunks: with_chunk(old(self)@.chunks, chunk@),
                    count: old(self)@.count + 1,
                }),
                Err(error) => final(self)@ == old(self)@ && if old(self)@.count
                    * ENCODER_CHUNK_FRAMES >= SEQUENCE_LIMIT {
                    error == DecoderError::Capacity
                } else {
                    error == DecoderError::ChunkShape && !has_chunk_shape(chunk@)
                },
            },
    {
        if self.chunk_count * ENCODER_CHUNK_FRAMES >= SEQUENCE_LIMIT {
            return Err(DecoderError::Capacity);
        }
        let hidden: usize = ENCODER_CHUNK_FRAMES * HIDDEN_SIZE;
        if chunk.conformer_output.len() != hidden || chunk.at_h.len() != hidden
            || chunk.chunk_at_h.len() != hidden || chunk.enc_mem_h.len() != hidden
            || chunk.conformer_mask.len() != ENCODER_CHUNK_FRAMES {
            return Err(DecoderError::ChunkShape);
        }
        let mut output: Vec<A> = chunk.conformer_output;
        let mut mask: Vec<A> = chunk.conformer_mask;
        let mut at_h: Vec<A> = chunk.at_h;
        let mut chunk_at_h: Vec<A> = chunk.chunk_at_h;
        let mut enc_mem_h: Vec<A> = chunk.enc_mem_h;
        self.conformer_output.append(&mut output);
        self.conformer_mask.append(&mut mask);
        self.at_h.append(&mut at_h);
        self.chunk_at_h.append(&mut chunk_at_h);
        self.enc_mem_h.append(&mut enc_mem_h);
        self.chunk_count = self.chunk_count + 1;
        Ok(())
    }
}

/// How many chunks are decoded one by one: at the end of the input, the last two are decoded
/// together.
pub fn chunks_one_by_one(count: usize, last: bool) -> (result: usize)
    ensures
        result == if !last {
            count as int
        } else if count < 2 {
            0
        } else {
            count - 2
        },
{
    if !last {
        count
    } else if count < 2 {
        0
    } else {
        count - 2
    }
}

/// How often the decoder was called.
#[derive(Debug)]
pub struct DecoderPump {
    calls: usize,
}

impl View for DecoderPump {
    type V = int;

    closed spec fn view(&self) -> int {
        self.calls as int
    }
}

impl DecoderPump {
    /// The decoder is not called more often than it may be.
    pub open spec fn wf(&self) -> bool {
        0 <= self@ <= MAX_DECODER_CALLS
    }

    /// The decoder was not called.
    pub fn new() -> (pump: Self)
        ensures
            pump@ == 0,
            pump.wf(),
    {
        DecoderPump { calls: 0 }
    }

    /// Decides whether to call the decoder: not before the first chunk, nor when the search is done.
    pub fn ready(&self, chunk_count: usize, done: bool) -> (result: Result<bool, DecoderError>)
        ensures
            result == if chunk_count == 0 || done {
                Ok::<bool, DecoderError>(false)
            } else if self@ >= MAX_DECODER_CALLS {
                Err(DecoderError::CallLimit)
            } else {
                Ok(true)
            },
    {
        if chunk_count == 0 || done {
            Ok(false)
        } else if self.calls >= MAX_DECODER_CALLS {
            Err(DecoderError::CallLimit)
        } else {
            Ok(true)
        }
    }

    /// Counts a call; whether to call the decoder again. It goes on as long as attention is ready;
    /// at the end of the input, attention must be.
    pub fn called(&mut self, ready: bool, final_flush: bool) -> (result: Result<bool, DecoderError>)
        requires
            old(self).wf(),
            old(self)@ < MAX_DECODER_CALLS,
        ensures
            final(self).wf(),
            final(self)@ == old(self)@ + 1,
            result == if ready {
                Ok::<bool, DecoderError>(true)
            } else if final_flush {
                Err(DecoderError::Stalled)
            } else {
                Ok(false)
            },
    {
        self.calls = self.calls + 1;
        if ready {
            Ok(true)
        } else if final_flush {
            Err(DecoderError::Stalled)
        } else {
            Ok(false)
        }
    }
}

}
