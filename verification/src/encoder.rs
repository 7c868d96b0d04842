//! The encoder's buffers: samples become windows of features, the first model's output becomes
//! windows for the second one, and its output becomes chunks. Running the models is left to the
//! caller.

use vstd::prelude::*;

use crate::frontend;
use crate::frontend::{
    sample_part, OriginalFeatureExtractor, FEATURE_SIZE, FRAME_LENGTH, FRAME_SHIFT,
};

verus! {

/// The size of the models' hidden vectors.
pub const HIDDEN_SIZE: usize = 512;

/// How many frames the first model takes at once.
pub const VGG_CHUNK_FRAMES: usize = 68;

/// How many frames the first model moves on by.
pub const VGG_STRIDE_FRAMES: usize = 64;

/// How many frames the first model gives at once.
pub const VGG_OUTPUT_FRAMES: usize = 32;

/// How many outputs of the first model are blanked at the start.
pub const VGG_STARTUP_BLANKS: usize = 2;

/// How many frames the second model takes at once.
pub const CONFORMER_WINDOW_FRAMES: usize = 64;

/// How many frames the second model moves on by.
pub const CONFORMER_STRIDE_FRAMES: usize = 32;

/// How many chunks the second model gives at once.
pub const CONFORMER_OUTPUT_CHUNKS: usize = 2;

/// How many frames a chunk has.
pub const ENCODER_CHUNK_FRAMES: usize = 16;

/// How many outputs of the second model are blanked at the start.
pub const CONFORMER_STARTUP_BLANKS: usize = 1;

/// Why the encoder cannot go on.
#[derive(Clone, Copy, Debug, PartialEq, Eq, Structural)]
pub enum EncoderError {
    /// The encoder is already finalised.
    Finalized,
    /// The encoder was primed after it had started.
    Started,
    /// The first model's output does not have its shape.
    VggShape,
    /// The second model's output does not have its shape.
    ConformerShape,
}

/// A chunk of the encoder's output.
#[derive(Debug)]
pub struct EncoderChunk<A> {
    pub conformer_output: Vec<A>,
    pub conformer_mask: Vec<A>,
    pub at_h: Vec<A>,
    pub chunk_at_h: Vec<A>,
    pub enc_mem_h: Vec<A>,
}

/// The content of a chunk.
#[verifier::ext_equal]
pub struct Chunk<A> {
    pub conformer_output: Seq<A>,
    pub conformer_mask: Seq<A>,
    pub at_h: Seq<A>,
    pub chunk_at_h: Seq<A>,
    pub enc_mem_h: Seq<A>,
}

impl<A> View for EncoderChunk<A> {
    type V = Chunk<A>;

    open spec fn view(&self) -> Chunk<A> {
        Chunk {
            conformer_output: self.conformer_output@,
            conformer_mask: self.conformer_mask@,
            at_h: self.at_h@,
            chunk_at_h: self.chunk_at_h@,
            enc_mem_h: self.enc_mem_h@,
        }
    }
}

/// One of the parts that values fall into, or zeros when it is blank.
pub open spec fn chunk_part<A>(values: Seq<A>, zero: A, size: int, chunk: int, blank: bool) -> Seq<A> {
    if blank {
        Seq::new(size as nat, |index: int| zero)
    } else {
        values.subrange(chunk * size, chunk * size + size)
    }
}

/// The outputs of the second model.
#[verifier::ext_equal]
pub struct Outputs<A> {
    pub output: Seq<A>,
    pub mask: Seq<A>,
    pub at_h: Seq<A>,
    pub chunk_at_h: Seq<A>,
    pub enc_mem_h: Seq<A>,
}

/// The outputs of the second model have their shapes.
pub open spec fn has_conformer_shape<A>(outputs: Outputs<A>) -> bool {
    let size = CONFORMER_OUTPUT_CHUNKS * ENCODER_CHUNK_FRAMES * HIDDEN_SIZE;
    &&& outputs.output.len() == size
    &&& outputs.at_h.len() == size
    &&& outputs.chunk_at_h.len() == size
    &&& outputs.enc_mem_h.len() == size
    &&& outputs.mask.len() == CONFORMER_OUTPUT_CHUNKS * ENCODER_CHUNK_FRAMES
}

/// One of the chunks that the outputs of the second model fall into.
pub open spec fn chunk_of<A>(outputs: Outputs<A>, zero: A, chunk: int, blank: bool) -> Chunk<A> {
    let size = ENCODER_CHUNK_FRAMES * HIDDEN_SIZE;
    Chunk {
        conformer_output: chunk_part(outputs.output, zero, size, chunk, blank),
        conformer_mask: chunk_part(
            outputs.mask,
            zero,
            ENCODER_CHUNK_FRAMES as int,
            chunk,
            blank,
        ),
        at_h: chunk_part(outputs.at_h, zero, size, chunk, blank),
        chunk_at_h: chunk_part(outputs.chunk_at_h, zero, size, chunk, blank),
        enc_mem_h: chunk_part(outputs.enc_mem_h, zero, size, chunk, blank),
    }
}

/// A copy of values from `from` to `to`.
pub(crate) fn copy_part<A: Copy>(values: &[A], from: usize, to: usize) -> (result: Vec<A>)
    requires
        from <= to <= values@.len(),
    ensures
        result@ == values@.subrange(from as int, to as int),
{
    let mut result: Vec<A> = Vec::new();
    for index in from..to
        invariant
            from <= to <= values@.len(),
            result@ == values@.subrange(from as int, index as int),
    {
        result.push(values[index]);
        assert(result@ =~= values@.subrange(from as int, index + 1));
    }
    result
}

/// A value so many times.
fn repeated<A: Copy>(value: A, count: usize) -> (result: Vec<A>)
    ensures
        result@ == Seq::new(count as nat, |index: int| value),
{
    let mut result: Vec<A> = Vec::new();
    for index in 0..count
        invariant
            result@ == Seq::new(index as nat, |place: int| value),
    {
        result.push(value);
        assert(result@ =~= Seq::new((index + 1) as nat, |place: int| value));
    }
    assert(result@ =~= Seq::new(count as nat, |index: int| value));
    result
}

/// One of the two parts that values fall into, or zeros when it is blank.
fn select_part<A: Copy>(values: &[A], zero: A, size: usize, chunk: usize, blank: bool) -> (result:
    Vec<A>)
    requires
        chunk < 2,
        size <= 8_192,
        values@.len() == 2 * size,
    ensures
        result@ == chunk_part(values@, zero, size as int, chunk as int, blank),
{
    if blank {
        repeated(zero, size)
    } else {
        let start: usize = if chunk == 0 {
            0
        } else {
            size
        };
        assert(start == chunk * size) by (nonlinear_arith)
            requires
                (chunk == 0 && start == 0) || (chunk == 1 && start == size),
        ;
        copy_part(values, start, start + size)
    }
}

/// Splits the outputs of the second model into their two chunks.
pub fn split_conformer_output<A: Copy>(
    output: &[A],
    mask: &[A],
    at_h: &[A],
    chunk_at_h: &[A],
    enc_mem_h: &[A],
    zero: A,
    blank: bool,
) -> (result: Result<(EncoderChunk<A>, EncoderChunk<A>), EncoderError>)
    ensures
        ({
            let outputs = Outputs {
                output: output@,
                mask: mask@,
                at_h: at_h@,
                chunk_at_h: chunk_at_h@,
                enc_mem_h: enc_mem_h@,
            };
            match result {
                Ok((first, second)) => has_conformer_shape(outputs) && first@ == chunk_of(
                    outputs,
                    zero,
                    0,
                    blank,
                ) && second@ == chunk_of(outputs, zero, 1, blank),
                Err(error) => !has_conformer_shape(outputs) && error
                    == EncoderError::ConformerShape,
            }
        }),
{
    let size: usize = ENCODER_CHUNK_FRAMES * HIDDEN_SIZE;
    if output.len() != 2 * size || at_h.len() != 2 * size || chunk_at_h.len() != 2 * size
        || enc_mem_h.len() != 2 * size || mask.len() != 2 * ENCODER_CHUNK_FRAMES {
        return Err(EncoderError::ConformerShape);
    }
    let first = EncoderChunk {
        conformer_output: select_part(output, zero, size, 0, blank),
        conformer_mask: select_part(mask, zero, ENCODER_CHUNK_FRAMES, 0, blank),
        at_h: select_part(at_h, zero, size, 0, blank),
        chunk_at_h: select_part(chunk_at_h, zero, size, 0, blank),
        enc_mem_h: select_part(enc_mem_h, zero, size, 0, blank),
    };
    let second = EncoderChunk {
        conformer_output: select_part(output, zero, size, 1, blank),
        conformer_mask: select_part(mask, zero, ENCODER_CHUNK_FRAMES, 1, blank),
        at_h: select_part(at_h, zero, size, 1, blank),
        chunk_at_h: select_part(chunk_at_h, zero, size, 1, blank),
        enc_mem_h: select_part(enc_mem_h, zero, size, 1, blank),
    };
    Ok((first, second))
}

/// The two chunks together hold what the second model gave.
pub proof fn law_chunks_hold_the_output<A>(outputs: Outputs<A>, zero: A)
    requires
        has_conformer_shape(outputs),
    ensures
        chunk_of(outputs, zero, 0, false).conformer_output + chunk_of(
            outputs,
            zero,
            1,
            false,
        ).conformer_output == outputs.output,
        chunk_of(outputs, zero, 0, false).conformer_mask + chunk_of(
            outputs,
            zero,
            1,
            false,
        ).conformer_mask == outputs.mask,
        chunk_of(outputs, zero, 0, false).at_h + chunk_of(outputs, zero, 1, false).at_h
            == outputs.at_h,
        chunk_of(outputs, zero, 0, false).chunk_at_h + chunk_of(outputs, zero, 1, false).chunk_at_h
            == outputs.chunk_at_h,
        chunk_of(outputs, zero, 0, false).enc_mem_h + chunk_of(outputs, zero, 1, false).enc_mem_h
            == outputs.enc_mem_h,
{
    let first = chunk_of(outputs, zero, 0, false);
    let second = chunk_of(outputs, zero, 1, false);
    assert(first.conformer_output + second.conformer_output =~= outputs.output);
    assert(first.conformer_mask + second.conformer_mask =~= outputs.mask);
    assert(first.at_h + second.at_h =~= outputs.at_h);
    assert(first.chunk_at_h + second.chunk_at_h =~= outputs.chunk_at_h);
    assert(first.enc_mem_h + second.enc_mem_h =~= outputs.enc_mem_h);
}

/// A window of features for the first model: how many of its frames are there, and whether its
/// output is to be used.
#[derive(Debug)]
pub struct FeatureWindow {
    pub features: Vec<i32>,
    pub frames: usize,
    pub publish: bool,
}

/// The content of a window.
#[verifier::ext_equal]
pub struct Window {
    pub features: Seq<i32>,
    pub frames: int,
    pub publish: bool,
}

impl View for FeatureWindow {
    type V = Window;

    open spec fn view(&self) -> Window {
        Window { features: self.features@, frames: self.frames as int, publish: self.publish }
    }
}

/// The content of a window, if any.
pub open spec fn window_view(window: Option<FeatureWindow>) -> Option<Window> {
    match window {
        Some(window) => Some(window@),
        None => None,
    }
}

/// The content of the encoder's buffers.
#[verifier::ext_equal]
pub struct Buffers<T, A> {
    pub pcm: Seq<i16>,
    pub cursor: int,
    pub features: Seq<i32>,
    pub vgg_output: Seq<T>,
    pub vgg_mask: Seq<T>,
    pub pending: Option<Chunk<A>>,
    pub vgg_calls: int,
    pub conformer_calls: int,
    pub finalized: bool,
}

impl<T, A> Buffers<T, A> {
    /// The buffers hold whole frames.
    pub open spec fn wf(self) -> bool {
        &&& 0 <= self.cursor <= self.pcm.len()
        &&& self.features.len() % FEATURE_SIZE as nat == 0
        &&& self.vgg_output.len() == self.vgg_mask.len() * HIDDEN_SIZE
    }

    /// Nothing has come in.
    pub open spec fn fresh() -> Self {
        Buffers {
            pcm: Seq::empty(),
            cursor: 0,
            features: Seq::empty(),
            vgg_output: Seq::empty(),
            vgg_mask: Seq::empty(),
            pending: None,
            vgg_calls: 0,
            conformer_calls: 0,
            finalized: false,
        }
    }
}

/// The samples after those up to `end` have been used: they are dropped once they make a frame,
/// and all of them at the end of the input.
pub open spec fn rest_of_pcm(pcm: Seq<i16>, end: int, last: bool) -> (Seq<i16>, int) {
    if last {
        (Seq::empty(), 0)
    } else if end >= FRAME_LENGTH {
        (pcm.skip(end), 0)
    } else {
        (pcm, end)
    }
}

/// The buffers after more samples have come in.
pub open spec fn with_pcm<T, A>(
    before: Buffers<T, A>,
    tables: Seq<u8>,
    samples: Seq<i16>,
    last: bool,
) -> Buffers<T, A> {
    let pcm = before.pcm + samples;
    let open = pcm.skip(before.cursor);
    let count = frontend::frame_count(open.len() as int);
    let rest = rest_of_pcm(pcm, before.cursor + count * FRAME_SHIFT, last);
    Buffers {
        pcm: rest.0,
        cursor: rest.1,
        features: before.features + frontend::frames_features(
            tables,
            open,
            FEATURE_SIZE as int,
            count,
        ),
        ..before
    }
}

/// It makes no difference in which pieces samples come in: the features are the same, and so are the
/// samples that are left over.
pub proof fn law_pieces_make_no_difference<T, A>(
    before: Buffers<T, A>,
    tables: Seq<u8>,
    first: Seq<i16>,
    second: Seq<i16>,
    last: bool,
)
    requires
        before.wf(),
    ensures
        ({
            let pieces = with_pcm(with_pcm(before, tables, first, false), tables, second, last);
            let whole = with_pcm(before, tables, first + second, last);
            &&& pieces.features == whole.features
            &&& pieces.pcm.skip(pieces.cursor) == whole.pcm.skip(whole.cursor)
            &&& pieces.vgg_output == whole.vgg_output
            &&& pieces.vgg_mask == whole.vgg_mask
            &&& pieces.pending == whole.pending
        }),
{
    let between = with_pcm(before, tables, first, false);
    let pieces = with_pcm(between, tables, second, last);
    let whole = with_pcm(before, tables, first + second, last);
    let open = (before.pcm + first).skip(before.cursor);
    let count = frontend::frame_count(open.len() as int);
    let rest = (open + second).skip(count * FRAME_SHIFT);
    frontend::law_pieces_give_the_same_features(tables, open, second, FEATURE_SIZE as int);
    assert((before.pcm + (first + second)).skip(before.cursor) =~= open + second);
    assert((between.pcm + second).skip(between.cursor) =~= rest);
    assert(pieces.features =~= whole.features);
    assert(pieces.pcm.skip(pieces.cursor) =~= whole.pcm.skip(whole.cursor));
}

/// Windows overlap: each one starts with the last frames of the one before it.
pub proof fn law_windows_overlap<T, A>(buffers: Buffers<T, A>, after: Buffers<T, A>)
    requires
        after.features == buffers.features.skip(VGG_STRIDE_FRAMES * FEATURE_SIZE),
        next_window(buffers) is Some,
        next_window(after) is Some,
    ensures
        next_window(buffers)->0.features.skip(VGG_STRIDE_FRAMES * FEATURE_SIZE) == next_window(
            after,
        )->0.features.take((VGG_CHUNK_FRAMES - VGG_STRIDE_FRAMES) * FEATURE_SIZE),
{
    assert(next_window(buffers)->0.features.skip(VGG_STRIDE_FRAMES * FEATURE_SIZE) =~= next_window(
        after,
    )->0.features.take((VGG_CHUNK_FRAMES - VGG_STRIDE_FRAMES) * FEATURE_SIZE));
}

/// The next whole window of features, if there is one.
pub open spec fn next_window<T, A>(buffers: Buffers<T, A>) -> Option<Window> {
    let size = VGG_CHUNK_FRAMES * FEATURE_SIZE;
    if buffers.features.len() >= size {
        Some(
            Window {
                features: buffers.features.take(size),
                frames: VGG_CHUNK_FRAMES as int,
                publish: true,
            },
        )
    } else {
        None
    }
}

/// Values with zeros after them, up to a size.
pub open spec fn zero_padded(values: Seq<i32>, size: int) -> Seq<i32> {
    values + Seq::new((size - values.len()) as nat, |index: int| 0i32)
}

/// The last window of features, if it holds frames that no window has held.
pub open spec fn last_window<T, A>(buffers: Buffers<T, A>) -> Option<Window> {
    let frames = buffers.features.len() as int / FEATURE_SIZE as int;
    let overlap = if buffers.vgg_calls == 0 {
        0
    } else {
        VGG_CHUNK_FRAMES - VGG_STRIDE_FRAMES
    };
    if frames > overlap {
        Some(
            Window {
                features: zero_padded(buffers.features, VGG_CHUNK_FRAMES * FEATURE_SIZE),
                frames,
                publish: false,
            },
        )
    } else {
        None
    }
}

/// Values, or as many zeros.
pub open spec fn blanked<T>(values: Seq<T>, zero: T, blank: bool) -> Seq<T> {
    if blank {
        Seq::new(values.len(), |index: int| zero)
    } else {
        values
    }
}

/// The buffers of an encoder that runs two models one after the other.
#[derive(Debug)]
pub struct EncoderBuffers<T, A> {
    extractor: OriginalFeatureExtractor,
    pcm_buffer: Vec<i16>,
    pcm_cursor: usize,
    feature_buffer: Vec<i32>,
    vgg_output_buffer: Vec<T>,
    vgg_mask_buffer: Vec<T>,
    pending_chunk: Option<EncoderChunk<A>>,
    vgg_calls: usize,
    conformer_calls: usize,
    finalized: bool,
}

/// The content of a chunk, if any.
pub open spec fn pending_view<A>(chunk: Option<EncoderChunk<A>>) -> Option<Chunk<A>> {
    match chunk {
        Some(chunk) => Some(chunk@),
        None => None,
    }
}

impl<T, A> View for EncoderBuffers<T, A> {
    type V = Buffers<T, A>;

    closed spec fn view(&self) -> Buffers<T, A> {
        Buffers {
            pcm: self.pcm_buffer@,
            cursor: self.pcm_cursor as int,
            features: self.feature_buffer@,
            vgg_output: self.vgg_output_buffer@,
            vgg_mask: self.vgg_mask_buffer@,
            pending: pending_view(self.pending_chunk),
            vgg_calls: self.vgg_calls as int,
            conformer_calls: self.conformer_calls as int,
            finalized: self.finalized,
        }
    }
}

impl<T: Copy, A: Copy> EncoderBuffers<T, A> {
    /// The tables of the extractor.
    pub closed spec fn tables(&self) -> Seq<u8> {
        self.extractor.data()
    }

    /// The extractor gives the features of recognition.
    pub closed spec fn sized(&self) -> bool {
        self.extractor.valid() && self.extractor.size() == FEATURE_SIZE
    }

    /// The buffers are well formed.
    pub open spec fn wf(&self) -> bool {
        self.sized() && self@.wf()
    }

    /// Buffers into which nothing has come.
    pub fn new(extractor: OriginalFeatureExtractor) -> (buffers: Self)
        requires
            extractor.valid(),
            extractor.size() == FEATURE_SIZE,
        ensures
            buffers@ == Buffers::<T, A>::fresh(),
            buffers.tables() == extractor.data(),
            buffers.wf(),
    {
        let buffers = EncoderBuffers {
            extractor,
            pcm_buffer: Vec::new(),
            pcm_cursor: 0,
            feature_buffer: Vec::new(),
            vgg_output_buffer: Vec::new(),
            vgg_mask_buffer: Vec::new(),
            pending_chunk: None,
            vgg_calls: 0,
            conformer_calls: 0,
            finalized: false,
        };
        assert(buffers@ =~= Buffers::<T, A>::fresh());
        buffers
    }

    /// Starts anew.
    pub fn reset(&mut self)
        requires
            old(self).sized(),
        ensures
            final(self)@ == Buffers::<T, A>::fresh(),
            final(self).tables() == old(self).tables(),
            final(self).wf(),
    {
        self.pcm_buffer = Vec::new();
        self.pcm_cursor = 0;
        self.feature_buffer = Vec::new();
        self.vgg_output_buffer = Vec::new();
        self.vgg_mask_buffer = Vec::new();
        self.pending_chunk = None;
        self.vgg_calls = 0;
        self.conformer_calls = 0;
        self.finalized = false;
        assert(self@ =~= Buffers::<T, A>::fresh());
    }

    /// How many samples of silence prime the encoder, if nothing has come in yet.
    pub fn startup_samples(&self) -> (result: Result<usize, EncoderError>)
        ensures
            match result {
                Ok(count) => self@.vgg_calls == 0 && self@.conformer_calls == 0
                    && self@.features.len() == 0 && count == FRAME_LENGTH + (VGG_CHUNK_FRAMES
                    + VGG_STRIDE_FRAMES - 1) * FRAME_SHIFT,
                Err(error) => error == EncoderError::Started && (self@.vgg_calls != 0
                    || self@.conformer_calls != 0 || self@.features.len() != 0),
            },
    {
        if self.vgg_calls != 0 || self.conformer_calls != 0 || self.feature_buffer.len() != 0 {
            return Err(EncoderError::Started);
        }
        Ok(FRAME_LENGTH + (VGG_CHUNK_FRAMES + VGG_STRIDE_FRAMES - 1) * FRAME_SHIFT)
    }
}

/// Moves the values from `count` on to the front.
fn drop_front<T: Copy>(values: &mut Vec<T>, count: usize)
    requires
        count <= old(values)@.len(),
    ensures
        final(values)@ == old(values)@.skip(count as int),
{
    let rest: Vec<T> = copy_part(values.as_slice(), count, values.len());
    assert(rest@ =~= values@.skip(count as int));
    *values = rest;
}

impl<T: Copy, A: Copy> EncoderBuffers<T, A> {
    /// Takes in samples, and extracts the features of all whole frames.
    pub fn accept_pcm(&mut self, samples: &[i16], last: bool) -> (result: Result<(), EncoderError>)
        requires
            old(self).wf(),
        ensures
            final(self).wf(),
            final(self).tables() == old(self).tables(),
            match result {
                Ok(_) => !old(self)@.finalized && final(self)@ == with_pcm(
                    old(self)@,
                    old(self).tables(),
                    samples@,
                    last,
                ),
                Err(error) => old(self)@.finalized && error == EncoderError::Finalized
                    && final(self)@ == old(self)@,
            },
    {
        if self.finalized {
            return Err(EncoderError::Finalized);
        }
        let ghost before = self@;
        let mut more: Vec<i16> = sample_part(samples, 0, samples.len());
        assert(more@ =~= samples@);
        self.pcm_buffer.append(&mut more);
        let length: usize = self.pcm_buffer.len();
        let open: Vec<i16> = sample_part(&self.pcm_buffer, self.pcm_cursor, length);
        assert(open@ =~= (before.pcm + samples@).skip(before.cursor));
        let mut features: Vec<i32> = self.extractor.extract_frames_q22(&open);
        let open_length: usize = open.len();
        let count: usize = if open_length < FRAME_LENGTH {
            0
        } else {
            1 + (open_length - FRAME_LENGTH) / FRAME_SHIFT
        };
        proof {
            frontend::law_frames_feature_count(
                self.tables(),
                open@,
                FEATURE_SIZE as int,
                count as int,
            );
            assert((before.features.len() + count * 80) % 80 == 0);
        }
        self.feature_buffer.append(&mut features);
        let end: usize = self.pcm_cursor + count * FRAME_SHIFT;
        let ghost pcm = self.pcm_buffer@;
        if last {
            self.pcm_buffer = Vec::new();
            self.pcm_cursor = 0;
        } else if end >= FRAME_LENGTH {
            self.pcm_buffer = sample_part(&self.pcm_buffer, end, length);
            self.pcm_cursor = 0;
            assert(self.pcm_buffer@ =~= pcm.skip(end as int));
        } else {
            self.pcm_cursor = end;
        }
        assert(self@ =~= with_pcm(before, self.tables(), samples@, last));
        Ok(())
    }

    /// Takes the next whole window of features.
    pub fn next_window(&mut self) -> (result: Option<FeatureWindow>)
        requires
            old(self).wf(),
        ensures
            final(self).wf(),
            final(self).tables() == old(self).tables(),
            window_view(result) == next_window(old(self)@),
            final(self)@ == (Buffers {
                features: if result is Some {
                    old(self)@.features.skip(VGG_STRIDE_FRAMES * FEATURE_SIZE)
                } else {
                    old(self)@.features
                },
                ..old(self)@
            }),
    {
        let size: usize = VGG_CHUNK_FRAMES * FEATURE_SIZE;
        if self.feature_buffer.len() < size {
            return None;
        }
        let features: Vec<i32> = copy_part(&self.feature_buffer, 0, size);
        assert(features@ =~= self.feature_buffer@.take(size as int));
        drop_front(&mut self.feature_buffer, VGG_STRIDE_FRAMES * FEATURE_SIZE);
        Some(FeatureWindow { features, frames: VGG_CHUNK_FRAMES, publish: true })
    }

    /// The last window of features, if it holds frames that no window has held.
    pub fn last_window(&self) -> (result: Option<FeatureWindow>)
        requires
            self.wf(),
            self@.features.len() <= VGG_CHUNK_FRAMES * FEATURE_SIZE,
        ensures
            window_view(result) == last_window(self@),
    {
        let frames: usize = self.feature_buffer.len() / FEATURE_SIZE;
        let overlap: usize = if self.vgg_calls == 0 {
            0
        } else {
            VGG_CHUNK_FRAMES - VGG_STRIDE_FRAMES
        };
        if frames <= overlap {
            return None;
        }
        let size: usize = VGG_CHUNK_FRAMES * FEATURE_SIZE;
        let mut features: Vec<i32> = copy_part(&self.feature_buffer, 0, self.feature_buffer.len());
        let ghost known = features@;
        let mut zeros: Vec<i32> = repeated(0i32, size - features.len());
        features.append(&mut zeros);
        assert(known =~= self.feature_buffer@);
        assert(features@ =~= zero_padded(self.feature_buffer@, size as int));
        Some(FeatureWindow { features, frames, publish: false })
    }

    /// Takes in the first model's output. The first outputs are blanked.
    pub fn accept_vgg(&mut self, output: Vec<T>, mask: Vec<T>, zero: T, publish: bool) -> (result:
        Result<(), EncoderError>)
        requires
            old(self).wf(),
            old(self)@.vgg_calls < usize::MAX,
        ensures
            final(self).wf(),
            final(self).tables() == old(self).tables(),
            ({
                let calls = old(self)@.vgg_calls + 1;
                let blank = calls <= VGG_STARTUP_BLANKS;
                let fits = output@.len() == VGG_OUTPUT_FRAMES * HIDDEN_SIZE && mask@.len()
                    == VGG_OUTPUT_FRAMES;
                if !publish {
                    result is Ok && final(self)@ == (Buffers { vgg_calls: calls, ..old(self)@ })
                } else if !fits {
                    result == Err::<(), EncoderError>(EncoderError::VggShape) && final(self)@ == (
                    Buffers { vgg_calls: calls, ..old(self)@ })
                } else {
                    result is Ok && final(self)@ == (Buffers {
                        vgg_calls: calls,
                        vgg_output: old(self)@.vgg_output + blanked(output@, zero, blank),
                        vgg_mask: old(self)@.vgg_mask + blanked(mask@, zero, blank),
                        ..old(self)@
                    })
                }
            }),
    {
        let ghost before = self@;
        self.vgg_calls = self.vgg_calls + 1;
        if !publish {
            return Ok(());
        }
        if output.len() != VGG_OUTPUT_FRAMES * HIDDEN_SIZE || mask.len() != VGG_OUTPUT_FRAMES {
            return Err(EncoderError::VggShape);
        }
        let blank: bool = self.vgg_calls <= VGG_STARTUP_BLANKS;
        let mut values: Vec<T> = if blank {
            repeated(zero, output.len())
        } else {
            output
        };
        let mut marks: Vec<T> = if blank {
            repeated(zero, mask.len())
        } else {
            mask
        };
        assert(values@ =~= blanked(output@, zero, blank));
        assert(marks@ =~= blanked(mask@, zero, blank));
        self.vgg_output_buffer.append(&mut values);
        self.vgg_mask_buffer.append(&mut marks);
        Ok(())
    }

    /// The next window for the second model, with its mask, if there is one.
    pub fn conformer_window(&self) -> (result: Option<(Vec<T>, Vec<T>)>)
        requires
            self.wf(),
        ensures
            match result {
                Some((input, mask)) => self@.vgg_mask.len() >= CONFORMER_WINDOW_FRAMES && input@
                    == self@.vgg_output.take(CONFORMER_WINDOW_FRAMES * HIDDEN_SIZE) && mask@
                    == self@.vgg_mask.take(CONFORMER_WINDOW_FRAMES as int),
                None => self@.vgg_mask.len() < CONFORMER_WINDOW_FRAMES,
            },
    {
        let size: usize = CONFORMER_WINDOW_FRAMES * HIDDEN_SIZE;
        if self.vgg_output_buffer.len() < size {
            return None;
        }
        let input: Vec<T> = copy_part(&self.vgg_output_buffer, 0, size);
        let mask: Vec<T> = copy_part(&self.vgg_mask_buffer, 0, CONFORMER_WINDOW_FRAMES);
        assert(input@ =~= self.vgg_output_buffer@.take(size as int));
        assert(mask@ =~= self.vgg_mask_buffer@.take(CONFORMER_WINDOW_FRAMES as int));
        Some((input, mask))
    }

    /// Takes in the second model's outputs. The first outputs are blanked; of the two chunks, the
    /// first one is given and the second one is kept until the next outputs or the end.
    pub fn accept_conformer(
        &mut self,
        output: &[A],
        mask: &[A],
        at_h: &[A],
        chunk_at_h: &[A],
        enc_mem_h: &[A],
        zero: A,
    ) -> (result: Result<EncoderChunk<A>, EncoderError>)
        requires
            old(self).wf(),
            old(self)@.vgg_mask.len() >= CONFORMER_WINDOW_FRAMES,
            old(self)@.conformer_calls < usize::MAX,
        ensures
            final(self).wf(),
            final(self).tables() == old(self).tables(),
            ({
                let outputs = Outputs {
                    output: output@,
                    mask: mask@,
                    at_h: at_h@,
                    chunk_at_h: chunk_at_h@,
                    enc_mem_h: enc_mem_h@,
                };
                let calls = old(self)@.conformer_calls + 1;
                let blank = calls <= CONFORMER_STARTUP_BLANKS;
                match result {
                    Ok(chunk) => has_conformer_shape(outputs) && chunk@ == chunk_of(
                        outputs,
                        zero,
                        0,
                        blank,
                    ) && final(self)@ == (Buffers {
                        conformer_calls: calls,
                        pending: Some(chunk_of(outputs, zero, 1, blank)),
                        vgg_output: old(self)@.vgg_output.skip(
                            CONFORMER_STRIDE_FRAMES * HIDDEN_SIZE,
                        ),
                        vgg_mask: old(self)@.vgg_mask.skip(CONFORMER_STRIDE_FRAMES as int),
                        ..old(self)@
                    }),
                    Err(error) => !has_conformer_shape(outputs) && error
                        == EncoderError::ConformerShape && final(self)@ == (Buffers {
                        conformer_calls: calls,
                        ..old(self)@
                    }),
                }
            }),
    {
        self.conformer_calls = self.conformer_calls + 1;
        let blank: bool = self.conformer_calls <= CONFORMER_STARTUP_BLANKS;
        match split_conformer_output(output, mask, at_h, chunk_at_h, enc_mem_h, zero, blank) {
            Ok((first, second)) => {
                self.pending_chunk = Some(second);
                drop_front(&mut self.vgg_output_buffer, CONFORMER_STRIDE_FRAMES * HIDDEN_SIZE);
                drop_front(&mut self.vgg_mask_buffer, CONFORMER_STRIDE_FRAMES);
                Ok(first)
            },
            Err(error) => Err(error),
        }
    }

    /// Ends the input; the chunk that was kept.
    pub fn finish(&mut self) -> (result: Option<EncoderChunk<A>>)
        requires
            old(self).wf(),
        ensures
            final(self).wf(),
            final(self).tables() == old(self).tables(),
            pending_view(result) == old(self)@.pending,
            final(self)@ == (Buffers {
                features: Seq::empty(),
                pending: None,
                finalized: true,
                ..old(self)@
            }),
    {
        let mut kept: Option<EncoderChunk<A>> = None;
        std::mem::swap(&mut kept, &mut self.pending_chunk);
        self.feature_buffer = Vec::new();
        self.finalized = true;
        kept
    }
}

}
