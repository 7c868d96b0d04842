//! Voice activity: samples become groups of features, and evidence becomes segments of samples.

use vstd::arithmetic::div_mod::*;
use vstd::prelude::*;

use crate::frontend;
use crate::frontend::{
    sample_part, OriginalFeatureExtractor, FRAME_LENGTH, FRAME_SHIFT, VAD_FEATURE_SIZE,
};
use crate::vad_endpoint;
use crate::vad_endpoint::{
    Endpoint, OriginalVadEndpoint, VadEndpointConfig, VadError, VadEvidenceFrame, VadStatus,
};

verus! {

/// How many frames the model takes at once.
pub const STACKED_FRAMES: usize = 4;

/// How many features the model takes at once.
pub const VAD_INPUT_SIZE: usize = 160;

/// How many samples a frame of the detector stands for.
pub const SAMPLES_PER_FRAME: usize = 160;

/// The settings of voice activity detection. The threshold is a binary32 number, held by its bits.
#[derive(Clone, Copy, Debug)]
pub struct EdgeEsrVadConfig {
    pub sample_rate: u32,
    pub threshold: u32,
    pub pre_roll_ms: u32,
    pub tail_padding_ms: u32,
    pub end_silence_ms: u32,
    pub min_speech_ms: u32,
    pub max_segment_ms: u32,
}

impl Default for EdgeEsrVadConfig {
    fn default() -> (config: Self)
        ensures
            config == (EdgeEsrVadConfig {
                sample_rate: 16_000,
                threshold: 0,
                pre_roll_ms: 300,
                tail_padding_ms: 300,
                end_silence_ms: 3_000,
                min_speech_ms: 0,
                max_segment_ms: 60_000,
            }),
    {
        EdgeEsrVadConfig {
            sample_rate: 16_000,
            threshold: 0,
            pre_roll_ms: 300,
            tail_padding_ms: 300,
            end_silence_ms: 3_000,
            min_speech_ms: 0,
            max_segment_ms: 60_000,
        }
    }
}

/// Why detection cannot begin.
#[derive(Clone, Copy, Debug, PartialEq, Eq, Structural)]
pub enum VadLoadError {
    /// The sample rate is not 16000.
    SampleRate,
    /// The threshold is not between zero and one.
    Threshold,
}

/// Why a segment ended.
#[derive(Clone, Copy, Debug, PartialEq, Eq, Structural)]
pub enum EdgeEsrVadSegmentReason {
    EndSilence,
    MaxDuration,
    Finish,
}

/// A segment of speech.
#[derive(Debug)]
pub struct EdgeEsrVadSegment {
    pub samples: Vec<i16>,
    pub reason: EdgeEsrVadSegmentReason,
    pub speech_ms: u32,
    pub start_sample: usize,
    pub end_sample: usize,
    pub audio_start_sample: usize,
    pub audio_end_sample: usize,
}

/// The view of an [`EdgeEsrVadSegment`].
#[verifier::ext_equal]
pub struct Segment {
    pub samples: Seq<i16>,
    pub reason: EdgeEsrVadSegmentReason,
    pub speech_ms: u32,
    pub start_sample: int,
    pub end_sample: int,
    pub audio_start_sample: int,
    pub audio_end_sample: int,
}

impl View for EdgeEsrVadSegment {
    type V = Segment;

    open spec fn view(&self) -> Segment {
        Segment {
            samples: self.samples@,
            reason: self.reason,
            speech_ms: self.speech_ms,
            start_sample: self.start_sample as int,
            end_sample: self.end_sample as int,
            audio_start_sample: self.audio_start_sample as int,
            audio_end_sample: self.audio_end_sample as int,
        }
    }
}

/// The views of segments.
pub open spec fn segment_views(segments: Seq<EdgeEsrVadSegment>) -> Seq<Segment> {
    Seq::new(segments.len(), |index: int| segments[index]@)
}

/// A group of features for the model and the frames they belong to.
#[derive(Debug)]
pub struct VadGroup {
    pub features: Vec<i16>,
    pub frames: Vec<usize>,
}

/// The view of a [`VadGroup`].
#[verifier::ext_equal]
pub struct Group {
    pub features: Seq<i16>,
    pub frames: Seq<usize>,
}

impl View for VadGroup {
    type V = Group;

    open spec fn view(&self) -> Group {
        Group { features: self.features@, frames: self.frames@ }
    }
}

/// A sample of a frame differs from silence; a frame that is not complete counts as silent.
pub open spec fn frame_active(samples: Seq<i16>, frame: int) -> bool {
    (frame + 1) * SAMPLES_PER_FRAME <= samples.len() && exists|index: int|
        frame * SAMPLES_PER_FRAME <= index < (frame + 1) * SAMPLES_PER_FRAME
            && #[trigger] samples[index] != 0
}

/// Decides whether a frame is active.
pub fn frame_energy_active(samples: &[i16], frame: usize) -> (active: bool)
    ensures
        active == frame_active(samples@, frame as int),
{
    let length: usize = samples.len();
    if frame >= length / SAMPLES_PER_FRAME {
        return false;
    }
    let start: usize = frame * SAMPLES_PER_FRAME;
    for index in start..start + SAMPLES_PER_FRAME
        invariant
            length == samples@.len(),
            start == frame * SAMPLES_PER_FRAME,
            start + SAMPLES_PER_FRAME <= length,
            forall|earlier: int| start <= earlier < index ==> #[trigger] samples@[earlier] == 0,
    {
        if samples[index] != 0 {
            return true;
        }
    }
    false
}

/// The smaller of two numbers.
pub open spec fn smaller(left: int, right: int) -> int {
    if left <= right {
        left
    } else {
        right
    }
}

/// The sample at which a frame begins, within the given number of samples.
pub open spec fn frame_sample(frame: int, length: int) -> int {
    smaller(vad_endpoint::larger(frame, 0) * SAMPLES_PER_FRAME, length)
}

/// The segment that a finished stretch of speech is.
pub open spec fn closed_segment(
    config: EdgeEsrVadConfig,
    samples: Seq<i16>,
    endpoint: Endpoint,
    segment_start: int,
    speech_start: int,
    final_flush: bool,
) -> Segment {
    let length = samples.len() as int;
    let audio_start = frame_sample(segment_start, length);
    let audio_end = vad_endpoint::larger(
        frame_sample(vad_endpoint::larger(endpoint.end_pause_frame + 1, segment_start), length),
        audio_start,
    );
    let speech_from = frame_sample(speech_start, length);
    let speech_to = vad_endpoint::larger(
        frame_sample(vad_endpoint::larger(endpoint.real_pause_frame, speech_start), length),
        speech_from,
    );
    Segment {
        samples: samples.subrange(audio_start, audio_end),
        reason: if final_flush {
            EdgeEsrVadSegmentReason::Finish
        } else if speech_to - speech_from >= config.sample_rate * config.max_segment_ms / 1_000 {
            EdgeEsrVadSegmentReason::MaxDuration
        } else {
            EdgeEsrVadSegmentReason::EndSilence
        },
        speech_ms: ((speech_to - speech_from) * 1_000 / config.sample_rate as int) as u32,
        start_sample: speech_from,
        end_sample: speech_to,
        audio_start_sample: audio_start,
        audio_end_sample: audio_end,
    }
}

/// The stretch of speech that is open.
#[derive(Clone, Copy, Debug, PartialEq, Eq, Structural)]
pub struct OpenSpeech {
    /// The frame at which its audio begins.
    pub segment_start: i32,
    /// The frame at which its speech begins.
    pub speech_start: i32,
}

/// The open stretch after a status, and the segment that the status closes.
pub open spec fn recorded(
    config: EdgeEsrVadConfig,
    samples: Seq<i16>,
    endpoint: Endpoint,
    open: Option<OpenSpeech>,
    status: VadStatus,
    final_flush: bool,
) -> (Option<OpenSpeech>, Option<Segment>) {
    match status {
        VadStatus::SpeechStart => (
            Some(
                OpenSpeech {
                    segment_start: endpoint.start_pause_frame as i32,
                    speech_start: endpoint.real_pause_frame as i32,
                },
            ),
            None,
        ),
        VadStatus::SpeechEnd => match open {
            Some(speech) => (
                None,
                Some(
                    closed_segment(
                        config,
                        samples,
                        endpoint,
                        speech.segment_start as int,
                        speech.speech_start as int,
                        final_flush,
                    ),
                ),
            ),
            None => (None, None),
        },
        _ => (open, None),
    }
}

/// A segment's audio lies within the samples.
pub proof fn law_segments_lie_in_the_samples(
    config: EdgeEsrVadConfig,
    samples: Seq<i16>,
    endpoint: Endpoint,
    segment_start: int,
    speech_start: int,
    final_flush: bool,
)
    ensures
        ({
            let segment = closed_segment(
                config,
                samples,
                endpoint,
                segment_start,
                speech_start,
                final_flush,
            );
            &&& 0 <= segment.audio_start_sample <= segment.audio_end_sample <= samples.len()
            &&& 0 <= segment.start_sample <= segment.end_sample <= samples.len()
            &&& segment.samples.len() == segment.audio_end_sample - segment.audio_start_sample
        }),
{
}

fn frame_to_sample(frame: i64, length: usize) -> (sample: usize)
    requires
        -0x1_0000_0000 <= frame <= 0x1_0000_0000,
    ensures
        sample == frame_sample(frame as int, length as int),
{
    let start: u64 = if frame > 0 {
        frame as u64 * 160
    } else {
        0
    };
    if start <= length as u64 {
        start as usize
    } else {
        length
    }
}

fn max_frame(left: i64, right: i64) -> (result: i64)
    ensures
        result == vad_endpoint::larger(left as int, right as int),
{
    if left >= right {
        left
    } else {
        right
    }
}

/// Closes a stretch of speech.
fn close_segment(
    config: &EdgeEsrVadConfig,
    samples: &[i16],
    end_pause_frame: i32,
    real_pause_frame: i32,
    speech: OpenSpeech,
    final_flush: bool,
) -> (segment: EdgeEsrVadSegment)
    requires
        config.sample_rate > 0,
    ensures
        forall|endpoint: Endpoint|
            endpoint.end_pause_frame == end_pause_frame && endpoint.real_pause_frame
                == real_pause_frame ==> segment@ == #[trigger] closed_segment(
                *config,
                samples@,
                endpoint,
                speech.segment_start as int,
                speech.speech_start as int,
                final_flush,
            ),
{
    let length: usize = samples.len();
    let segment_start: i64 = speech.segment_start as i64;
    let speech_start: i64 = speech.speech_start as i64;
    let audio_start: usize = frame_to_sample(segment_start, length);
    let mut audio_end: usize = frame_to_sample(
        max_frame(end_pause_frame as i64 + 1, segment_start),
        length,
    );
    if audio_end < audio_start {
        audio_end = audio_start;
    }
    let speech_from: usize = frame_to_sample(speech_start, length);
    let mut speech_to: usize = frame_to_sample(
        max_frame(real_pause_frame as i64, speech_start),
        length,
    );
    if speech_to < speech_from {
        speech_to = speech_from;
    }
    let speech_length: u64 = (speech_to - speech_from) as u64;
    assert(speech_length <= 0x8000_0000 * 160);
    let longest: u64 = longest_segment(config);
    let reason: EdgeEsrVadSegmentReason = if final_flush {
        EdgeEsrVadSegmentReason::Finish
    } else if speech_length >= longest {
        EdgeEsrVadSegmentReason::MaxDuration
    } else {
        EdgeEsrVadSegmentReason::EndSilence
    };
    EdgeEsrVadSegment {
        samples: sample_part(samples, audio_start, audio_end),
        reason,
        speech_ms: (speech_length * 1_000 / config.sample_rate as u64) as u32,
        start_sample: speech_from,
        end_sample: speech_to,
        audio_start_sample: audio_start,
        audio_end_sample: audio_end,
    }
}

/// How many samples the longest segment may have.
fn longest_segment(config: &EdgeEsrVadConfig) -> (samples: u64)
    ensures
        samples == config.sample_rate * config.max_segment_ms / 1_000,
{
    let rate: u64 = config.sample_rate as u64;
    let milliseconds: u64 = config.max_segment_ms as u64;
    assert(rate * milliseconds <= 0xffff_ffff * 0xffff_ffff) by (nonlinear_arith)
        requires
            0 <= rate <= 0xffff_ffff,
            0 <= milliseconds <= 0xffff_ffff,
    ;
    assert(rate * milliseconds >= 0) by (nonlinear_arith)
        requires
            0 <= rate,
            0 <= milliseconds,
    ;
    rate * milliseconds / 1_000
}

/// What detection has in hand: the samples, how far they are cut into frames, the features that
/// wait for a full group, the frames whose evidence the model still owes, the detector, and the
/// stretch of speech that is open.
#[verifier::ext_equal]
pub struct Detection {
    pub samples: Seq<i16>,
    pub cursor: int,
    pub group: Seq<i16>,
    pub pending: Option<Seq<usize>>,
    pub frames: int,
    pub endpoint: Endpoint,
    pub open: Option<OpenSpeech>,
}

/// Nothing in hand.
pub open spec fn initial_detection() -> Detection {
    Detection {
        samples: Seq::empty(),
        cursor: 0,
        group: Seq::empty(),
        pending: None,
        frames: 0,
        endpoint: vad_endpoint::initial_state(),
        open: None,
    }
}

/// The settings of the detector.
pub open spec fn endpoint_config(config: EdgeEsrVadConfig) -> VadEndpointConfig {
    VadEndpointConfig { vad_threshold: config.threshold, ..vad_endpoint::default_config() }
}

/// Features in 11 fractional bits, as the model takes them.
pub open spec fn reduced(values: Seq<i32>) -> Seq<i16> {
    Seq::new(values.len(), |index: int| (values[index] >> 11) as i16)
}

/// A further frame can be cut.
pub open spec fn has_frame(state: Detection) -> bool {
    state.samples.len() - state.cursor >= FRAME_LENGTH
}

/// The state after one more frame was cut.
pub open spec fn frame_cut(data: Seq<u8>, state: Detection) -> Detection {
    Detection {
        group: state.group + reduced(
            frontend::frame_features(
                data,
                state.samples.subrange(state.cursor, state.cursor + FRAME_LENGTH),
                VAD_FEATURE_SIZE as int,
            ),
        ),
        cursor: state.cursor + FRAME_SHIFT,
        frames: state.frames + 1,
        ..state
    }
}

/// The state in which a full group is in hand or no further frame can be cut.
pub open spec fn frames_cut(data: Seq<u8>, state: Detection) -> Detection
    decreases state.samples.len() - state.cursor,
{
    if state.group.len() >= VAD_INPUT_SIZE || !has_frame(state) {
        state
    } else {
        frames_cut(data, frame_cut(data, state))
    }
}

/// Cutting frames keeps the samples.
pub proof fn lemma_cutting_keeps_samples(data: Seq<u8>, state: Detection)
    ensures
        frames_cut(data, state).samples == state.samples,
    decreases state.samples.len() - state.cursor,
{
    if state.group.len() < VAD_INPUT_SIZE && has_frame(state) {
        lemma_cutting_keeps_samples(data, frame_cut(data, state));
    }
}

/// The state after the evidence of one frame, and the segment that it closes.
pub open spec fn frame_heard(
    config: EdgeEsrVadConfig,
    state: Detection,
    frame: usize,
    neural: bool,
    flush_frame: int,
) -> (Detection, Option<Segment>) {
    let settings = endpoint_config(config);
    let number = state.endpoint.checked_frame_count;
    let heard = vad_endpoint::evidence_state(
        settings,
        state.endpoint,
        neural,
        frame_active(state.samples, frame as int),
        true,
    );
    let (stepped, status) = vad_endpoint::stepped(settings, heard, number, flush_frame);
    let (open, segment) = recorded(
        config,
        state.samples,
        stepped,
        state.open,
        status,
        flush_frame >= 0,
    );
    (
        Detection {
            endpoint: Endpoint { current_frame: number + 1, read_delay: 0, ..stepped },
            open,
            ..state
        },
        segment,
    )
}

/// A sequence with one more segment, where there is one.
pub open spec fn with_segment(segments: Seq<Segment>, segment: Option<Segment>) -> Seq<Segment> {
    match segment {
        Some(segment) => segments.push(segment),
        None => segments,
    }
}

/// The state after the evidence of the first `count` frames, and the segments that it closes.
pub open spec fn frames_heard(
    config: EdgeEsrVadConfig,
    state: Detection,
    frames: Seq<usize>,
    neural: Seq<bool>,
    flush_frame: int,
    count: int,
) -> (Detection, Seq<Segment>)
    decreases count,
{
    if count <= 0 {
        (state, Seq::empty())
    } else {
        let (before, segments) = frames_heard(
            config,
            state,
            frames,
            neural,
            flush_frame,
            count - 1,
        );
        let (after, segment) = frame_heard(
            config,
            before,
            frames[count - 1],
            neural[count - 1],
            flush_frame,
        );
        (after, with_segment(segments, segment))
    }
}

/// How many frames of evidence an answer of the model settles.
pub open spec fn settled(pending: Option<Seq<usize>>, ready: bool, neural: Seq<bool>) -> int {
    match pending {
        Some(frames) => if ready {
            smaller(frames.len() as int, neural.len() as int)
        } else {
            0
        },
        None => 0,
    }
}

/// The state after the model answered on a group with the given frames, and the segments that the
/// answer closes: it settles the frames of the group before.
pub open spec fn answered(
    config: EdgeEsrVadConfig,
    state: Detection,
    frames: Seq<usize>,
    ready: bool,
    neural: Seq<bool>,
    flush_frame: int,
) -> (Detection, Seq<Segment>) {
    let earlier = match state.pending {
        Some(earlier) => earlier,
        None => Seq::empty(),
    };
    frames_heard(
        config,
        Detection { pending: Some(frames), ..state },
        earlier,
        neural,
        flush_frame,
        settled(state.pending, ready, neural),
    )
}

/// The number of frames rounded up to whole groups.
pub open spec fn rounded_frames(frames: int) -> int {
    (frames + 3) / 4 * 4
}

/// The state after one frame of padding, and the segment that it closes.
pub open spec fn frame_padded(config: EdgeEsrVadConfig, state: Detection, flush_frame: int) -> (
    Detection,
    Option<Segment>,
) {
    let settings = endpoint_config(config);
    let number = state.endpoint.checked_frame_count;
    let padded = vad_endpoint::evidence_state(settings, state.endpoint, false, false, false);
    let (stepped, status) = vad_endpoint::stepped(settings, padded, number, flush_frame);
    let (open, segment) = recorded(config, state.samples, stepped, state.open, status, true);
    (
        Detection {
            endpoint: Endpoint { current_frame: number + 1, read_delay: 0, ..stepped },
            open,
            ..state
        },
        segment,
    )
}

/// The state after padding up to `flush_frame` frames, and the segments that it closes.
pub open spec fn padded(
    config: EdgeEsrVadConfig,
    state: Detection,
    flush_frame: int,
    count: int,
) -> (Detection, Seq<Segment>)
    decreases count,
{
    if count <= 0 {
        (state, Seq::empty())
    } else {
        let (before, segments) = padded(config, state, flush_frame, count - 1);
        let (after, segment) = frame_padded(config, before, flush_frame);
        (after, with_segment(segments, segment))
    }
}

/// How many frames padding must add.
pub open spec fn missing_frames(state: Detection) -> int {
    vad_endpoint::larger(rounded_frames(state.frames) - state.endpoint.checked_frame_count, 0)
}

/// The state after the input ended, and the segment that its end closes.
pub open spec fn input_ended(config: EdgeEsrVadConfig, state: Detection) -> (
    Detection,
    Option<Segment>,
) {
    let (ended, status) = vad_endpoint::finalized(state.endpoint, state.endpoint.current_frame);
    if status == VadStatus::SpeechEnd {
        let (open, segment) = recorded(config, state.samples, ended, state.open, status, true);
        (Detection { endpoint: ended, open, ..state }, segment)
    } else {
        (Detection { endpoint: ended, ..state }, None)
    }
}

/// Appends features as the model takes them.
fn push_reduced(group: &mut Vec<i16>, values: &[i32])
    ensures
        final(group)@ == old(group)@ + reduced(values@),
{
    let ghost added = reduced(values@);
    for index in 0..values.len()
        invariant
            added == reduced(values@),
            group@ == old(group)@ + added.take(index as int),
    {
        group.push((values[index] >> 11) as i16);
        assert(added.take(index + 1) =~= added.take(index as int).push(added[index as int]));
    }
    assert(added.take(values@.len() as int) =~= added);
}

/// The frames from `first` on.
fn frame_numbers(first: usize, count: usize) -> (frames: Vec<usize>)
    requires
        first + count <= usize::MAX,
    ensures
        frames@.len() == count,
        forall|index: int| 0 <= index < count ==> #[trigger] frames@[index] == first + index,
{
    let mut frames: Vec<usize> = Vec::new();
    for index in 0..count
        invariant
            first + count <= usize::MAX,
            frames@.len() == index,
            forall|earlier: int| 0 <= earlier < index ==> #[trigger] frames@[earlier] == first + earlier,
    {
        frames.push(first + index);
    }
    frames
}

/// Cuts samples into frames and evidence into segments, around a model that it does not run.
#[derive(Debug)]
pub struct VadSegmenter {
    config: EdgeEsrVadConfig,
    extractor: OriginalFeatureExtractor,
    samples: Vec<i16>,
    cursor: usize,
    group: Vec<i16>,
    pending: Option<Vec<usize>>,
    frames: usize,
    endpoint: OriginalVadEndpoint,
    open: Option<OpenSpeech>,
}

/// The view of frames that are owed.
pub open spec fn pending_view(pending: Option<Vec<usize>>) -> Option<Seq<usize>> {
    match pending {
        Some(frames) => Some(frames@),
        None => None,
    }
}

/// How far before the first frame a segment may really have ended.
pub open spec fn lookback() -> int {
    vad_endpoint::default_config().end_gap + vad_endpoint::default_config().frame_end_margin + 1
}

/// The counters leave room for `count` more frames, and for the silence since the last segment.
pub open spec fn has_room(state: Detection, count: int) -> bool {
    state.endpoint.checked_frame_count + count + lookback() <= i32::MAX
}

impl VadSegmenter {
    pub closed spec fn config(self) -> EdgeEsrVadConfig {
        self.config
    }

    /// The tables of the extractor.
    pub closed spec fn data(self) -> Seq<u8> {
        self.extractor.data()
    }

    /// What detection has in hand.
    pub closed spec fn detection(self) -> Detection {
        Detection {
            samples: self.samples@,
            cursor: self.cursor as int,
            group: self.group@,
            pending: pending_view(self.pending),
            frames: self.frames as int,
            endpoint: self.endpoint.endpoint(),
            open: self.open,
        }
    }

    /// The parts fit each other, and no group is full.
    closed spec fn fits(self) -> bool {
        &&& self.config.sample_rate == 16_000
        &&& self.extractor.valid()
        &&& self.extractor.size() == VAD_FEATURE_SIZE
        &&& self.endpoint.valid()
        &&& self.endpoint.config() == endpoint_config(self.config)
        &&& self.cursor == self.frames * FRAME_SHIFT
        &&& self.cursor <= self.samples@.len()
        &&& self.group@.len() < VAD_INPUT_SIZE
        &&& self.group@.len() % 40 == 0
        &&& self.group@.len() <= self.frames * 40
    }

    /// The parts fit each other, there were no more segments than frames, and no segment ended too
    /// far before the first frame.
    pub closed spec fn valid(self) -> bool {
        &&& self.fits()
        &&& self.endpoint.endpoint().segment_count <= self.endpoint.endpoint().checked_frame_count
        &&& self.endpoint.endpoint().last_silence_frame >= -lookback()
    }

    /// Frames are cut one after the other, from samples that are there.
    pub proof fn lemma_frames_are_cut(self)
        requires
            self.valid(),
        ensures
            self.detection().frames >= 0,
            self.detection().cursor == self.detection().frames * FRAME_SHIFT,
            self.detection().cursor <= self.detection().samples.len(),
    {
    }

    /// A segmenter with the given settings.
    pub fn new(config: EdgeEsrVadConfig, extractor: OriginalFeatureExtractor) -> (result: Result<
        Self,
        VadLoadError,
    >)
        requires
            extractor.valid(),
            extractor.size() == VAD_FEATURE_SIZE,
        ensures
            match result {
                Ok(segmenter) => config.sample_rate == 16_000 && vad_endpoint::unit_bits(
                    config.threshold,
                ) && segmenter.valid() && segmenter.config() == config && segmenter.data()
                    == extractor.data() && segmenter.detection() == initial_detection(),
                Err(error) => if config.sample_rate != 16_000 {
                    error == VadLoadError::SampleRate
                } else {
                    !vad_endpoint::unit_bits(config.threshold) && error == VadLoadError::Threshold
                },
            },
    {
        if config.sample_rate != 16_000 {
            return Err(VadLoadError::SampleRate);
        }
        let mut settings: VadEndpointConfig = VadEndpointConfig::default();
        settings.vad_threshold = config.threshold;
        match OriginalVadEndpoint::new(settings) {
            Ok(endpoint) => {
                let segmenter = VadSegmenter {
                    config,
                    extractor,
                    samples: Vec::new(),
                    cursor: 0,
                    group: Vec::new(),
                    pending: None,
                    frames: 0,
                    endpoint,
                    open: None,
                };
                assert(segmenter.detection() =~= initial_detection());
                Ok(segmenter)
            },
            Err(_) => Err(VadLoadError::Threshold),
        }
    }

    /// Forgets all samples.
    pub fn reset(&mut self)
        requires
            old(self).valid(),
        ensures
            final(self).valid(),
            final(self).config() == old(self).config(),
            final(self).data() == old(self).data(),
            final(self).detection() == initial_detection(),
    {
        self.samples = Vec::new();
        self.cursor = 0;
        self.group = Vec::new();
        self.pending = None;
        self.frames = 0;
        self.endpoint.reset();
        self.open = None;
        assert(self.detection() =~= initial_detection());
    }

    /// Takes more samples.
    pub fn push(&mut self, samples: &[i16])
        requires
            old(self).valid(),
        ensures
            final(self).valid(),
            final(self).config() == old(self).config(),
            final(self).data() == old(self).data(),
            final(self).detection() == (Detection {
                samples: old(self).detection().samples + samples@,
                ..old(self).detection()
            }),
    {
        let ghost before = self.detection();
        let ghost config = self.config();
        let ghost data = self.data();
        for index in 0..samples.len()
            invariant
                self.valid(),
                self.config() == config,
                self.data() == data,
                self.detection() == (Detection {
                    samples: before.samples + samples@.take(index as int),
                    ..before
                }),
        {
            self.samples.push(samples[index]);
            assert(self.detection().samples =~= before.samples + samples@.take(index + 1));
        }
        assert(samples@.take(samples@.len() as int) =~= samples@);
    }

    /// Whether a stretch of speech is open.
    pub fn detected(&self) -> (result: bool)
        ensures
            result == (self.detection().open is Some),
    {
        self.open.is_some()
    }

    /// How many frames were cut.
    pub fn frame_total(&self) -> (frames: usize)
        ensures
            frames == self.detection().frames,
    {
        self.frames
    }

    /// How many samples the frames that were cut move on.
    pub fn audio_end(&self) -> (samples: usize)
        ensures
            samples == self.detection().cursor,
    {
        self.cursor
    }

    /// How many frames were classified.
    pub fn checked_frame_count(&self) -> (frames: i32)
        ensures
            frames == self.detection().endpoint.checked_frame_count,
    {
        self.endpoint.checked_frame_count()
    }

    /// The sample at which the audio of the open stretch of speech begins.
    pub fn open_audio_start(&self) -> (sample: Option<usize>)
        ensures
            match sample {
                Some(sample) => self.detection().open matches Some(speech) && sample
                    == frame_sample(
                    speech.segment_start as int,
                    self.detection().samples.len() as int,
                ),
                None => self.detection().open is None,
            },
    {
        match self.open {
            Some(speech) => Some(frame_to_sample(speech.segment_start as i64, self.samples.len())),
            None => None,
        }
    }

    /// Cuts one frame.
    fn cut_frame(&mut self)
        requires
            old(self).valid(),
            has_frame(old(self).detection()),
        ensures
            final(self).config() == old(self).config(),
            final(self).data() == old(self).data(),
            final(self).detection() == frame_cut(old(self).data(), old(self).detection()),
            final(self).extractor == old(self).extractor,
            final(self).endpoint == old(self).endpoint,
            final(self).group@.len() == old(self).group@.len() + 40,
    {
        let ghost before = self.detection();
        let ghost data = self.data();
        let length: usize = self.samples.len();
        assert(self.cursor + FRAME_LENGTH <= length);
        let frame: Vec<i16> = sample_part(&self.samples, self.cursor, self.cursor + FRAME_LENGTH);
        if let Ok(values) = self.extractor.extract_frame_q22(&frame) {
            proof {
                frontend::law_feature_count(data, frame@, VAD_FEATURE_SIZE as int);
            }
            push_reduced(&mut self.group, &values);
        }
        self.cursor = self.cursor + FRAME_SHIFT;
        self.frames = self.frames + 1;
        assert(self.detection() =~= frame_cut(data, before));
    }

    /// Cuts frames until a group is full, and hands it out. Without a full group there is none.
    pub fn next_group(&mut self) -> (group: Option<VadGroup>)
        requires
            old(self).valid(),
        ensures
            final(self).valid(),
            final(self).config() == old(self).config(),
            final(self).data() == old(self).data(),
            ({
                let cut = frames_cut(old(self).data(), old(self).detection());
                match group {
                    Some(group) => cut.group.len() == VAD_INPUT_SIZE && group.features@ == cut.group
                        && group.frames@.len() == STACKED_FRAMES && (forall|index: int|
                        0 <= index < STACKED_FRAMES ==> #[trigger] group.frames@[index] == cut.frames
                            - STACKED_FRAMES + index) && final(self).detection() == (Detection {
                        group: Seq::empty(),
                        ..cut
                    }),
                    None => cut.group.len() < VAD_INPUT_SIZE && final(self).detection() == cut,
                }
            }),
    {
        let ghost whole = frames_cut(self.data(), self.detection());
        while self.samples.len() - self.cursor >= FRAME_LENGTH
            invariant
                self.valid(),
                self.config() == old(self).config(),
                self.data() == old(self).data(),
                frames_cut(self.data(), self.detection()) == whole,
                whole == frames_cut(old(self).data(), old(self).detection()),
            decreases self.samples@.len() - self.cursor,
        {
            assert(has_frame(self.detection()));
            self.cut_frame();
            let ghost after = self.detection();
            assert(frames_cut(self.data(), after) == whole);
            if self.group.len() == VAD_INPUT_SIZE {
                assert(whole == after);
                let mut features: Vec<i16> = Vec::new();
                std::mem::swap(&mut features, &mut self.group);
                assert(self.frames >= STACKED_FRAMES);
                let frames: Vec<usize> = frame_numbers(
                    self.frames - STACKED_FRAMES,
                    STACKED_FRAMES,
                );
                assert(self.detection() =~= (Detection { group: Seq::empty(), ..whole }));
                return Some(VadGroup { features, frames });
            }
        }
        None
    }

    /// The number of frames that the whole input has once it ended.
    pub fn flush_frame(&self) -> (frames: i32)
        requires
            self.valid(),
            rounded_frames(self.detection().frames) <= i32::MAX,
        ensures
            frames == rounded_frames(self.detection().frames),
    {
        ((self.frames + 3) / 4 * 4) as i32
    }

    /// Hands out a group that is not full, filled up with zeros; the last of its frames is left
    /// out. Without such a group, the last frame that is owed is.
    pub fn partial_group(&mut self) -> (group: Option<VadGroup>)
        requires
            old(self).valid(),
        ensures
            final(self).valid(),
            final(self).config() == old(self).config(),
            final(self).data() == old(self).data(),
            ({
                let before = old(self).detection();
                let real_frames = before.group.len() / 40;
                match group {
                    Some(group) => before.group.len() > 0 && group.features@ == before.group
                        + Seq::new(
                        (VAD_INPUT_SIZE - before.group.len()) as nat,
                        |index: int| 0i16,
                    ) && group.frames@.len() == real_frames - 1 && (forall|index: int|
                        0 <= index < real_frames - 1 ==> #[trigger] group.frames@[index]
                            == before.frames - real_frames + index) && final(self).detection() == (
                    Detection { group: Seq::empty(), ..before }),
                    None => before.group.len() == 0 && final(self).detection() == (Detection {
                        pending: match before.pending {
                            Some(frames) => Some(
                                if frames.len() > 0 {
                                    frames.drop_last()
                                } else {
                                    frames
                                },
                            ),
                            None => None,
                        },
                        ..before
                    }),
                }
            }),
    {
        let ghost before = self.detection();
        if self.group.len() == 0 {
            if let Some(owed) = &mut self.pending {
                owed.pop();
            }
            assert(self.detection() =~= (Detection {
                pending: match before.pending {
                    Some(frames) => Some(
                        if frames.len() > 0 {
                            frames.drop_last()
                        } else {
                            frames
                        },
                    ),
                    None => None,
                },
                ..before
            }));
            return None;
        }
        let real_frames: usize = self.group.len() / 40;
        let mut features: Vec<i16> = Vec::new();
        std::mem::swap(&mut features, &mut self.group);
        while features.len() < VAD_INPUT_SIZE
            invariant
                before.group.len() <= features@.len() <= VAD_INPUT_SIZE,
                features@ == before.group + Seq::new(
                    (features@.len() - before.group.len()) as nat,
                    |index: int| 0i16,
                ),
            decreases VAD_INPUT_SIZE - features@.len(),
        {
            features.push(0);
            assert(features@ =~= before.group + Seq::new(
                (features@.len() - before.group.len()) as nat,
                |index: int| 0i16,
            ));
        }
        let frames: Vec<usize> = frame_numbers(self.frames - real_frames, real_frames - 1);
        assert(self.detection() =~= (Detection { group: Seq::empty(), ..before }));
        Some(VadGroup { features, frames })
    }

    /// A group of silence without frames.
    pub fn closing_group(&self) -> (group: VadGroup)
        ensures
            group.features@ == Seq::new(VAD_INPUT_SIZE as nat, |index: int| 0i16),
            group.frames@.len() == 0,
    {
        let features: Vec<i16> = vec![0; VAD_INPUT_SIZE];
        assert(features@ =~= Seq::new(VAD_INPUT_SIZE as nat, |index: int| 0i16));
        VadGroup { features, frames: Vec::new() }
    }

    /// Notes a status, and hands out the segment that it closes.
    fn record_status(&mut self, status: VadStatus, final_flush: bool) -> (segment: Option<
        EdgeEsrVadSegment,
    >)
        requires
            old(self).valid(),
        ensures
            final(self).valid(),
            final(self).config() == old(self).config(),
            final(self).data() == old(self).data(),
            final(self).endpoint == old(self).endpoint,
            ({
                let before = old(self).detection();
                let (open, closed) = recorded(
                    old(self).config(),
                    before.samples,
                    before.endpoint,
                    before.open,
                    status,
                    final_flush,
                );
                &&& final(self).detection() == (Detection { open, ..before })
                &&& match segment {
                    Some(segment) => closed == Some(segment@),
                    None => closed is None,
                }
            }),
    {
        if status == VadStatus::SpeechStart {
            self.open = Some(
                OpenSpeech {
                    segment_start: self.endpoint.start_pause_frame(),
                    speech_start: self.endpoint.real_pause_frame(),
                },
            );
            return None;
        }
        if status != VadStatus::SpeechEnd {
            return None;
        }
        match self.open {
            Some(speech) => {
                self.open = None;
                let end_pause_frame: i32 = self.endpoint.end_pause_frame();
                let real_pause_frame: i32 = self.endpoint.real_pause_frame();
                let segment = close_segment(
                    &self.config,
                    &self.samples,
                    end_pause_frame,
                    real_pause_frame,
                    speech,
                    final_flush,
                );
                assert(segment@ == closed_segment(
                    self.config,
                    self.samples@,
                    self.endpoint.endpoint(),
                    speech.segment_start as int,
                    speech.speech_start as int,
                    final_flush,
                ));
                Some(segment)
            },
            None => None,
        }
    }
}

impl VadSegmenter {
    /// Takes the evidence of one frame.
    fn hear_frame(&mut self, frame: usize, neural: bool, flush_frame: i32) -> (segment: Option<
        EdgeEsrVadSegment,
    >)
        requires
            old(self).valid(),
            has_room(old(self).detection(), 1),
        ensures
            final(self).valid(),
            final(self).config() == old(self).config(),
            final(self).data() == old(self).data(),
            final(self).detection().endpoint.checked_frame_count
                == old(self).detection().endpoint.checked_frame_count + 1,
            ({
                let (after, closed) = frame_heard(
                    old(self).config(),
                    old(self).detection(),
                    frame,
                    neural,
                    flush_frame as int,
                );
                &&& final(self).detection() == after
                &&& match segment {
                    Some(segment) => closed == Some(segment@),
                    None => closed is None,
                }
            }),
    {
        let energy: bool = frame_energy_active(&self.samples, frame);
        let evidence: VadEvidenceFrame = self.endpoint.push_evidence(neural, energy);
        self.settle(evidence.frame, flush_frame, flush_frame >= 0)
    }

    /// Steps to a frame, notes its status and moves on.
    fn settle(&mut self, frame: i32, flush_frame: i32, final_flush: bool) -> (segment: Option<
        EdgeEsrVadSegment,
    >)
        requires
            old(self).fits(),
            0 <= frame,
            frame + 1 == old(self).detection().endpoint.checked_frame_count,
            has_room(old(self).detection(), 0),
            old(self).detection().endpoint.last_silence_frame >= -lookback(),
            old(self).detection().endpoint.segment_count
                < old(self).detection().endpoint.checked_frame_count,
        ensures
            final(self).valid(),
            final(self).config() == old(self).config(),
            final(self).data() == old(self).data(),
            ({
                let before = old(self).detection();
                let (stepped, status) = vad_endpoint::stepped(
                    endpoint_config(old(self).config()),
                    before.endpoint,
                    frame as int,
                    flush_frame as int,
                );
                let (open, closed) = recorded(
                    old(self).config(),
                    before.samples,
                    stepped,
                    before.open,
                    status,
                    final_flush,
                );
                &&& final(self).detection() == (Detection {
                    endpoint: Endpoint { current_frame: frame + 1, read_delay: 0, ..stepped },
                    open,
                    ..before
                })
                &&& match segment {
                    Some(segment) => closed == Some(segment@),
                    None => closed is None,
                }
            }),
    {
        let ghost before = self.detection();
        let result: Result<VadStatus, VadError> = self.endpoint.step(frame, flush_frame);
        proof {
            let after = self.endpoint.endpoint();
            assert(after.checked_frame_count == before.endpoint.checked_frame_count);
            assert(after.segment_count <= before.endpoint.segment_count + 1);
        }
        let segment: Option<EdgeEsrVadSegment> = match result {
            Ok(status) => self.record_status(status, final_flush),
            Err(_) => None,
        };
        self.endpoint.advance_to(frame + 1);
        segment
    }

    /// Takes the answer of the model on a group with the given frames, and hands out the segments
    /// that it closes. `neural` says for each frame of the answer whether it is speech.
    pub fn accept(
        &mut self,
        frames: Vec<usize>,
        ready: bool,
        neural: &[bool],
        flush_frame: i32,
    ) -> (segments: Vec<EdgeEsrVadSegment>)
        requires
            old(self).valid(),
            has_room(
                old(self).detection(),
                settled(old(self).detection().pending, ready, neural@),
            ),
        ensures
            final(self).valid(),
            final(self).config() == old(self).config(),
            final(self).data() == old(self).data(),
            (final(self).detection(), segment_views(segments@)) == answered(
                old(self).config(),
                old(self).detection(),
                frames@,
                ready,
                neural@,
                flush_frame as int,
            ),
    {
        let ghost before = self.detection();
        let ghost config = self.config();
        let ghost data = self.data();
        let mut replaced: Option<Vec<usize>> = Some(frames);
        std::mem::swap(&mut replaced, &mut self.pending);
        let ghost start = Detection { pending: Some(frames@), ..before };
        assert(self.detection() =~= start);
        let mut segments: Vec<EdgeEsrVadSegment> = Vec::new();
        assert(segment_views(segments@) =~= Seq::empty());
        let earlier: Vec<usize> = match replaced {
            Some(earlier) => earlier,
            None => {
                return segments;
            },
        };
        if !ready {
            return segments;
        }
        let count: usize = if earlier.len() <= neural.len() {
            earlier.len()
        } else {
            neural.len()
        };
        for index in 0..count
            invariant
                self.valid(),
                self.config() == config,
                self.data() == data,
                count <= earlier@.len(),
                count <= neural@.len(),
                has_room(start, count as int),
                self.detection().endpoint.checked_frame_count == start.endpoint.checked_frame_count
                    + index,
                (self.detection(), segment_views(segments@)) == frames_heard(
                    config,
                    start,
                    earlier@,
                    neural@,
                    flush_frame as int,
                    index as int,
                ),
        {
            let ghost closed = segment_views(segments@);
            if let Some(segment) = self.hear_frame(earlier[index], neural[index], flush_frame) {
                segments.push(segment);
                assert(segment_views(segments@) =~= closed.push(segment@));
            }
        }
        segments
    }

    /// Adds frames of silence up to the end of the input, and hands out the segments that they
    /// close.
    pub fn pad(&mut self, flush_frame: i32) -> (segments: Vec<EdgeEsrVadSegment>)
        requires
            old(self).valid(),
            has_room(old(self).detection(), missing_frames(old(self).detection())),
        ensures
            final(self).valid(),
            final(self).config() == old(self).config(),
            final(self).data() == old(self).data(),
            (final(self).detection(), segment_views(segments@)) == padded(
                old(self).config(),
                old(self).detection(),
                flush_frame as int,
                missing_frames(old(self).detection()),
            ),
    {
        let ghost before = self.detection();
        let ghost config = self.config();
        let ghost data = self.data();
        let rounded: usize = (self.frames + 3) / 4 * 4;
        let checked: usize = self.endpoint.checked_frame_count() as usize;
        let missing: usize = if rounded > checked {
            rounded - checked
        } else {
            0
        };
        let mut segments: Vec<EdgeEsrVadSegment> = Vec::new();
        assert(segment_views(segments@) =~= Seq::empty());
        for index in 0..missing
            invariant
                self.valid(),
                self.config() == config,
                self.data() == data,
                missing == missing_frames(before),
                has_room(before, missing as int),
                self.detection().endpoint.checked_frame_count
                    == before.endpoint.checked_frame_count + index,
                (self.detection(), segment_views(segments@)) == padded(
                    config,
                    before,
                    flush_frame as int,
                    index as int,
                ),
        {
            let ghost closed = segment_views(segments@);
            let evidence: VadEvidenceFrame = self.endpoint.pad_silence();
            if let Some(segment) = self.settle(evidence.frame, flush_frame, true) {
                segments.push(segment);
                assert(segment_views(segments@) =~= closed.push(segment@));
            }
        }
        segments
    }

    /// Ends the input, and hands out the segment that its end closes.
    pub fn end_input(&mut self) -> (segment: Option<EdgeEsrVadSegment>)
        requires
            old(self).valid(),
        ensures
            final(self).valid(),
            final(self).config() == old(self).config(),
            final(self).data() == old(self).data(),
            ({
                let (after, closed) = input_ended(old(self).config(), old(self).detection());
                &&& final(self).detection() == after
                &&& match segment {
                    Some(segment) => closed == Some(segment@),
                    None => closed is None,
                }
            }),
    {
        let frame: i32 = self.endpoint.current_frame();
        let status: VadStatus = self.endpoint.finalize(frame);
        if status == VadStatus::SpeechEnd {
            self.record_status(status, true)
        } else {
            None
        }
    }
}


/// What a segment tells: its samples are those of the audio from its start to its end, its speech
/// lasts as many whole milliseconds as it has samples for, the end of the input is the reason just
/// when it closes the segment, and otherwise it is the length just if the speech lasts as long as a
/// segment may. Its audio takes in its speech where the detector's margins do.
pub proof fn law_segments_tell_their_audio(
    config: EdgeEsrVadConfig,
    samples: Seq<i16>,
    endpoint: Endpoint,
    segment_start: int,
    speech_start: int,
    final_flush: bool,
)
    requires
        config.sample_rate > 0,
        samples.len() * 1_000 <= u32::MAX,
    ensures
        ({
            let segment = closed_segment(
                config,
                samples,
                endpoint,
                segment_start,
                speech_start,
                final_flush,
            );
            let length = segment.end_sample - segment.start_sample;
            &&& forall|index: int|
                0 <= index < segment.samples.len() ==> #[trigger] segment.samples[index]
                    == samples[segment.audio_start_sample + index]
            &&& segment.speech_ms * config.sample_rate <= length * 1_000
            &&& length * 1_000 < (segment.speech_ms + 1) * config.sample_rate
            &&& (segment.reason == EdgeEsrVadSegmentReason::Finish) == final_flush
            &&& !final_flush ==> ((segment.reason == EdgeEsrVadSegmentReason::MaxDuration) == (length
                >= config.sample_rate * config.max_segment_ms / 1_000))
            &&& 0 <= segment_start && segment_start * 160 <= samples.len()
                ==> segment.audio_start_sample == segment_start * 160
            &&& 0 <= speech_start && speech_start * 160 <= samples.len() ==> segment.start_sample
                == speech_start * 160
            &&& speech_start <= endpoint.real_pause_frame && 0 <= endpoint.real_pause_frame
                && endpoint.real_pause_frame * 160 <= samples.len() ==> segment.end_sample
                == endpoint.real_pause_frame * 160
            &&& segment_start <= endpoint.end_pause_frame && 0 <= endpoint.end_pause_frame && (
            endpoint.end_pause_frame + 1) * 160 <= samples.len() ==> segment.audio_end_sample == (
            endpoint.end_pause_frame + 1) * 160
            &&& segment_start <= speech_start ==> segment.audio_start_sample <= segment.start_sample
            &&& segment_start <= speech_start && endpoint.real_pause_frame
                <= endpoint.end_pause_frame + 1 && speech_start <= endpoint.end_pause_frame + 1
                ==> segment.end_sample <= segment.audio_end_sample
        }),
{
    let segment = closed_segment(
        config,
        samples,
        endpoint,
        segment_start,
        speech_start,
        final_flush,
    );
    let length = segment.end_sample - segment.start_sample;
    let rate = config.sample_rate as int;
    lemma_fundamental_div_mod(length * 1_000, rate);
    lemma_mod_bound(length * 1_000, rate);
    lemma_div_is_ordered_by_denominator(length * 1_000, 1, rate);
    lemma_div_pos_is_pos(length * 1_000, rate);
    let whole = length * 1_000 / rate;
    assert((whole + 1) * rate == rate * whole + rate && whole * rate == rate * whole)
        by (nonlinear_arith);
}

/// The number of frames is rounded up to the next multiple of four.
pub proof fn law_frames_fill_whole_groups(frames: int)
    requires
        0 <= frames,
    ensures
        frames <= rounded_frames(frames) < frames + 4,
        rounded_frames(frames) % 4 == 0,
{
}

/// The features of frames that begin at `cursor`, each a shift after the one before.
pub open spec fn features_from(data: Seq<u8>, samples: Seq<i16>, cursor: int, count: int) -> Seq<i16>
    decreases count,
{
    if count <= 0 {
        Seq::empty()
    } else {
        features_from(data, samples, cursor, count - 1) + reduced(
            frontend::frame_features(
                data,
                samples.subrange(cursor + 160 * (count - 1), cursor + 160 * (count - 1) + 400),
                VAD_FEATURE_SIZE as int,
            ),
        )
    }
}

proof fn lemma_features_from(data: Seq<u8>, samples: Seq<i16>, cursor: int, count: int)
    requires
        0 < count,
    ensures
        features_from(data, samples, cursor, count) == reduced(
            frontend::frame_features(
                data,
                samples.subrange(cursor, cursor + 400),
                VAD_FEATURE_SIZE as int,
            ),
        ) + features_from(data, samples, cursor + 160, count - 1),
    decreases count,
{
    let first = reduced(
        frontend::frame_features(
            data,
            samples.subrange(cursor, cursor + 400),
            VAD_FEATURE_SIZE as int,
        ),
    );
    if count > 1 {
        lemma_features_from(data, samples, cursor, count - 1);
        assert(cursor + 160 + 160 * (count - 2) == cursor + 160 * (count - 1));
        assert(features_from(data, samples, cursor, count) =~= first + features_from(
            data,
            samples,
            cursor + 160,
            count - 1,
        ));
    } else {
        assert(features_from(data, samples, cursor, 0) =~= Seq::empty());
        assert(features_from(data, samples, cursor, 1) =~= first + features_from(
            data,
            samples,
            cursor + 160,
            0,
        ));
    }
}

/// Cutting goes on until a group is full or the samples do not suffice for a frame; each frame begins
/// a shift after the one before it, and its features follow those in hand.
pub proof fn law_frames_are_cut_in_order(data: Seq<u8>, state: Detection)
    ensures
        ({
            let after = frames_cut(data, state);
            let count = after.frames - state.frames;
            &&& 0 <= count
            &&& after.cursor == state.cursor + 160 * count
            &&& after.group == state.group + features_from(
                data,
                state.samples,
                state.cursor as int,
                count,
            )
            &&& after.samples == state.samples
            &&& after.endpoint == state.endpoint
            &&& after.open == state.open
            &&& after.pending == state.pending
            &&& after.group.len() >= VAD_INPUT_SIZE || after.samples.len() - after.cursor < 400
            &&& count > 0 ==> state.group.len() < VAD_INPUT_SIZE && state.cursor + 160 * (count - 1)
                + 400 <= state.samples.len()
        }),
    decreases state.samples.len() - state.cursor,
{
    if state.group.len() < VAD_INPUT_SIZE && has_frame(state) {
        let next = frame_cut(data, state);
        law_frames_are_cut_in_order(data, next);
        let after = frames_cut(data, next);
        let count = after.frames - state.frames;
        lemma_features_from(data, state.samples, state.cursor as int, count);
        assert(after.group =~= state.group + features_from(
            data,
            state.samples,
            state.cursor as int,
            count,
        ));
    } else {
        assert(state.group =~= state.group + features_from(
            data,
            state.samples,
            state.cursor as int,
            0,
        ));
    }
}

/// No speech was heard yet.
pub open spec fn unspoken(state: Detection) -> bool {
    &&& state.open is None
    &&& state.endpoint.start_pause_frame < 0
    &&& state.endpoint.cumulative_speech.len() == vad_endpoint::HISTORY_SIZE
    &&& forall|index: int|
        0 <= index < vad_endpoint::HISTORY_SIZE
            ==> #[trigger] state.endpoint.cumulative_speech[index] == 0
}

/// Where the model calls no frame speech, no segment is opened or closed, however loud the samples
/// are; nor is one where no frame is active, whatever the model says.
pub proof fn law_no_speech_no_segments(
    config: EdgeEsrVadConfig,
    state: Detection,
    frames: Seq<usize>,
    neural: Seq<bool>,
    flush_frame: int,
    count: int,
)
    requires
        unspoken(state),
        0 <= count <= frames.len(),
        count <= neural.len(),
        forall|index: int|
            0 <= index < count ==> !#[trigger] neural[index] || !frame_active(
                state.samples,
                frames[index] as int,
            ),
    ensures
        frames_heard(config, state, frames, neural, flush_frame, count).1.len() == 0,
        unspoken(frames_heard(config, state, frames, neural, flush_frame, count).0),
        frames_heard(config, state, frames, neural, flush_frame, count).0.samples == state.samples,
    decreases count,
{
    if count > 0 {
        law_no_speech_no_segments(config, state, frames, neural, flush_frame, count - 1);
        let before = frames_heard(config, state, frames, neural, flush_frame, count - 1).0;
        let settings = endpoint_config(config);
        let heard = vad_endpoint::evidence_state(
            settings,
            before.endpoint,
            neural[count - 1],
            frame_active(before.samples, frames[count - 1] as int),
            true,
        );
        vad_endpoint::law_steps_keep_the_evidence(
            settings,
            heard,
            before.endpoint.checked_frame_count,
            flush_frame,
        );
    }
}

}
