//! Streaming transcription: which audio goes to the recogniser, what is committed, and which
//! updates are sent.
//!
//! Times and confidences are binary32 numbers, given by their bits; how they are added and averaged
//! is handed in as functions.

use vstd::prelude::*;

use crate::frontend::sample_part;
use crate::text::{chars_of, matches_at, push_text, string_of};
use crate::text;
use crate::types;
use crate::types::copy_texts;
use crate::vad::{EdgeEsrVadSegment, EdgeEsrVadSegmentReason};
use crate::vad;

verus! {

/// How many samples the recogniser takes at once.
pub const STREAM_ACCEPT_SAMPLES: usize = 10_240;

/// How many samples of silence end a segment.
pub const FINAL_PADDING_SAMPLES: usize = 12_800;

/// A segment was started while another one was active.
#[derive(Clone, Copy, Debug, PartialEq, Eq, Structural)]
pub struct SegmentActive;

/// Which audio has gone to the recogniser.
#[derive(Clone, Copy, Debug, PartialEq, Eq, Structural)]
pub struct AudioCursor {
    pub active: bool,
    pub asr_cursor: usize,
    pub active_audio_start: usize,
}

/// A position held within the audio.
pub open spec fn within(position: int, audio_len: int) -> int {
    if position < audio_len {
        position
    } else {
        audio_len
    }
}

/// The larger of two positions.
pub open spec fn farther(left: int, right: int) -> int {
    if left < right {
        right
    } else {
        left
    }
}

/// The next part of the audio for the recogniser: a whole chunk, or what is left when it is forced.
pub open spec fn next_part(
    cursor: AudioCursor,
    audio_end: int,
    audio_len: int,
    force: bool,
) -> Option<(int, int)> {
    let end = farther(within(audio_end, audio_len), cursor.asr_cursor as int);
    let start = cursor.asr_cursor as int;
    if !cursor.active {
        None
    } else if end - start >= STREAM_ACCEPT_SAMPLES {
        Some((start, start + STREAM_ACCEPT_SAMPLES))
    } else if force && start < end {
        Some((start, end))
    } else {
        None
    }
}

/// The part of the audio that a segment commits: up to what was recognised, or to its end.
pub open spec fn committed_part(
    cursor: AudioCursor,
    audio_start: int,
    audio_end: int,
    audio_len: int,
) -> (int, int) {
    (
        within(audio_start, audio_len),
        within(farther(cursor.asr_cursor as int, audio_end), audio_len),
    )
}

impl AudioCursor {
    /// No segment is active.
    pub fn new() -> (cursor: Self)
        ensures
            cursor == (AudioCursor { active: false, asr_cursor: 0, active_audio_start: 0 }),
    {
        AudioCursor { active: false, asr_cursor: 0, active_audio_start: 0 }
    }

    /// Starts a segment.
    pub fn start(&mut self, audio_start: usize, audio_len: usize) -> (result: Result<
        (),
        SegmentActive,
    >)
        ensures
            match result {
                Ok(_) => !old(self).active && final(self).active && final(self).asr_cursor
                    == within(audio_start as int, audio_len as int)
                    && final(self).active_audio_start == final(self).asr_cursor,
                Err(_) => old(self).active && *final(self) == *old(self),
            },
    {
        if self.active {
            return Err(SegmentActive);
        }
        let start: usize = if audio_start < audio_len {
            audio_start
        } else {
            audio_len
        };
        self.active = true;
        self.active_audio_start = start;
        self.asr_cursor = start;
        Ok(())
    }

    /// Takes the next part of the audio for the recogniser.
    pub fn feed(&mut self, audio_end: usize, audio_len: usize, force: bool) -> (result: Option<
        (usize, usize),
    >)
        ensures
            match result {
                Some((start, end)) => next_part(
                    *old(self),
                    audio_end as int,
                    audio_len as int,
                    force,
                ) == Some((start as int, end as int)) && *final(self) == (AudioCursor {
                    asr_cursor: end,
                    ..*old(self)
                }),
                None => next_part(*old(self), audio_end as int, audio_len as int, force) is None
                    && *final(self) == *old(self),
            },
    {
        if !self.active {
            return None;
        }
        let held: usize = if audio_end < audio_len {
            audio_end
        } else {
            audio_len
        };
        let end: usize = if held < self.asr_cursor {
            self.asr_cursor
        } else {
            held
        };
        let start: usize = self.asr_cursor;
        if end - start >= STREAM_ACCEPT_SAMPLES {
            self.asr_cursor = start + STREAM_ACCEPT_SAMPLES;
            Some((start, start + STREAM_ACCEPT_SAMPLES))
        } else if force && start < end {
            self.asr_cursor = end;
            Some((start, end))
        } else {
            None
        }
    }

    /// How much audio of the active segment has gone to the recogniser.
    pub fn active_samples(&self) -> (result: usize)
        ensures
            result == farther(self.asr_cursor - self.active_audio_start, 0),
    {
        if self.asr_cursor < self.active_audio_start {
            0
        } else {
            self.asr_cursor - self.active_audio_start
        }
    }

    /// Ends a segment; the part of the audio that it commits.
    pub fn commit(&mut self, audio_start: usize, audio_end: usize, audio_len: usize) -> (result: (
        usize,
        usize,
    ))
        ensures
            (result.0 as int, result.1 as int) == committed_part(
                *old(self),
                audio_start as int,
                audio_end as int,
                audio_len as int,
            ),
            !final(self).active,
            final(self).asr_cursor == within(audio_end as int, audio_len as int),
            final(self).active_audio_start == old(self).active_audio_start,
    {
        let farthest: usize = if self.asr_cursor < audio_end {
            audio_end
        } else {
            self.asr_cursor
        };
        let end: usize = if farthest < audio_len {
            farthest
        } else {
            audio_len
        };
        let start: usize = if audio_start < audio_len {
            audio_start
        } else {
            audio_len
        };
        self.active = false;
        self.asr_cursor = if audio_end < audio_len {
            audio_end
        } else {
            audio_len
        };
        (start, end)
    }

    /// The segment that the end of the input ends.
    pub fn last_segment(&self, audio: &[i16]) -> (segment: EdgeEsrVadSegment)
        requires
            audio@.len() * 1_000 <= u64::MAX,
        ensures
            ({
                let len = audio@.len() as int;
                let start = within(self.active_audio_start as int, len);
                segment@ == (vad::Segment {
                    samples: audio@.subrange(start, len),
                    reason: EdgeEsrVadSegmentReason::Finish,
                    speech_ms: ((len - start) * 1_000 / 16_000) as u32,
                    start_sample: start,
                    end_sample: len,
                    audio_start_sample: start,
                    audio_end_sample: len,
                })
            }),
    {
        let end: usize = audio.len();
        let start: usize = if self.active_audio_start < end {
            self.active_audio_start
        } else {
            end
        };
        let milliseconds: u64 = (end - start) as u64 * 1_000 / 16_000;
        let speech_ms: u32 = #[verifier::truncate] (milliseconds as u32);
        EdgeEsrVadSegment {
            samples: sample_part(audio, start, end),
            reason: EdgeEsrVadSegmentReason::Finish,
            speech_ms,
            start_sample: start,
            end_sample: end,
            audio_start_sample: start,
            audio_end_sample: end,
        }
    }
}

/// The recogniser takes the audio of a segment in order and without gaps: each part starts where
/// the one before ended, and lies within the audio.
pub proof fn law_audio_is_taken_in_order(
    cursor: AudioCursor,
    audio_end: int,
    audio_len: int,
    force: bool,
)
    requires
        cursor.asr_cursor <= audio_len,
    ensures
        next_part(cursor, audio_end, audio_len, force) matches Some(part) ==> part.0
            == cursor.asr_cursor && part.0 < part.1 <= audio_len && part.1 - part.0
            <= STREAM_ACCEPT_SAMPLES,
        force && cursor.active && next_part(cursor, audio_end, audio_len, force) is None
            ==> cursor.asr_cursor >= within(audio_end, audio_len),
{
}

/// A transcript: its text, its tokens with their times, and how sure it is.
#[derive(Debug)]
pub struct EdgeEsrTranscription {
    pub text: String,
    pub tokens: Vec<String>,
    pub token_timestamps: Option<Vec<u32>>,
    pub confidence: u32,
}

/// The content of a transcript.
#[verifier::ext_equal]
pub struct Transcript {
    pub text: Seq<char>,
    pub tokens: Seq<Seq<char>>,
    pub times: Option<Seq<u32>>,
    pub confidence: u32,
}

impl View for EdgeEsrTranscription {
    type V = Transcript;

    open spec fn view(&self) -> Transcript {
        Transcript {
            text: self.text@,
            tokens: types::text_views(self.tokens@),
            times: match self.token_timestamps {
                Some(times) => Some(times@),
                None => None,
            },
            confidence: self.confidence,
        }
    }
}

/// The segments of a transcript that will not change any more.
#[derive(Debug)]
pub struct CommittedTranscription {
    text: String,
    tokens: Vec<String>,
    token_timestamps: Vec<u32>,
    confidence_sum: u32,
    segment_count: usize,
}

/// The content of committed segments.
#[verifier::ext_equal]
pub struct Committed {
    pub text: Seq<char>,
    pub tokens: Seq<Seq<char>>,
    pub times: Seq<u32>,
    pub confidence_sum: u32,
    pub segments: int,
}

impl View for CommittedTranscription {
    type V = Committed;

    closed spec fn view(&self) -> Committed {
        Committed {
            text: self.text@,
            tokens: types::text_views(self.tokens@),
            times: self.token_timestamps@,
            confidence_sum: self.confidence_sum,
            segments: self.segment_count as int,
        }
    }
}

/// `shifted` are the times of a transcript's tokens, moved by an offset; the offset itself where
/// there are no times.
pub open spec fn shifts<F: Fn(u32, u32) -> u32>(
    plus: F,
    transcript: Transcript,
    offset: u32,
    shifted: Seq<u32>,
) -> bool {
    match transcript.times {
        Some(times) => shifted.len() == times.len() && forall|index: int|
            0 <= index < times.len() ==> call_ensures(
                plus,
                (times[index], offset),
                #[trigger] shifted[index],
            ),
        None => shifted.len() == transcript.tokens.len() && forall|index: int|
            0 <= index < shifted.len() ==> #[trigger] shifted[index] == offset,
    }
}

/// How committed segments go on with one more.
pub open spec fn appends<F: Fn(u32, u32) -> u32>(
    plus: F,
    before: Committed,
    transcript: Transcript,
    offset: u32,
    after: Committed,
) -> bool {
    &&& after.text == before.text + transcript.text
    &&& after.tokens == before.tokens + transcript.tokens
    &&& after.times.len() >= before.times.len()
    &&& after.times.take(before.times.len() as int) == before.times
    &&& shifts(plus, transcript, offset, after.times.skip(before.times.len() as int))
    &&& call_ensures(
        plus,
        (before.confidence_sum, transcript.confidence),
        after.confidence_sum,
    )
    &&& after.segments == before.segments + 1
}

/// The times of committed segments, if there is one for each token.
pub open spec fn committed_times(committed: Committed) -> Option<Seq<u32>> {
    if committed.tokens.len() > 0 && committed.times.len() == committed.tokens.len() {
        Some(committed.times)
    } else {
        None
    }
}

/// A transcript of committed segments: its confidence is the mean of theirs.
pub open spec fn transcribes<G: Fn(u32, usize) -> u32>(
    mean: G,
    committed: Committed,
    transcript: Transcript,
) -> bool {
    &&& transcript.text == committed.text
    &&& transcript.tokens == committed.tokens
    &&& transcript.times == committed_times(committed)
    &&& if committed.segments == 0 {
        transcript.confidence == 0
    } else {
        call_ensures(
            mean,
            (committed.confidence_sum, committed.segments as usize),
            transcript.confidence,
        )
    }
}

/// A transcript of committed segments with an active one after them.
pub open spec fn transcribes_with<F: Fn(u32, u32) -> u32, G: Fn(u32, usize) -> u32>(
    plus: F,
    mean: G,
    committed: Committed,
    active: Transcript,
    offset: u32,
    transcript: Transcript,
) -> bool {
    &&& transcript.text == committed.text + active.text
    &&& transcript.tokens == committed.tokens + active.tokens
    &&& match committed_times(committed) {
        Some(times) => transcript.times matches Some(all) && all.len() >= times.len() && all.take(
            times.len() as int,
        ) == times && shifts(plus, active, offset, all.skip(times.len() as int)),
        None => transcript.times is None,
    }
    &&& if committed.segments == 0 {
        transcript.confidence == active.confidence
    } else {
        call_ensures(
            mean,
            (committed.confidence_sum, committed.segments as usize),
            transcript.confidence,
        )
    }
}

/// Appends the times of a transcript's tokens, moved by an offset.
fn push_shifted<F: Fn(u32, u32) -> u32>(
    plus: &F,
    times: &mut Vec<u32>,
    transcription: &EdgeEsrTranscription,
    offset: u32,
)
    requires
        forall|left: u32, right: u32| call_requires(*plus, (left, right)),
    ensures
        final(times)@.len() >= old(times)@.len(),
        final(times)@.take(old(times)@.len() as int) == old(times)@,
        shifts(
            *plus,
            transcription@,
            offset,
            final(times)@.skip(old(times)@.len() as int),
        ),
{
    let ghost before = times@;
    match &transcription.token_timestamps {
        Some(own) => {
            for index in 0..own.len()
                invariant
                    forall|left: u32, right: u32| call_requires(*plus, (left, right)),
                    times@.len() == before.len() + index,
                    times@.take(before.len() as int) == before,
                    forall|place: int|
                        0 <= place < index ==> call_ensures(
                            *plus,
                            (own@[place], offset),
                            #[trigger] times@[before.len() + place],
                        ),
            {
                let ghost known = times@;
                let shifted: u32 = plus(own[index], offset);
                times.push(shifted);
                assert(times@.take(before.len() as int) =~= known.take(before.len() as int));
                assert forall|place: int| 0 <= place < index + 1 implies call_ensures(
                    *plus,
                    (own@[place], offset),
                    #[trigger] times@[before.len() + place],
                ) by {
                    if place < index {
                        assert(times@[before.len() + place] == known[before.len() + place]);
                    }
                }
            }
            proof {
                let added = times@.skip(before.len() as int);
                assert forall|index: int| 0 <= index < own@.len() implies call_ensures(
                    *plus,
                    (own@[index], offset),
                    #[trigger] added[index],
                ) by {
                    assert(added[index] == times@[before.len() + index]);
                }
            }
        },
        None => {
            for index in 0..transcription.tokens.len()
                invariant
                    times@.len() == before.len() + index,
                    times@.take(before.len() as int) == before,
                    forall|place: int|
                        before.len() <= place < times@.len() ==> #[trigger] times@[place]
                            == offset,
            {
                let ghost known = times@;
                times.push(offset);
                assert(times@.take(before.len() as int) =~= known.take(before.len() as int));
            }
        },
    }
}

/// Appends copies of strings.
fn push_texts(texts: &mut Vec<String>, more: &[String])
    ensures
        types::text_views(final(texts)@) == types::text_views(old(texts)@) + types::text_views(
            more@,
        ),
{
    let mut copies: Vec<String> = copy_texts(more);
    let ghost before = types::text_views(texts@);
    let ghost added = types::text_views(copies@);
    texts.append(&mut copies);
    assert(types::text_views(texts@) =~= before + added);
}

/// One text after another.
fn joined(left: &str, right: &str) -> (result: String)
    ensures
        result@ == left@ + right@,
{
    let mut characters: Vec<char> = chars_of(left);
    push_text(&mut characters, right);
    string_of(&characters)
}

/// A copy of times.
fn copy_times(times: &Vec<u32>) -> (result: Vec<u32>)
    ensures
        result@ == times@,
{
    let mut result: Vec<u32> = Vec::new();
    for index in 0..times.len()
        invariant
            result@ == times@.take(index as int),
    {
        result.push(times[index]);
        assert(result@ =~= times@.take(index + 1));
    }
    assert(times@.take(times@.len() as int) =~= times@);
    result
}

impl CommittedTranscription {
    /// No segments.
    pub fn new() -> (committed: Self)
        ensures
            committed@ == (Committed {
                text: Seq::empty(),
                tokens: Seq::empty(),
                times: Seq::empty(),
                confidence_sum: 0,
                segments: 0,
            }),
    {
        let committed = CommittedTranscription {
            text: String::new(),
            tokens: Vec::new(),
            token_timestamps: Vec::new(),
            confidence_sum: 0,
            segment_count: 0,
        };
        assert(committed@.tokens =~= Seq::empty());
        committed
    }

    /// The committed text.
    pub fn text(&self) -> (result: &str)
        ensures
            result@ == self@.text,
    {
        self.text.as_str()
    }

    /// How many segments are committed.
    pub fn segment_count(&self) -> (result: usize)
        ensures
            result == self@.segments,
    {
        self.segment_count
    }

    /// Commits a segment whose audio starts at `offset`.
    pub fn append<F: Fn(u32, u32) -> u32>(
        &mut self,
        plus: &F,
        transcription: &EdgeEsrTranscription,
        offset: u32,
    )
        requires
            forall|left: u32, right: u32| call_requires(*plus, (left, right)),
            old(self)@.segments < usize::MAX,
        ensures
            appends(*plus, old(self)@, transcription@, offset, final(self)@),
    {
        self.text = joined(self.text.as_str(), transcription.text.as_str());
        push_texts(&mut self.tokens, &transcription.tokens);
        push_shifted(plus, &mut self.token_timestamps, transcription, offset);
        self.confidence_sum = plus(self.confidence_sum, transcription.confidence);
        self.segment_count = self.segment_count + 1;
    }

    /// The transcript of the committed segments.
    pub fn transcription<G: Fn(u32, usize) -> u32>(&self, mean: &G) -> (result: EdgeEsrTranscription)
        requires
            forall|sum: u32, count: usize| call_requires(*mean, (sum, count)),
        ensures
            transcribes(*mean, self@, result@),
    {
        let token_timestamps: Option<Vec<u32>> = if self.tokens.len() > 0
            && self.token_timestamps.len() == self.tokens.len() {
            Some(copy_times(&self.token_timestamps))
        } else {
            None
        };
        let confidence: u32 = if self.segment_count == 0 {
            0
        } else {
            mean(self.confidence_sum, self.segment_count)
        };
        EdgeEsrTranscription {
            text: self.text.clone(),
            tokens: copy_texts(&self.tokens),
            token_timestamps,
            confidence,
        }
    }

    /// The transcript of the committed segments with an active one after them, whose audio starts
    /// at `offset`.
    pub fn with_active<F: Fn(u32, u32) -> u32, G: Fn(u32, usize) -> u32>(
        &self,
        plus: &F,
        mean: &G,
        active: &EdgeEsrTranscription,
        offset: u32,
    ) -> (result: EdgeEsrTranscription)
        requires
            forall|left: u32, right: u32| call_requires(*plus, (left, right)),
            forall|sum: u32, count: usize| call_requires(*mean, (sum, count)),
        ensures
            transcribes_with(*plus, *mean, self@, active@, offset, result@),
    {
        let base: EdgeEsrTranscription = self.transcription(mean);
        let mut tokens: Vec<String> = base.tokens;
        push_texts(&mut tokens, &active.tokens);
        let token_timestamps: Option<Vec<u32>> = match base.token_timestamps {
            Some(mut times) => {
                push_shifted(plus, &mut times, active, offset);
                Some(times)
            },
            None => None,
        };
        let confidence: u32 = if self.segment_count == 0 {
            active.confidence
        } else {
            base.confidence
        };
        EdgeEsrTranscription {
            text: joined(base.text.as_str(), active.text.as_str()),
            tokens,
            token_timestamps,
            confidence,
        }
    }
}

/// As long as transcripts have a time for each token, or none at all, so have the committed
/// segments.
pub proof fn law_every_token_keeps_its_time<F: Fn(u32, u32) -> u32>(
    plus: F,
    before: Committed,
    transcript: Transcript,
    offset: u32,
    after: Committed,
)
    requires
        appends(plus, before, transcript, offset, after),
        before.times.len() == before.tokens.len(),
        transcript.times matches Some(times) ==> times.len() == transcript.tokens.len(),
    ensures
        after.times.len() == after.tokens.len(),
        after.tokens.len() > 0 ==> committed_times(after) == Some(after.times),
{
}

/// Committing a segment leaves the text and the tokens that were shown while it was active as they
/// are, and what was committed before it stays in front.
pub proof fn law_committing_keeps_what_was_shown<F: Fn(u32, u32) -> u32, G: Fn(u32, usize) -> u32>(
    plus: F,
    mean: G,
    before: Committed,
    active: Transcript,
    offset: u32,
    shown: Transcript,
    after: Committed,
    result: Transcript,
)
    requires
        transcribes_with(plus, mean, before, active, offset, shown),
        appends(plus, before, active, offset, after),
        transcribes(mean, after, result),
    ensures
        result.text == shown.text,
        result.tokens == shown.tokens,
        before.text.is_prefix_of(result.text),
        before.tokens.is_prefix_of(result.tokens),
{
}

/// What an update says of the ones before it.
#[derive(Clone, Copy, Debug, PartialEq, Eq, Structural)]
pub struct Emission {
    pub revision: bool,
    pub revision_count: usize,
    pub sequence: usize,
}

/// The updates that were sent.
#[derive(Debug)]
pub struct SessionEmissionState {
    last_text: Vec<char>,
    revision_count: usize,
    sequence: usize,
}

/// The content of what was sent.
#[verifier::ext_equal]
pub struct Sent {
    pub last_text: Seq<char>,
    pub revisions: int,
    pub sequence: int,
}

impl View for SessionEmissionState {
    type V = Sent;

    closed spec fn view(&self) -> Sent {
        Sent {
            last_text: self.last_text@,
            revisions: self.revision_count as int,
            sequence: self.sequence as int,
        }
    }
}

/// A text does not go on from the last one that was sent.
pub open spec fn revises(sent: Sent, content: Seq<char>) -> bool {
    sent.last_text.len() > 0 && !text::occurs_at(content, sent.last_text, 0)
}

/// An update has nothing new: no segment is committed, it is not the last one, and the text is the
/// same.
pub open spec fn is_idle(sent: Sent, content: Seq<char>, committed: bool, last: bool) -> bool {
    !last && !committed && content == sent.last_text
}

/// A text that goes on from the last one revises nothing, and the last one again is not sent.
pub proof fn law_longer_texts_revise_nothing(sent: Sent, more: Seq<char>)
    ensures
        !revises(sent, sent.last_text + more),
        is_idle(sent, sent.last_text, false, false),
{
    let content = sent.last_text + more;
    assert(text::occurs_at(content, sent.last_text, 0)) by {
        assert(content.subrange(0, sent.last_text.len() as int) =~= sent.last_text);
    }
}

impl SessionEmissionState {
    /// Nothing was sent.
    pub fn new() -> (state: Self)
        ensures
            state@ == (Sent { last_text: Seq::empty(), revisions: 0, sequence: 0 }),
    {
        let state = SessionEmissionState {
            last_text: Vec::new(),
            revision_count: 0,
            sequence: 0,
        };
        assert(state@.last_text =~= Seq::empty());
        state
    }

    /// How often the text was revised.
    pub fn revision_count(&self) -> (result: usize)
        ensures
            result == self@.revisions,
    {
        self.revision_count
    }

    /// Decides whether to send a text, and what to say of the ones before it.
    pub fn emit(&mut self, content: &str, committed: bool, last: bool) -> (result: Option<Emission>)
        requires
            old(self)@.revisions < usize::MAX,
            old(self)@.sequence < usize::MAX,
        ensures
            match result {
                None => is_idle(old(self)@, content@, committed, last) && final(self)@ == old(
                    self,
                )@,
                Some(emission) => !is_idle(old(self)@, content@, committed, last) && final(self)@
                    == (Sent {
                    last_text: content@,
                    revisions: old(self)@.revisions + if revises(old(self)@, content@) {
                        1int
                    } else {
                        0
                    },
                    sequence: old(self)@.sequence + 1,
                }) && emission.revision == revises(old(self)@, content@)
                    && emission.revision_count == final(self)@.revisions && emission.sequence
                    == final(self)@.sequence,
            },
    {
        let characters: Vec<char> = chars_of(content);
        if !last && !committed && text::same_chars(&characters, &self.last_text) {
            return None;
        }
        let revision: bool = self.last_text.len() > 0 && !matches_at(
            &characters,
            &self.last_text,
            0,
        );
        if revision {
            self.revision_count = self.revision_count + 1;
        }
        self.sequence = self.sequence + 1;
        self.last_text = characters;
        Some(
            Emission {
                revision,
                revision_count: self.revision_count,
                sequence: self.sequence,
            },
        )
    }
}

/// The recogniser gets a whole chunk as soon as there is one, and nothing less unless it is forced;
/// forced, it gets what is left. Without an active segment it gets nothing.
pub proof fn law_whole_chunks_are_taken(
    cursor: AudioCursor,
    audio_end: int,
    audio_len: int,
    force: bool,
)
    requires
        0 <= audio_end,
    ensures
        ({
            let start = cursor.asr_cursor as int;
            let part = next_part(cursor, audio_end, audio_len, force);
            let enough = start + STREAM_ACCEPT_SAMPLES <= audio_end && start + STREAM_ACCEPT_SAMPLES
                <= audio_len;
            &&& !cursor.active ==> part is None
            &&& cursor.active && enough ==> part == Some((start, start + STREAM_ACCEPT_SAMPLES))
            &&& !enough && !force ==> part is None
            &&& cursor.active && !enough && force && start < audio_end && start < audio_len
                ==> part == Some(
                (
                    start,
                    if audio_end < audio_len {
                        audio_end
                    } else {
                        audio_len
                    },
                ),
            )
            &&& start >= audio_end || start >= audio_len ==> part is None
        }),
{
}

/// With exact sums, the times of a segment's tokens move by where the segment begins, and those of
/// earlier segments stay.
pub proof fn law_times_move_with_their_segment<F: Fn(u32, u32) -> u32>(
    plus: F,
    before: Committed,
    transcript: Transcript,
    offset: u32,
    after: Committed,
    index: int,
)
    requires
        forall|one: u32, other: u32, result: u32|
            #[trigger] call_ensures(plus, (one, other), result) ==> result == one + other,
        appends(plus, before, transcript, offset, after),
        0 <= index < after.times.len(),
    ensures
        index < before.times.len() ==> after.times[index] == before.times[index],
        index >= before.times.len() && transcript.times is Some ==> after.times[index]
            == transcript.times->0[index - before.times.len()] + offset,
        index >= before.times.len() && transcript.times is None ==> after.times[index] == offset,
        after.segments == before.segments + 1,
        after.confidence_sum == before.confidence_sum + transcript.confidence,
{
    let count = before.times.len() as int;
    if index < count {
        assert(after.times.take(count)[index] == after.times[index]);
    } else {
        let shifted = after.times.skip(count);
        assert(shifted[index - count] == after.times[index]);
    }
}

}
