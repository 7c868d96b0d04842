//! How detection runs around its model: which group the model gets next, and what is told of speech.

use vstd::prelude::*;

use crate::frontend;
use crate::vad;
use crate::vad::{EdgeEsrVadConfig, EdgeEsrVadSegment, VadGroup, VadSegmenter};

verus! {

/// What a listener is told of speech.
#[derive(Debug)]
pub enum EdgeEsrVadEvent {
    /// Speech has started, with audio from a sample on.
    SpeechStart { audio_start_sample: usize },
    /// The audio up to a sample can be used.
    AudioReady { audio_end_sample: usize, force: bool },
    /// Speech has ended.
    SpeechEnd(EdgeEsrVadSegment),
}

/// The view of an [`EdgeEsrVadEvent`].
pub enum Event {
    SpeechStart { audio_start: int },
    AudioReady { audio_end: int, force: bool },
    SpeechEnd { segment: vad::Segment },
}

impl View for EdgeEsrVadEvent {
    type V = Event;

    open spec fn view(&self) -> Event {
        match *self {
            EdgeEsrVadEvent::SpeechStart { audio_start_sample } => Event::SpeechStart {
                audio_start: audio_start_sample as int,
            },
            EdgeEsrVadEvent::AudioReady { audio_end_sample, force } => Event::AudioReady {
                audio_end: audio_end_sample as int,
                force,
            },
            EdgeEsrVadEvent::SpeechEnd(segment) => Event::SpeechEnd { segment: segment@ },
        }
    }
}

/// The views of events.
pub open spec fn event_views(events: Seq<EdgeEsrVadEvent>) -> Seq<Event> {
    Seq::new(events.len(), |index: int| events[index]@)
}

/// What is told of segments that have closed: each one's end, and its start unless the first of
/// them was open before.
pub open spec fn segment_events(was_open: bool, segments: Seq<vad::Segment>) -> Seq<Event>
    decreases segments.len(),
{
    if segments.len() == 0 {
        Seq::empty()
    } else {
        let before = segment_events(was_open, segments.drop_last());
        let segment = segments.last();
        if segments.len() == 1 && was_open {
            before.push(Event::SpeechEnd { segment })
        } else {
            before.push(Event::SpeechStart { audio_start: segment.audio_start_sample }).push(
                Event::SpeechEnd { segment },
            )
        }
    }
}

/// What is told of the stretch of speech that is open now: its start if it is a new one, and up to
/// where its audio can be used.
pub open spec fn open_events(is_new: bool, start: Option<int>, audio_end: Option<int>) -> Seq<Event> {
    match start {
        Some(audio_start) => {
            let begun = if is_new {
                seq![Event::SpeechStart { audio_start }]
            } else {
                Seq::empty()
            };
            match audio_end {
                Some(audio_end) => begun.push(Event::AudioReady { audio_end, force: false }),
                None => begun,
            }
        },
        None => Seq::empty(),
    }
}

/// What is told after segments have closed.
pub open spec fn speech_events(
    was_open: bool,
    segments: Seq<vad::Segment>,
    start: Option<int>,
    audio_end: Option<int>,
) -> Seq<Event> {
    segment_events(was_open, segments) + open_events(
        !was_open || segments.len() > 0,
        start,
        audio_end,
    )
}

/// Whether speech is open after an event, or none if the event does not follow: a start comes
/// outside of speech, and all others inside.
pub open spec fn open_then(open: Option<bool>, event: Event) -> Option<bool> {
    match (open, event) {
        (Some(false), Event::SpeechStart { .. }) => Some(true),
        (Some(true), Event::AudioReady { .. }) => Some(true),
        (Some(true), Event::SpeechEnd { .. }) => Some(false),
        _ => None,
    }
}

/// Whether speech is open after events, or none if they do not follow from each other.
pub open spec fn open_after(was_open: bool, events: Seq<Event>) -> Option<bool>
    decreases events.len(),
{
    if events.len() == 0 {
        Some(was_open)
    } else {
        open_then(open_after(was_open, events.drop_last()), events.last())
    }
}

/// One more event.
proof fn lemma_open_after_push(was_open: bool, events: Seq<Event>, event: Event)
    ensures
        open_after(was_open, events.push(event)) == open_then(open_after(was_open, events), event),
{
    assert(events.push(event).drop_last() =~= events);
}

/// The events of closed segments leave no speech open.
proof fn lemma_segment_events(was_open: bool, segments: Seq<vad::Segment>)
    ensures
        open_after(was_open, segment_events(was_open, segments)) == Some(
            was_open && segments.len() == 0,
        ),
    decreases segments.len(),
{
    if segments.len() > 0 {
        lemma_segment_events(was_open, segments.drop_last());
        let before = segment_events(was_open, segments.drop_last());
        let segment = segments.last();
        let start = Event::SpeechStart { audio_start: segment.audio_start_sample };
        lemma_open_after_push(was_open, before, Event::SpeechEnd { segment });
        lemma_open_after_push(was_open, before, start);
        lemma_open_after_push(was_open, before.push(start), Event::SpeechEnd { segment });
    }
}

/// Starts and ends that are told alternate, audio is only told of while speech is open, and
/// afterwards speech is open just where detection has it open.
pub proof fn law_events_follow_from_each_other(
    was_open: bool,
    segments: Seq<vad::Segment>,
    start: Option<int>,
    audio_end: Option<int>,
)
    requires
        was_open && segments.len() == 0 ==> start is Some,
    ensures
        open_after(was_open, speech_events(was_open, segments, start, audio_end)) == Some(
            start is Some,
        ),
{
    let closed = segment_events(was_open, segments);
    lemma_segment_events(was_open, segments);
    match start {
        Some(audio_start) => {
            let begun = Event::SpeechStart { audio_start };
            let told = if !was_open || segments.len() > 0 {
                closed.push(begun)
            } else {
                closed
            };
            lemma_open_after_push(was_open, closed, begun);
            match audio_end {
                Some(audio_end) => {
                    let ready = Event::AudioReady { audio_end, force: false };
                    lemma_open_after_push(was_open, told, ready);
                    assert(speech_events(was_open, segments, start, Some(audio_end)) =~= told.push(
                        ready,
                    ));
                },
                None => {
                    assert(speech_events(was_open, segments, start, None) =~= told);
                },
            }
        },
        None => {
            assert(speech_events(was_open, segments, start, audio_end) =~= closed);
        },
    }
}

/// A position, if any.
pub open spec fn position_view(position: Option<usize>) -> Option<int> {
    match position {
        Some(position) => Some(position as int),
        None => None,
    }
}

/// Adds an event.
fn tell(events: &mut Vec<EdgeEsrVadEvent>, event: EdgeEsrVadEvent)
    ensures
        event_views(final(events)@) == event_views(old(events)@).push(event@),
{
    events.push(event);
    assert(event_views(events@) =~= event_views(old(events)@).push(event@));
}

/// Tells of segments that have closed, and of the stretch of speech that is open now.
fn tell_speech(
    was_open: bool,
    segments: Vec<EdgeEsrVadSegment>,
    start: Option<usize>,
    audio_end: Option<usize>,
) -> (events: Vec<EdgeEsrVadEvent>)
    ensures
        event_views(events@) == speech_events(
            was_open,
            vad::segment_views(segments@),
            position_view(start),
            position_view(audio_end),
        ),
{
    let ghost views = vad::segment_views(segments@);
    let count: usize = segments.len();
    let mut events: Vec<EdgeEsrVadEvent> = Vec::new();
    let mut rest: Vec<EdgeEsrVadSegment> = segments;
    assert(event_views(events@) =~= Seq::empty());
    assert(views.skip(0) =~= views);
    for index in 0..count
        invariant
            count == views.len(),
            vad::segment_views(rest@) == views.skip(index as int),
            event_views(events@) == segment_events(was_open, views.take(index as int)),
    {
        assert(vad::segment_views(rest@).len() == count - index);
        let ghost waiting = rest@;
        let segment: EdgeEsrVadSegment = rest.remove(0);
        proof {
            assert(segment@ == vad::segment_views(waiting)[0]);
            assert(vad::segment_views(rest@) =~= vad::segment_views(waiting).skip(1));
            assert(views.skip(index as int).skip(1) =~= views.skip(index + 1));
            assert(views.take(index + 1).drop_last() =~= views.take(index as int));
            assert(views.take(index + 1).last() == views[index as int]);
        }
        if index > 0 || !was_open {
            let audio_start_sample: usize = segment.audio_start_sample;
            tell(&mut events, EdgeEsrVadEvent::SpeechStart { audio_start_sample });
        }
        tell(&mut events, EdgeEsrVadEvent::SpeechEnd(segment));
    }
    assert(views.take(count as int) =~= views);
    let ghost closed = event_views(events@);
    if let Some(audio_start_sample) = start {
        if !was_open || count > 0 {
            tell(&mut events, EdgeEsrVadEvent::SpeechStart { audio_start_sample });
        }
        if let Some(audio_end_sample) = audio_end {
            tell(&mut events, EdgeEsrVadEvent::AudioReady { audio_end_sample, force: false });
        }
    }
    assert(event_views(events@) =~= closed + open_events(
        !was_open || count > 0,
        position_view(start),
        position_view(audio_end),
    ));
    events
}

/// Where detection stands when the input ends: whether groups are still to run, the group after the
/// last one, or the padding.
#[derive(Clone, Copy, Debug, PartialEq, Eq, Structural)]
pub enum FlushStage {
    Groups,
    Closing,
    Padding,
}

/// What to do next.
#[derive(Debug)]
pub enum VadAction {
    /// The model is to run on a group.
    Run { group: VadGroup, flush_frame: i32 },
    /// The input has ended, with these last events.
    Ended(Vec<EdgeEsrVadEvent>),
    /// More samples are to come.
    Wait,
}

/// The view of a [`VadAction`].
pub enum Action {
    Run { group: vad::Group, flush_frame: int },
    Ended { events: Seq<Event> },
    Wait,
}

impl View for VadAction {
    type V = Action;

    open spec fn view(&self) -> Action {
        match *self {
            VadAction::Run { group, flush_frame } => Action::Run {
                group: group@,
                flush_frame: flush_frame as int,
            },
            VadAction::Ended(events) => Action::Ended { events: event_views(events@) },
            VadAction::Wait => Action::Wait,
        }
    }
}

/// The sample at which the open stretch of speech begins.
pub open spec fn open_start(state: vad::Detection) -> Option<int> {
    match state.open {
        Some(speech) => Some(
            vad::frame_sample(speech.segment_start as int, state.samples.len() as int),
        ),
        None => None,
    }
}

/// The frames from `first` on.
pub open spec fn frames_from(first: int, count: int) -> Seq<usize> {
    Seq::new(count as nat, |index: int| (first + index) as usize)
}

/// The end of the input: silence fills up the last group, if there are frames.
pub open spec fn end_action(config: EdgeEsrVadConfig, state: vad::Detection) -> (
    vad::Detection,
    Action,
) {
    let (filled, segments) = if state.frames > 0 {
        vad::padded(config, state, vad::rounded_frames(state.frames), vad::missing_frames(state))
    } else {
        (state, Seq::empty())
    };
    let (ended, last) = vad::input_ended(config, filled);
    (
        ended,
        Action::Ended {
            events: speech_events(
                state.open is Some,
                vad::with_segment(segments, last),
                open_start(ended),
                None,
            ),
        },
    )
}

/// The group of silence after the last one, if there are frames, and otherwise the end.
pub open spec fn closing_action(config: EdgeEsrVadConfig, state: vad::Detection) -> (
    vad::Detection,
    FlushStage,
    Action,
) {
    if state.frames > 0 {
        let group = vad::Group {
            features: Seq::new(vad::VAD_INPUT_SIZE as nat, |index: int| 0i16),
            frames: Seq::empty(),
        };
        (
            state,
            FlushStage::Padding,
            Action::Run { group, flush_frame: vad::rounded_frames(state.frames) },
        )
    } else {
        let (ended, action) = end_action(config, state);
        (ended, FlushStage::Groups, action)
    }
}

/// The last group, filled up with zeros, if it is not full. The last of its frames is left out, or
/// else the last frame that is owed.
pub open spec fn partial_action(config: EdgeEsrVadConfig, state: vad::Detection) -> (
    vad::Detection,
    FlushStage,
    Action,
) {
    let real_frames = state.group.len() as int / 40;
    if state.group.len() > 0 {
        let zeros = Seq::new(
            (vad::VAD_INPUT_SIZE - state.group.len()) as nat,
            |index: int| 0i16,
        );
        let group = vad::Group {
            features: state.group + zeros,
            frames: frames_from(state.frames - real_frames, real_frames - 1),
        };
        (
            vad::Detection { group: Seq::empty(), ..state },
            FlushStage::Closing,
            Action::Run { group, flush_frame: vad::rounded_frames(state.frames) },
        )
    } else {
        let pending = match state.pending {
            Some(frames) => Some(
                if frames.len() > 0 {
                    frames.drop_last()
                } else {
                    frames
                },
            ),
            None => None,
        };
        closing_action(config, vad::Detection { pending, ..state })
    }
}

/// What to do next: full groups come first, and once the input has ended the last group, a group of
/// silence, and the padding.
pub open spec fn next_action(
    config: EdgeEsrVadConfig,
    data: Seq<u8>,
    state: vad::Detection,
    stage: FlushStage,
    last: bool,
) -> (vad::Detection, FlushStage, Action) {
    match stage {
        FlushStage::Groups => {
            let cut = vad::frames_cut(data, state);
            if cut.group.len() == vad::VAD_INPUT_SIZE {
                let group = vad::Group {
                    features: cut.group,
                    frames: frames_from(
                        cut.frames - vad::STACKED_FRAMES,
                        vad::STACKED_FRAMES as int,
                    ),
                };
                (
                    vad::Detection { group: Seq::empty(), ..cut },
                    FlushStage::Groups,
                    Action::Run { group, flush_frame: -1 },
                )
            } else if last {
                partial_action(config, cut)
            } else {
                (cut, FlushStage::Groups, Action::Wait)
            }
        },
        FlushStage::Closing => closing_action(config, state),
        FlushStage::Padding => {
            let (ended, action) = end_action(config, state);
            (ended, FlushStage::Groups, action)
        },
    }
}

/// A stretch of speech stays open until a segment closes.
proof fn lemma_speech_stays_open(
    config: EdgeEsrVadConfig,
    state: vad::Detection,
    frames: Seq<usize>,
    neural: Seq<bool>,
    flush_frame: int,
    count: int,
)
    ensures
        ({
            let (after, segments) = vad::frames_heard(
                config,
                state,
                frames,
                neural,
                flush_frame,
                count,
            );
            state.open is Some && segments.len() == 0 ==> after.open is Some
        }),
    decreases count,
{
    if count > 0 {
        lemma_speech_stays_open(config, state, frames, neural, flush_frame, count - 1);
    }
}

/// What is told after an answer of the model follows from what was told before, and leaves speech
/// open just where detection has it open.
pub proof fn law_answers_are_told_in_order(
    config: EdgeEsrVadConfig,
    state: vad::Detection,
    frames: Seq<usize>,
    ready: bool,
    neural: Seq<bool>,
    flush_frame: int,
    audio_end: Option<int>,
)
    ensures
        ({
            let (after, segments) = vad::answered(
                config,
                state,
                frames,
                ready,
                neural,
                flush_frame,
            );
            let events = speech_events(
                state.open is Some,
                segments,
                open_start(after),
                audio_end,
            );
            open_after(state.open is Some, events) == Some(after.open is Some)
        }),
{
    let earlier = match state.pending {
        Some(earlier) => earlier,
        None => Seq::empty(),
    };
    let (after, segments) = vad::answered(config, state, frames, ready, neural, flush_frame);
    lemma_speech_stays_open(
        config,
        vad::Detection { pending: Some(frames), ..state },
        earlier,
        neural,
        flush_frame,
        vad::settled(state.pending, ready, neural),
    );
    law_events_follow_from_each_other(
        state.open is Some,
        segments,
        open_start(after),
        audio_end,
    );
}

/// Detection around a model that it does not run.
#[derive(Debug)]
pub struct VadSession {
    segmenter: VadSegmenter,
    stage: FlushStage,
}

impl VadSession {
    pub closed spec fn config(self) -> EdgeEsrVadConfig {
        self.segmenter.config()
    }

    /// The tables of the extractor.
    pub closed spec fn data(self) -> Seq<u8> {
        self.segmenter.data()
    }

    /// What detection has in hand.
    pub closed spec fn detection(self) -> vad::Detection {
        self.segmenter.detection()
    }

    /// How far the end of the input has come.
    pub closed spec fn stage(self) -> FlushStage {
        self.stage
    }

    pub closed spec fn valid(self) -> bool {
        self.segmenter.valid()
    }

    pub fn new(segmenter: VadSegmenter) -> (session: Self)
        requires
            segmenter.valid(),
        ensures
            session.valid(),
            session.config() == segmenter.config(),
            session.data() == segmenter.data(),
            session.detection() == segmenter.detection(),
            session.stage() == FlushStage::Groups,
    {
        VadSession { segmenter, stage: FlushStage::Groups }
    }

    /// Forgets all samples.
    pub fn reset(&mut self)
        requires
            old(self).valid(),
        ensures
            final(self).valid(),
            final(self).config() == old(self).config(),
            final(self).data() == old(self).data(),
            final(self).detection() == vad::initial_detection(),
            final(self).stage() == FlushStage::Groups,
    {
        self.segmenter.reset();
        self.stage = FlushStage::Groups;
    }

    /// Takes more samples.
    pub fn push(&mut self, samples: &[i16])
        requires
            old(self).valid(),
        ensures
            final(self).valid(),
            final(self).config() == old(self).config(),
            final(self).data() == old(self).data(),
            final(self).detection() == (vad::Detection {
                samples: old(self).detection().samples + samples@,
                ..old(self).detection()
            }),
            final(self).stage() == old(self).stage(),
    {
        self.segmenter.push(samples);
    }

    /// Whether a stretch of speech is open.
    pub fn detected(&self) -> (result: bool)
        ensures
            result == (self.detection().open is Some),
    {
        self.segmenter.detected()
    }

    /// How many frames were cut.
    pub fn frame_total(&self) -> (frames: usize)
        ensures
            frames == self.detection().frames,
    {
        self.segmenter.frame_total()
    }

    /// How many frames were classified.
    pub fn checked_frame_count(&self) -> (frames: i32)
        ensures
            frames == self.detection().endpoint.checked_frame_count,
    {
        self.segmenter.checked_frame_count()
    }

    /// Ends the input.
    fn end(&mut self) -> (action: VadAction)
        requires
            old(self).valid(),
            old(self).detection().samples.len() < 160 * (i32::MAX - 3),
            old(self).detection().frames > 0 ==> vad::has_room(
                old(self).detection(),
                vad::missing_frames(old(self).detection()),
            ),
        ensures
            final(self).valid(),
            final(self).config() == old(self).config(),
            final(self).data() == old(self).data(),
            final(self).stage() == FlushStage::Groups,
            (final(self).detection(), action@) == end_action(
                old(self).config(),
                old(self).detection(),
            ),
    {
        proof {
            self.segmenter.lemma_frames_are_cut();
        }
        self.stage = FlushStage::Groups;
        let was_open: bool = self.segmenter.detected();
        let mut segments: Vec<EdgeEsrVadSegment> = Vec::new();
        assert(vad::segment_views(segments@) =~= Seq::empty());
        if self.segmenter.frame_total() > 0 {
            let flush_frame: i32 = self.segmenter.flush_frame();
            segments = self.segmenter.pad(flush_frame);
        }
        let ghost before = vad::segment_views(segments@);
        if let Some(segment) = self.segmenter.end_input() {
            segments.push(segment);
            assert(vad::segment_views(segments@) =~= before.push(segment@));
        }
        let start: Option<usize> = self.segmenter.open_audio_start();
        VadAction::Ended(tell_speech(was_open, segments, start, None))
    }

    /// Gives the group after the last one, or ends the input.
    fn close(&mut self) -> (action: VadAction)
        requires
            old(self).valid(),
            old(self).detection().samples.len() < 160 * (i32::MAX - 3),
        ensures
            final(self).valid(),
            final(self).config() == old(self).config(),
            final(self).data() == old(self).data(),
            (final(self).detection(), final(self).stage(), action@) == closing_action(
                old(self).config(),
                old(self).detection(),
            ),
    {
        proof {
            self.segmenter.lemma_frames_are_cut();
        }
        if self.segmenter.frame_total() > 0 {
            self.stage = FlushStage::Padding;
            let flush_frame: i32 = self.segmenter.flush_frame();
            let group: VadGroup = self.segmenter.closing_group();
            assert(group@.frames =~= Seq::empty());
            return VadAction::Run { group, flush_frame };
        }
        self.end()
    }

    /// What to do next. `last` says that no more samples will come.
    pub fn next_action(&mut self, last: bool) -> (action: VadAction)
        requires
            old(self).valid(),
            old(self).detection().samples.len() < 160 * (i32::MAX - 3),
            old(self).stage() == FlushStage::Padding ==> vad::has_room(
                old(self).detection(),
                vad::missing_frames(old(self).detection()),
            ),
        ensures
            final(self).valid(),
            final(self).config() == old(self).config(),
            final(self).data() == old(self).data(),
            (final(self).detection(), final(self).stage(), action@) == next_action(
                old(self).config(),
                old(self).data(),
                old(self).detection(),
                old(self).stage(),
                last,
            ),
    {
        proof {
            vad::lemma_cutting_keeps_samples(self.data(), self.detection());
        }
        match self.stage {
            FlushStage::Padding => {
                return self.end();
            },
            FlushStage::Closing => {
                return self.close();
            },
            FlushStage::Groups => {},
        }
        if let Some(group) = self.segmenter.next_group() {
            assert(group@.frames =~= frames_from(
                self.detection().frames - vad::STACKED_FRAMES,
                vad::STACKED_FRAMES as int,
            ));
            return VadAction::Run { group, flush_frame: -1 };
        }
        if !last {
            return VadAction::Wait;
        }
        let ghost cut = self.detection();
        proof {
            self.segmenter.lemma_frames_are_cut();
        }
        let flush_frame: i32 = self.segmenter.flush_frame();
        if let Some(group) = self.segmenter.partial_group() {
            self.stage = FlushStage::Closing;
            let ghost real_frames = cut.group.len() as int / 40;
            assert(group@.frames =~= frames_from(cut.frames - real_frames, real_frames - 1));
            return VadAction::Run { group, flush_frame };
        }
        self.close()
    }

    /// Takes the answer of the model on a group with the given frames; what is told of speech.
    pub fn answer(
        &mut self,
        frames: Vec<usize>,
        ready: bool,
        neural: &[bool],
        flush_frame: i32,
    ) -> (events: Vec<EdgeEsrVadEvent>)
        requires
            old(self).valid(),
            vad::has_room(
                old(self).detection(),
                vad::settled(old(self).detection().pending, ready, neural@),
            ),
        ensures
            final(self).valid(),
            final(self).config() == old(self).config(),
            final(self).data() == old(self).data(),
            final(self).stage() == old(self).stage(),
            ({
                let (after, segments) = vad::answered(
                    old(self).config(),
                    old(self).detection(),
                    frames@,
                    ready,
                    neural@,
                    flush_frame as int,
                );
                &&& final(self).detection() == after
                &&& event_views(events@) == speech_events(
                    old(self).detection().open is Some,
                    segments,
                    open_start(after),
                    if flush_frame < 0 {
                        Some(after.cursor)
                    } else {
                        None
                    },
                )
            }),
    {
        let was_open: bool = self.segmenter.detected();
        let segments: Vec<EdgeEsrVadSegment> = self.segmenter.accept(
            frames,
            ready,
            neural,
            flush_frame,
        );
        let start: Option<usize> = self.segmenter.open_audio_start();
        let audio_end: Option<usize> = if flush_frame < 0 {
            Some(self.segmenter.audio_end())
        } else {
            None
        };
        tell_speech(was_open, segments, start, audio_end)
    }
}

/// The segments whose ends are told, in their order.
pub open spec fn told_segments(events: Seq<Event>) -> Seq<vad::Segment>
    decreases events.len(),
{
    if events.len() == 0 {
        Seq::empty()
    } else {
        match events.last() {
            Event::SpeechEnd { segment } => told_segments(events.drop_last()).push(segment),
            _ => told_segments(events.drop_last()),
        }
    }
}

/// Every segment that closes is told once and in order, and each start that is told is where the
/// segment's audio begins.
pub proof fn law_every_segment_is_told(was_open: bool, segments: Seq<vad::Segment>)
    ensures
        told_segments(segment_events(was_open, segments)) == segments,
        segments.len() > 0 && (!was_open || segments.len() > 1) ==> {
            let events = segment_events(was_open, segments);
            events.len() >= 2 && events[events.len() - 2] == (Event::SpeechStart {
                audio_start: segments.last().audio_start_sample,
            })
        },
    decreases segments.len(),
{
    if segments.len() > 0 {
        let shorter = segments.drop_last();
        law_every_segment_is_told(was_open, shorter);
        let before = segment_events(was_open, shorter);
        let segment = segments.last();
        let start = Event::SpeechStart { audio_start: segment.audio_start_sample };
        let end = Event::SpeechEnd { segment };
        assert(before.push(end).drop_last() =~= before);
        assert(before.push(start).drop_last() =~= before);
        assert(before.push(start).push(end).drop_last() =~= before.push(start));
        assert(told_segments(before.push(start)) == told_segments(before));
        assert(shorter.push(segment) =~= segments);
    }
}

/// The group that runs holds the frames since the last one: with the features of some frames in hand,
/// it begins with the first of these, and ends with the last frame that was cut.
pub proof fn law_groups_hold_every_frame_once(
    config: EdgeEsrVadConfig,
    data: Seq<u8>,
    state: vad::Detection,
    last: bool,
    held: int,
)
    requires
        state.group.len() == 40 * held,
        0 <= held < 4,
        held <= state.frames,
        vad::frames_cut(data, state).group.len() == vad::VAD_INPUT_SIZE,
        vad::frames_cut(data, state).frames <= usize::MAX,
    ensures
        ({
            let (after, stage, action) = next_action(config, data, state, FlushStage::Groups, last);
            &&& action is Run
            &&& action->group.frames.len() == 4
            &&& forall|index: int|
                0 <= index < 4 ==> #[trigger] action->group.frames[index] == state.frames - held
                    + index
            &&& after.frames == state.frames - held + 4
            &&& after.group.len() == 0
            &&& action->group.features == state.group + vad::features_from(
                data,
                state.samples,
                state.cursor as int,
                4 - held,
            )
            &&& action->flush_frame == -1
        }),
{
    vad::law_frames_are_cut_in_order(data, state);
    let cut = vad::frames_cut(data, state);
    let count = cut.frames - state.frames;
    lemma_features_length(data, state.samples, state.cursor as int, count);
    assert(count == 4 - held);
}

proof fn lemma_features_length(data: Seq<u8>, samples: Seq<i16>, cursor: int, count: int)
    requires
        0 <= count,
    ensures
        vad::features_from(data, samples, cursor, count).len() == 40 * count,
    decreases count,
{
    if count > 0 {
        lemma_features_length(data, samples, cursor, count - 1);
        frontend::law_feature_count(
            data,
            samples.subrange(cursor + 160 * (count - 1), cursor + 160 * (count - 1) + 400),
            40,
        );
    }
}

}
