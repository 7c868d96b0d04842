//! The endpoint detector: frame evidence becomes speech segments.

use vstd::prelude::*;

verus! {

/// How many frames of history the detector keeps.
pub const HISTORY_SIZE: usize = 256;

/// The window in which speech must begin.
pub const START_WINDOW: i32 = 20;

/// How many frames of speech the window must hold.
pub const START_REQUIRED: i32 = 15;

/// The window in which speech may have begun.
pub const MAYBE_START_WINDOW: i32 = 7;

/// The settings of the detector. Thresholds are binary32 numbers, held by their bits.
#[derive(Clone, Copy, Debug)]
pub struct VadEndpointConfig {
    pub energy_threshold: u32,
    pub frame_start_margin: i32,
    pub frame_end_margin: i32,
    pub end_gap: i32,
    pub pre_speech_end_on: bool,
    pub pre_speech_end: i32,
    pub time_two_pre_end: i32,
    pub delay_speech_end_on: bool,
    pub delay_speech_end_gap: i32,
    pub vad_threshold: u32,
    pub response_timeout: i32,
    pub speech_end: i32,
    pub force_segment: i32,
}

/// The settings that the detector has unless told otherwise.
pub open spec fn default_config() -> VadEndpointConfig {
    VadEndpointConfig {
        energy_threshold: 0,
        frame_start_margin: 30,
        frame_end_margin: 30,
        end_gap: 300,
        pre_speech_end_on: false,
        pre_speech_end: 50,
        time_two_pre_end: 100,
        delay_speech_end_on: false,
        delay_speech_end_gap: 100,
        vad_threshold: 0,
        response_timeout: 6_000,
        speech_end: 800,
        force_segment: 6_000,
    }
}

impl Default for VadEndpointConfig {
    fn default() -> (config: Self)
        ensures
            config == default_config(),
    {
        VadEndpointConfig {
            energy_threshold: 0,
            frame_start_margin: 30,
            frame_end_margin: 30,
            end_gap: 300,
            pre_speech_end_on: false,
            pre_speech_end: 50,
            time_two_pre_end: 100,
            delay_speech_end_on: false,
            delay_speech_end_gap: 100,
            vad_threshold: 0,
            response_timeout: 6_000,
            speech_end: 800,
            force_segment: 6_000,
        }
    }
}

/// What the detector says of a frame.
#[derive(Clone, Copy, Debug, PartialEq, Eq, Structural)]
pub enum VadStatus {
    Nothing,
    SpeechStart,
    Speech,
    SpeechEnd,
    Timeout,
    PreSpeechEnd,
    DelayedSpeechEnd,
}

/// The number of a status.
pub open spec fn status_code(status: VadStatus) -> int {
    match status {
        VadStatus::Nothing => 0,
        VadStatus::SpeechStart => 1,
        VadStatus::Speech => 2,
        VadStatus::SpeechEnd => 3,
        VadStatus::Timeout => 4,
        VadStatus::PreSpeechEnd => 5,
        VadStatus::DelayedSpeechEnd => 6,
    }
}

impl VadStatus {
    /// The number of the status.
    pub fn code(self) -> (code: i32)
        ensures
            code == status_code(self),
    {
        match self {
            VadStatus::Nothing => 0,
            VadStatus::SpeechStart => 1,
            VadStatus::Speech => 2,
            VadStatus::SpeechEnd => 3,
            VadStatus::Timeout => 4,
            VadStatus::PreSpeechEnd => 5,
            VadStatus::DelayedSpeechEnd => 6,
        }
    }
}

/// Why the detector refuses a request.
#[derive(Clone, Copy, Debug, PartialEq, Eq, Structural)]
pub enum VadError {
    /// A setting is out of range.
    InvalidConfig,
    /// The frame has no evidence yet.
    FrameNotClassified,
}

/// The evidence that one frame gave.
#[derive(Clone, Copy, Debug, PartialEq, Eq, Structural)]
pub struct VadEvidenceFrame {
    pub frame: i32,
    pub neural_speech: bool,
    pub energy_active: bool,
    pub speech_evidence: bool,
    pub cumulative_speech: i32,
    pub silence_run: i32,
}

/// The state of the detector.
#[derive(Debug)]
pub struct VadEndpointState {
    pub cumulative_speech: Vec<i32>,
    pub silence_history: Vec<i32>,
    pub start_pause_frame: i32,
    pub may_pause_frame: i32,
    pub end_pause_frame: i32,
    pub current_frame: i32,
    pub checked_frame_count: i32,
    pub read_delay: i32,
    pub frame_margin: i32,
    pub pre_end_pause_frame: i32,
    pub real_pause_frame: i32,
    pub silence_run: i32,
    pub last_silence_frame: i32,
    pub segment_count: i32,
    pub finished: bool,
    pub response_timeout: bool,
    pub speech_timeout: bool,
    pub delay_end_found: bool,
    pub pre_end_status: i32,
    pub current_status: i32,
}

/// The view of a [`VadEndpointState`].
#[verifier::ext_equal]
pub struct Endpoint {
    pub cumulative_speech: Seq<i32>,
    pub silence_history: Seq<i32>,
    pub start_pause_frame: int,
    pub may_pause_frame: int,
    pub end_pause_frame: int,
    pub current_frame: int,
    pub checked_frame_count: int,
    pub read_delay: int,
    pub frame_margin: int,
    pub pre_end_pause_frame: int,
    pub real_pause_frame: int,
    pub silence_run: int,
    pub last_silence_frame: int,
    pub segment_count: int,
    pub finished: bool,
    pub response_timeout: bool,
    pub speech_timeout: bool,
    pub delay_end_found: bool,
    pub pre_end_status: int,
    pub current_status: int,
}

impl View for VadEndpointState {
    type V = Endpoint;

    open spec fn view(&self) -> Endpoint {
        Endpoint {
            cumulative_speech: self.cumulative_speech@,
            silence_history: self.silence_history@,
            start_pause_frame: self.start_pause_frame as int,
            may_pause_frame: self.may_pause_frame as int,
            end_pause_frame: self.end_pause_frame as int,
            current_frame: self.current_frame as int,
            checked_frame_count: self.checked_frame_count as int,
            read_delay: self.read_delay as int,
            frame_margin: self.frame_margin as int,
            pre_end_pause_frame: self.pre_end_pause_frame as int,
            real_pause_frame: self.real_pause_frame as int,
            silence_run: self.silence_run as int,
            last_silence_frame: self.last_silence_frame as int,
            segment_count: self.segment_count as int,
            finished: self.finished,
            response_timeout: self.response_timeout,
            speech_timeout: self.speech_timeout,
            delay_end_found: self.delay_end_found,
            pre_end_status: self.pre_end_status as int,
            current_status: self.current_status as int,
        }
    }
}

/// The state before the first frame.
pub open spec fn initial_state() -> Endpoint {
    Endpoint {
        cumulative_speech: Seq::new(HISTORY_SIZE as nat, |index: int| 0i32),
        silence_history: Seq::new(HISTORY_SIZE as nat, |index: int| 0i32),
        start_pause_frame: -1,
        may_pause_frame: -1,
        end_pause_frame: -1,
        current_frame: 0,
        checked_frame_count: 0,
        read_delay: 0,
        frame_margin: -1,
        pre_end_pause_frame: -1,
        real_pause_frame: -1,
        silence_run: 0,
        last_silence_frame: 0,
        segment_count: 0,
        finished: false,
        response_timeout: false,
        speech_timeout: false,
        delay_end_found: false,
        pre_end_status: -1,
        current_status: 0,
    }
}

impl Default for VadEndpointState {
    fn default() -> (state: Self)
        ensures
            state@ == initial_state(),
    {
        let state = VadEndpointState {
            cumulative_speech: vec![0; HISTORY_SIZE],
            silence_history: vec![0; HISTORY_SIZE],
            start_pause_frame: -1,
            may_pause_frame: -1,
            end_pause_frame: -1,
            current_frame: 0,
            checked_frame_count: 0,
            read_delay: 0,
            frame_margin: -1,
            pre_end_pause_frame: -1,
            real_pause_frame: -1,
            silence_run: 0,
            last_silence_frame: 0,
            segment_count: 0,
            finished: false,
            response_timeout: false,
            speech_timeout: false,
            delay_end_found: false,
            pre_end_status: -1,
            current_status: 0,
        };
        assert(state@ =~= initial_state());
        state
    }
}

/// A binary32 number with the given bits is finite.
pub open spec fn finite_bits(bits: u32) -> bool {
    bits < 0x7f80_0000 || 0x8000_0000 <= bits < 0xff80_0000
}

/// A binary32 number with the given bits lies from zero to one.
pub open spec fn unit_bits(bits: u32) -> bool {
    bits <= 0x3f80_0000 || bits == 0x8000_0000
}

/// The settings are in range.
pub open spec fn valid_config(config: VadEndpointConfig) -> bool {
    &&& config.frame_start_margin >= 0
    &&& config.frame_end_margin >= 0
    &&& config.end_gap >= 0
    &&& config.pre_speech_end >= 0
    &&& config.time_two_pre_end >= 0
    &&& config.delay_speech_end_gap >= 0
    &&& config.response_timeout >= 0
    &&& config.speech_end >= 0
    &&& config.force_segment >= 0
    &&& finite_bits(config.energy_threshold)
    &&& unit_bits(config.vad_threshold)
}

/// The larger of two numbers.
pub open spec fn larger(left: int, right: int) -> int {
    if left >= right {
        left
    } else {
        right
    }
}

/// The position of a frame in the history; frames before the first count as the first.
pub open spec fn slot(frame: int) -> int {
    larger(frame, 0) % HISTORY_SIZE as int
}

/// How many frames of speech there were up to a frame, as the history has it.
pub open spec fn cumulative(state: Endpoint, frame: int) -> int {
    state.cumulative_speech[slot(frame)] as int
}

/// How long the silence lasted up to a frame, as the history has it.
pub open spec fn silence(state: Endpoint, frame: int) -> int {
    state.silence_history[slot(frame)] as int
}

/// The evidence of the next frame. `scalar` says that the frame was heard; a padding frame only
/// prolongs the silence in the history.
pub open spec fn next_evidence(
    config: VadEndpointConfig,
    state: Endpoint,
    neural_speech: bool,
    energy_active: bool,
    scalar: bool,
) -> (int, int) {
    let frame = state.checked_frame_count;
    let speech = neural_speech && energy_active;
    let forced = state.start_pause_frame >= 0 && frame - state.start_pause_frame
        > config.force_segment;
    let silence_run = if scalar {
        if speech {
            0
        } else {
            state.silence_run + 1
        }
    } else {
        silence(state, frame - 1) + 1
    };
    (
        cumulative(state, frame - 1) + (if scalar && speech && !forced {
            1int
        } else {
            0int
        }),
        silence_run,
    )
}

/// The state after the evidence of the next frame.
pub open spec fn evidence_state(
    config: VadEndpointConfig,
    state: Endpoint,
    neural_speech: bool,
    energy_active: bool,
    scalar: bool,
) -> Endpoint {
    let frame = state.checked_frame_count;
    let (speech, quiet) = next_evidence(config, state, neural_speech, energy_active, scalar);
    Endpoint {
        cumulative_speech: state.cumulative_speech.update(slot(frame), speech as i32),
        silence_history: state.silence_history.update(slot(frame), quiet as i32),
        silence_run: if scalar {
            quiet
        } else {
            state.silence_run
        },
        checked_frame_count: frame + 1,
        ..state
    }
}

/// The frame that evidence reports.
pub open spec fn evidence_frame(
    config: VadEndpointConfig,
    state: Endpoint,
    neural_speech: bool,
    energy_active: bool,
    scalar: bool,
) -> VadEvidenceFrame {
    let (speech, quiet) = next_evidence(config, state, neural_speech, energy_active, scalar);
    VadEvidenceFrame {
        frame: state.checked_frame_count as i32,
        neural_speech,
        energy_active,
        speech_evidence: neural_speech && energy_active,
        cumulative_speech: speech as i32,
        silence_run: quiet as i32,
    }
}

/// The window of the early end.
pub open spec fn early_window(config: VadEndpointConfig) -> int {
    larger(
        if config.speech_end <= config.pre_speech_end {
            config.speech_end - 1
        } else {
            config.pre_speech_end as int
        },
        0,
    )
}

/// The state in which a step works: the early end is forgotten once it is too long ago.
pub open spec fn step_start(config: VadEndpointConfig, state: Endpoint, frame: int) -> Endpoint {
    let window = early_window(config);
    let timeout = larger(config.time_two_pre_end as int, config.end_gap - window);
    let expired = window < config.end_gap && state.pre_end_status > 0 && state.start_pause_frame
        > 0 && frame - state.pre_end_status > timeout;
    Endpoint {
        current_frame: frame,
        pre_end_status: if expired {
            -1
        } else {
            state.pre_end_status
        },
        ..state
    }
}

/// The state after a segment began whose first speech ends its window at `frame`.
pub open spec fn started(config: VadEndpointConfig, state: Endpoint, frame: int) -> Endpoint {
    let read_delay = if frame - START_WINDOW > config.frame_start_margin {
        config.frame_start_margin + START_WINDOW + 1
    } else {
        frame + 1
    };
    Endpoint {
        read_delay,
        segment_count: state.segment_count + 1,
        start_pause_frame: larger(state.pre_end_pause_frame, frame - read_delay) + 1,
        end_pause_frame: -1,
        may_pause_frame: -1,
        real_pause_frame: larger(frame - START_WINDOW, 0),
        pre_end_status: -1,
        delay_end_found: false,
        current_status: status_code(VadStatus::SpeechStart),
        ..state
    }
}

/// An early end is found.
pub open spec fn early_end(config: VadEndpointConfig, state: Endpoint, frame: int) -> bool {
    let window = early_window(config);
    config.pre_speech_end_on && window > config.end_gap && state.pre_end_status < 0 && frame
        > window && cumulative(state, frame) == cumulative(state, frame - window)
}

/// The state and status after an early end.
pub open spec fn early_ended(state: Endpoint, frame: int) -> (Endpoint, VadStatus) {
    (Endpoint { pre_end_status: frame, ..state }, VadStatus::PreSpeechEnd)
}

/// Enough of the last frames are speech.
pub open spec fn speech_begins(state: Endpoint, frame: int) -> bool {
    cumulative(state, frame) - cumulative(state, frame - START_WINDOW) > START_REQUIRED - 1
}

/// Speech may have begun not too long ago.
pub open spec fn may_pause_open(config: VadEndpointConfig, state: Endpoint, frame: int) -> bool {
    state.may_pause_frame >= 0 && frame - state.may_pause_frame <= config.end_gap
}

/// Enough frames since speech may have begun are speech, this one among them.
pub open spec fn late_begin(config: VadEndpointConfig, state: Endpoint, frame: int) -> bool {
    may_pause_open(config, state, frame) && cumulative(state, frame) - cumulative(state, frame - 1)
        == 1 && cumulative(state, frame) - cumulative(state, state.may_pause_frame) > START_REQUIRED
        - 1
}

/// What a step does outside of speech.
pub open spec fn step_outside(
    config: VadEndpointConfig,
    before: Endpoint,
    frame: int,
) -> (Endpoint, VadStatus) {
    let open = may_pause_open(config, before, frame);
    let state = if open {
        before
    } else {
        Endpoint { may_pause_frame: -1, ..before }
    };
    let quiet = state.checked_frame_count - state.last_silence_frame;
    if speech_begins(before, frame) {
        (started(config, before, frame), VadStatus::SpeechStart)
    } else if late_begin(config, before, frame) {
        (started(config, before, before.may_pause_frame + START_WINDOW), VadStatus::SpeechStart)
    } else if state.segment_count == 0 && frame > config.response_timeout {
        (
            Endpoint {
                response_timeout: true,
                read_delay: 0,
                pre_end_status: -1,
                delay_end_found: false,
                ..state
            },
            VadStatus::Timeout,
        )
    } else if state.segment_count != 0 && config.delay_speech_end_on && !state.delay_end_found
        && quiet > config.delay_speech_end_gap {
        (
            Endpoint { read_delay: 0, delay_end_found: true, ..state },
            VadStatus::DelayedSpeechEnd,
        )
    } else if state.segment_count != 0 && quiet > config.speech_end {
        (
            Endpoint {
                speech_timeout: true,
                delay_end_found: false,
                read_delay: 0,
                pre_end_status: -1,
                ..state
            },
            VadStatus::Timeout,
        )
    } else {
        let marked = if !open && cumulative(state, frame) - cumulative(
            state,
            frame - MAYBE_START_WINDOW,
        ) > MAYBE_START_WINDOW - 1 {
            Endpoint { may_pause_frame: frame - MAYBE_START_WINDOW, ..state }
        } else {
            state
        };
        if marked.segment_count != 0 && early_end(config, marked, frame) {
            early_ended(marked, frame)
        } else {
            (marked, VadStatus::Nothing)
        }
    }
}

/// The state after a segment ended in silence.
pub open spec fn ended(config: VadEndpointConfig, state: Endpoint, frame: int) -> Endpoint {
    let candidate = frame - config.end_gap;
    let real_pause = candidate - silence(state, candidate);
    Endpoint {
        current_status: status_code(VadStatus::SpeechEnd),
        pre_end_pause_frame: real_pause + config.frame_end_margin,
        end_pause_frame: real_pause + config.frame_end_margin,
        real_pause_frame: real_pause,
        start_pause_frame: -1,
        frame_margin: -1,
        last_silence_frame: real_pause,
        ..state
    }
}

/// The state after a segment ended with the input.
pub open spec fn flushed(config: VadEndpointConfig, state: Endpoint, frame: int) -> Endpoint {
    let margin = state.frame_margin;
    let end = if margin > 0 {
        margin
    } else {
        frame
    };
    let real_pause = if margin > 0 {
        margin - config.frame_end_margin
    } else {
        frame
    };
    Endpoint {
        current_status: status_code(VadStatus::SpeechEnd),
        end_pause_frame: end,
        pre_end_pause_frame: end,
        real_pause_frame: real_pause,
        start_pause_frame: -1,
        read_delay: if margin < 0 {
            1
        } else {
            0
        },
        frame_margin: -1,
        last_silence_frame: real_pause,
        ..state
    }
}

/// What a step does inside of speech.
pub open spec fn step_inside(
    config: VadEndpointConfig,
    state: Endpoint,
    frame: int,
    flush_frame: int,
) -> (Endpoint, VadStatus) {
    if early_end(config, state, frame) {
        early_ended(state, frame)
    } else if frame > config.end_gap && cumulative(state, frame) == cumulative(
        state,
        frame - config.end_gap,
    ) {
        (ended(config, state, frame), VadStatus::SpeechEnd)
    } else if flush_frame - 1 == frame {
        (flushed(config, state, frame), VadStatus::SpeechEnd)
    } else if state.frame_margin < 0 {
        if frame > config.frame_end_margin && cumulative(state, frame) == cumulative(
            state,
            frame - config.frame_end_margin,
        ) {
            (Endpoint { frame_margin: frame, read_delay: 0, ..state }, VadStatus::Nothing)
        } else {
            (Endpoint { read_delay: 1, ..state }, VadStatus::Speech)
        }
    } else if frame > 1 && cumulative(state, frame) == cumulative(state, frame - 1) {
        (Endpoint { read_delay: 0, ..state }, VadStatus::Nothing)
    } else {
        (
            Endpoint {
                read_delay: frame + 1 - state.frame_margin,
                frame_margin: -1,
                ..state
            },
            VadStatus::Speech,
        )
    }
}

/// The state and status after a step to a frame.
pub open spec fn stepped(
    config: VadEndpointConfig,
    state: Endpoint,
    frame: int,
    flush_frame: int,
) -> (Endpoint, VadStatus) {
    let start = step_start(config, state, frame);
    if start.start_pause_frame < 0 {
        step_outside(config, start, frame)
    } else {
        step_inside(config, start, frame, flush_frame)
    }
}

/// The state and status after the input ended at a frame.
pub open spec fn finalized(state: Endpoint, frame: int) -> (Endpoint, VadStatus) {
    if state.start_pause_frame < 1 {
        (Endpoint { finished: true, ..state }, VadStatus::Timeout)
    } else {
        (
            Endpoint {
                end_pause_frame: frame,
                real_pause_frame: frame,
                start_pause_frame: -1,
                ..state
            },
            VadStatus::SpeechEnd,
        )
    }
}

/// The history and the counters hang together.
pub open spec fn consistent(config: VadEndpointConfig, state: Endpoint) -> bool {
    let count = state.checked_frame_count;
    &&& state.cumulative_speech.len() == HISTORY_SIZE
    &&& state.silence_history.len() == HISTORY_SIZE
    &&& 0 <= count
    &&& forall|index: int|
        0 <= index < HISTORY_SIZE ==> 0 <= #[trigger] state.cumulative_speech[index] <= count
    &&& forall|index: int|
        0 <= index < HISTORY_SIZE ==> 0 <= #[trigger] state.silence_history[index] <= count
    &&& 0 <= state.silence_run <= count
    &&& -1 <= state.start_pause_frame <= count + config.frame_end_margin + START_WINDOW
    &&& -MAYBE_START_WINDOW <= state.may_pause_frame <= count
    &&& -1 <= state.frame_margin <= count
    &&& -1 <= state.pre_end_status <= count
    &&& -count <= state.pre_end_pause_frame || -1 <= state.pre_end_pause_frame
    &&& state.pre_end_pause_frame <= count + config.frame_end_margin
    &&& -larger(count, config.frame_end_margin as int) <= state.last_silence_frame <= count
    &&& 0 <= state.segment_count
}

/// There is room for the evidence of one more frame.
pub open spec fn evidence_fits(state: Endpoint) -> bool {
    state.checked_frame_count < i32::MAX
}

/// No number leaves its range in a step to a frame. Outside of speech a segment may start, and the
/// silence since the last one is measured; inside of speech the segment may end.
pub open spec fn step_fits(config: VadEndpointConfig, state: Endpoint, frame: int) -> bool {
    if state.start_pause_frame < 0 {
        &&& state.segment_count < i32::MAX
        &&& state.pre_end_pause_frame < i32::MAX
        &&& state.may_pause_frame + START_WINDOW < i32::MAX
        &&& state.segment_count != 0 ==> state.checked_frame_count - state.last_silence_frame
            <= i32::MAX
    } else {
        frame - config.end_gap + config.frame_end_margin <= i32::MAX
    }
}

/// Starts and ends of speech alternate: a start is reported outside of speech and leads into it,
/// an end is reported inside of speech and leads out of it, and nothing else does either.
pub proof fn law_starts_and_ends_alternate(
    config: VadEndpointConfig,
    state: Endpoint,
    frame: int,
    flush_frame: int,
)
    requires
        0 <= frame,
    ensures
        ({
            let (next, status) = stepped(config, state, frame, flush_frame);
            match status {
                VadStatus::SpeechStart => state.start_pause_frame < 0 && next.start_pause_frame
                    >= 0,
                VadStatus::SpeechEnd => state.start_pause_frame >= 0 && next.start_pause_frame
                    == -1,
                _ => next.start_pause_frame == state.start_pause_frame,
            }
        }),
{
}

/// What may happen to a detector: evidence of a frame that was heard or padded, a step to a frame,
/// or a write to its state that leaves the start of the open segment as it is.
pub enum EndpointEvent {
    Evidence { neural_speech: bool, energy_active: bool, scalar: bool },
    Step { frame: int, flush_frame: int },
    Write { state: Endpoint },
}

/// The state of a new detector after events.
pub open spec fn run_state(config: VadEndpointConfig, events: Seq<EndpointEvent>) -> Endpoint
    decreases events.len(),
{
    if events.len() == 0 {
        initial_state()
    } else {
        let before = run_state(config, events.drop_last());
        match events.last() {
            EndpointEvent::Evidence { neural_speech, energy_active, scalar } => evidence_state(
                config,
                before,
                neural_speech,
                energy_active,
                scalar,
            ),
            EndpointEvent::Step { frame, flush_frame } => if 0 <= frame
                < before.checked_frame_count {
                stepped(config, before, frame, flush_frame).0
            } else {
                before
            },
            EndpointEvent::Write { state } => Endpoint {
                start_pause_frame: before.start_pause_frame,
                ..state
            },
        }
    }
}

/// What the last of the events reports: only a step to a frame with evidence does.
pub open spec fn run_report(config: VadEndpointConfig, events: Seq<EndpointEvent>) -> Option<
    VadStatus,
> {
    let before = run_state(config, events.drop_last());
    match events.last() {
        EndpointEvent::Step { frame, flush_frame } => if 0 <= frame < before.checked_frame_count {
            Some(stepped(config, before, frame, flush_frame).1)
        } else {
            None
        },
        _ => None,
    }
}

/// The last start or end of speech that events report.
pub open spec fn last_turn(config: VadEndpointConfig, events: Seq<EndpointEvent>) -> Option<
    VadStatus,
>
    decreases events.len(),
{
    if events.len() == 0 {
        None
    } else {
        match run_report(config, events) {
            Some(VadStatus::SpeechStart) => Some(VadStatus::SpeechStart),
            Some(VadStatus::SpeechEnd) => Some(VadStatus::SpeechEnd),
            _ => last_turn(config, events.drop_last()),
        }
    }
}

/// In every run of a new detector starts and ends of speech alternate, a start first: a start is
/// only reported where the last turn is no start, and an end only where it is one. After a start a
/// segment is open, and after an end none is.
pub proof fn law_turns_alternate_in_every_run(
    config: VadEndpointConfig,
    events: Seq<EndpointEvent>,
)
    ensures
        last_turn(config, events) == Some(VadStatus::SpeechStart) <==> run_state(
            config,
            events,
        ).start_pause_frame >= 0,
        last_turn(config, events) != Some(VadStatus::SpeechStart) ==> run_state(
            config,
            events,
        ).start_pause_frame == -1,
        events.len() > 0 && run_report(config, events) == Some(VadStatus::SpeechStart) ==> last_turn(
            config,
            events.drop_last(),
        ) != Some(VadStatus::SpeechStart),
        events.len() > 0 && run_report(config, events) == Some(VadStatus::SpeechEnd) ==> last_turn(
            config,
            events.drop_last(),
        ) == Some(VadStatus::SpeechStart),
    decreases events.len(),
{
    if events.len() > 0 {
        let before = run_state(config, events.drop_last());
        law_turns_alternate_in_every_run(config, events.drop_last());
        if let EndpointEvent::Step { frame, flush_frame } = events.last() {
            if 0 <= frame < before.checked_frame_count {
                law_starts_and_ends_alternate(config, before, frame, flush_frame);
            }
        }
    }
}

/// A timeout and a delayed end are only reported outside of speech.
pub proof fn law_timeouts_come_outside_of_speech(
    config: VadEndpointConfig,
    state: Endpoint,
    frame: int,
    flush_frame: int,
)
    ensures
        ({
            let (_, status) = stepped(config, state, frame, flush_frame);
            status == VadStatus::Timeout || status == VadStatus::DelayedSpeechEnd
                ==> state.start_pause_frame < 0
        }),
{
}

/// A step leaves the evidence as it was.
pub proof fn law_steps_keep_the_evidence(
    config: VadEndpointConfig,
    state: Endpoint,
    frame: int,
    flush_frame: int,
)
    ensures
        ({
            let (next, _) = stepped(config, state, frame, flush_frame);
            &&& next.cumulative_speech == state.cumulative_speech
            &&& next.silence_history == state.silence_history
            &&& next.checked_frame_count == state.checked_frame_count
            &&& next.silence_run == state.silence_run
        }),
{
}

/// A consistent state stays consistent over a step.
pub proof fn law_steps_keep_consistency(
    config: VadEndpointConfig,
    state: Endpoint,
    frame: int,
    flush_frame: int,
)
    requires
        valid_config(config),
        consistent(config, state),
        0 <= frame < state.checked_frame_count,
    ensures
        consistent(config, stepped(config, state, frame, flush_frame).0),
{
}

/// Evidence keeps a consistent state consistent.
pub proof fn law_evidence_keeps_consistency(
    config: VadEndpointConfig,
    state: Endpoint,
    neural_speech: bool,
    energy_active: bool,
    scalar: bool,
)
    requires
        valid_config(config),
        consistent(config, state),
        evidence_fits(state),
    ensures
        consistent(
            config,
            evidence_state(config, state, neural_speech, energy_active, scalar),
        ),
{
    let next = evidence_state(config, state, neural_speech, energy_active, scalar);
    let frame = state.checked_frame_count;
    let (speech, quiet) = next_evidence(config, state, neural_speech, energy_active, scalar);
    assert(0 <= state.cumulative_speech[slot(frame - 1)] <= frame);
    assert(0 <= state.silence_history[slot(frame - 1)] <= frame);
    assert forall|index: int| 0 <= index < HISTORY_SIZE implies 0
        <= #[trigger] next.cumulative_speech[index] <= frame + 1 by {
        if index != slot(frame) {
            assert(0 <= state.cumulative_speech[index] <= frame);
        }
    }
    assert forall|index: int| 0 <= index < HISTORY_SIZE implies 0
        <= #[trigger] next.silence_history[index] <= frame + 1 by {
        if index != slot(frame) {
            assert(0 <= state.silence_history[index] <= frame);
        }
    }
}

/// A frame is speech where the model and its energy both say so. Any other frame that is heard adds
/// nothing to the speech so far and prolongs the silence by one, a frame of speech ends the silence
/// and adds one, unless the open segment is longer than a segment may be. Padding prolongs the
/// silence in the history alone. No other frame of the history changes.
pub proof fn law_speech_needs_model_and_energy(
    config: VadEndpointConfig,
    state: Endpoint,
    neural_speech: bool,
    energy_active: bool,
    scalar: bool,
)
    requires
        valid_config(config),
        consistent(config, state),
        evidence_fits(state),
    ensures
        ({
            let frame = state.checked_frame_count;
            let next = evidence_state(config, state, neural_speech, energy_active, scalar);
            let report = evidence_frame(config, state, neural_speech, energy_active, scalar);
            let overlong = state.start_pause_frame >= 0 && frame > state.start_pause_frame
                + config.force_segment;
            &&& !neural_speech || !energy_active || !scalar ==> cumulative(next, frame)
                == cumulative(state, frame - 1)
            &&& (!neural_speech || !energy_active) && scalar ==> next.silence_run
                == state.silence_run + 1 && silence(next, frame) == next.silence_run
            &&& neural_speech && energy_active && scalar ==> next.silence_run == 0 && silence(
                next,
                frame,
            ) == 0
            &&& neural_speech && energy_active && scalar && !overlong ==> cumulative(next, frame)
                == cumulative(state, frame - 1) + 1
            &&& neural_speech && energy_active && scalar && overlong ==> cumulative(next, frame)
                == cumulative(state, frame - 1)
            &&& !scalar ==> next.silence_run == state.silence_run && silence(next, frame)
                == silence(state, frame - 1) + 1
            &&& report.speech_evidence ==> neural_speech
            &&& report.speech_evidence ==> energy_active
            &&& neural_speech && energy_active ==> report.speech_evidence
            &&& report.frame == frame
            &&& report.cumulative_speech == cumulative(next, frame)
            &&& report.silence_run == silence(next, frame)
            &&& next.checked_frame_count == frame + 1
            &&& next.start_pause_frame == state.start_pause_frame
            &&& next.segment_count == state.segment_count
            &&& forall|other: int|
                0 <= other < frame && frame - other < HISTORY_SIZE ==> #[trigger] cumulative(
                    next,
                    other,
                ) == cumulative(state, other) && silence(next, other) == silence(state, other)
        }),
{
    let frame = state.checked_frame_count;
    assert(0 <= state.cumulative_speech[slot(frame - 1)] <= frame);
    assert(0 <= state.silence_history[slot(frame - 1)] <= frame);
    let next = evidence_state(config, state, neural_speech, energy_active, scalar);
    assert forall|other: int|
        0 <= other < frame && frame - other < HISTORY_SIZE implies #[trigger] cumulative(next, other)
        == cumulative(state, other) && silence(next, other) == silence(state, other) by {
        assert(slot(other) != slot(frame));
    }
}

/// Which frames were heard as speech, in their order.
pub open spec fn heard(events: Seq<EndpointEvent>) -> Seq<bool>
    decreases events.len(),
{
    if events.len() == 0 {
        Seq::empty()
    } else {
        match events.last() {
            EndpointEvent::Evidence { neural_speech, energy_active, scalar } => heard(
                events.drop_last(),
            ).push(neural_speech && energy_active && scalar),
            _ => heard(events.drop_last()),
        }
    }
}

/// How many of the first `count` frames are speech.
pub open spec fn speech_among(frames: Seq<bool>, count: int) -> int
    decreases count,
{
    if count <= 0 {
        0
    } else {
        speech_among(frames, count - 1) + if frames[count - 1] {
            1int
        } else {
            0
        }
    }
}

/// Nothing but evidence and steps.
pub open spec fn undisturbed(events: Seq<EndpointEvent>) -> bool {
    forall|index: int| 0 <= index < events.len() ==> !(#[trigger] events[index] is Write)
}

/// All evidence is of frames that were heard.
pub open spec fn unpadded(events: Seq<EndpointEvent>) -> bool {
    forall|index: int|
        0 <= index < events.len() ==> match #[trigger] events[index] {
            EndpointEvent::Evidence { scalar, .. } => scalar,
            _ => true,
        }
}

proof fn lemma_speech_among_prefix(frames: Seq<bool>, more: Seq<bool>, count: int)
    requires
        count <= frames.len() <= more.len(),
        more.take(frames.len() as int) == frames,
    ensures
        speech_among(frames, count) == speech_among(more, count),
    decreases count,
{
    if count > 0 {
        lemma_speech_among_prefix(frames, more, count - 1);
        assert(more.take(frames.len() as int)[count - 1] == more[count - 1]);
    }
}

proof fn lemma_speech_among_bounds(frames: Seq<bool>, count: int)
    requires
        count >= 0,
    ensures
        0 <= speech_among(frames, count) <= count,
    decreases count,
{
    if count > 0 {
        lemma_speech_among_bounds(frames, count - 1);
    }
}

proof fn lemma_heard_prefix(events: Seq<EndpointEvent>)
    requires
        events.len() > 0,
    ensures
        heard(events.drop_last()).len() <= heard(events).len(),
        heard(events).take(heard(events.drop_last()).len() as int) == heard(events.drop_last()),
{
    assert(heard(events).take(heard(events.drop_last()).len() as int) =~= heard(
        events.drop_last(),
    ));
}

/// A silence of `quiet` frames up to `frame`: none of them is speech, and the frame before them is,
/// if there is one.
pub open spec fn silence_lasts(frames: Seq<bool>, frame: int, quiet: int) -> bool {
    &&& 0 <= quiet <= frame + 1
    &&& forall|at: int| frame - quiet < at <= frame ==> !#[trigger] frames[at]
    &&& quiet <= frame ==> frames[frame - quiet]
}

/// The history of a run that nothing but evidence and steps made.
proof fn lemma_run_history(config: VadEndpointConfig, events: Seq<EndpointEvent>)
    requires
        undisturbed(events),
        heard(events).len() <= i32::MAX,
    ensures
        ({
            let state = run_state(config, events);
            let frames = heard(events);
            let count = frames.len() as int;
            &&& state.checked_frame_count == count
            &&& state.cumulative_speech.len() == HISTORY_SIZE
            &&& state.silence_history.len() == HISTORY_SIZE
            &&& forall|index: int|
                0 <= index < HISTORY_SIZE ==> 0 <= #[trigger] state.cumulative_speech[index]
                    <= count && 0 <= state.silence_history[index] <= count
            &&& 0 <= state.silence_run <= count
            &&& unpadded(events) ==> silence_lasts(frames, count - 1, state.silence_run)
            &&& unpadded(events) ==> forall|frame: int|
                0 <= frame < count && count - frame <= HISTORY_SIZE ==> silence_lasts(
                    frames,
                    frame,
                    #[trigger] silence(state, frame),
                )
            &&& last_turn(config, events) is None ==> state.start_pause_frame == -1
            &&& last_turn(config, events) is None ==> forall|frame: int|
                0 <= frame < count && count - frame <= HISTORY_SIZE ==> #[trigger] cumulative(
                    state,
                    frame,
                ) == speech_among(frames, frame + 1)
        }),
    decreases events.len(),
{
    law_turns_alternate_in_every_run(config, events);
    if events.len() > 0 {
        let before_events = events.drop_last();
        assert forall|index: int| 0 <= index < before_events.len() implies !(
        #[trigger] before_events[index] is Write) by {
            assert(before_events[index] == events[index]);
        }
        lemma_heard_prefix(events);
        lemma_run_history(config, before_events);
        let before = run_state(config, before_events);
        let state = run_state(config, events);
        let frames = heard(events);
        let known = heard(before_events);
        let count = frames.len() as int;
        assert(events[events.len() - 1] == events.last());
        assert(unpadded(events) ==> unpadded(before_events)) by {
            if unpadded(events) {
                assert forall|index: int| 0 <= index < before_events.len() implies match
                    #[trigger] before_events[index] {
                    EndpointEvent::Evidence { scalar, .. } => scalar,
                    _ => true,
                } by {
                    assert(before_events[index] == events[index]);
                }
            }
        }
        match events.last() {
            EndpointEvent::Evidence { neural_speech, energy_active, scalar } => {
                let speech = neural_speech && energy_active && scalar;
                let frame = count - 1;
                assert(0 <= before.cumulative_speech[slot(frame - 1)] <= frame);
                assert(0 <= before.silence_history[slot(frame - 1)] <= frame);
                assert forall|index: int| 0 <= index < HISTORY_SIZE implies 0
                    <= #[trigger] state.cumulative_speech[index] <= count && 0
                    <= state.silence_history[index] <= count by {
                    if index != slot(frame) {
                        assert(0 <= before.cumulative_speech[index] <= frame);
                    }
                }
                if unpadded(events) {
                    assert(silence_lasts(known, frame - 1, before.silence_run));
                    assert(silence_lasts(frames, frame, state.silence_run)) by {
                        assert(frames[frame] == speech);
                        assert forall|at: int|
                            frame - state.silence_run < at <= frame implies !#[trigger] frames[at] by {
                            if at < frame {
                                assert(frames[at] == known[at]);
                            }
                        }
                        if !speech && state.silence_run <= frame {
                            assert(frames[frame - state.silence_run] == known[frame - 1
                                - before.silence_run]);
                        }
                    }
                    assert forall|other: int|
                        0 <= other < count && count - other
                            <= HISTORY_SIZE implies silence_lasts(
                        frames,
                        other,
                        #[trigger] silence(state, other),
                    ) by {
                        if other < frame {
                            assert(slot(other) != slot(frame));
                            let quiet = silence(before, other);
                            assert(silence_lasts(known, other, quiet));
                            assert forall|at: int|
                                other - quiet < at <= other implies !#[trigger] frames[at] by {
                                assert(frames[at] == known[at]);
                            }
                            if quiet <= other {
                                assert(frames[other - quiet] == known[other - quiet]);
                            }
                        }
                    }
                }
                if last_turn(config, events) is None {
                    assert(speech_among(known, frame) == speech_among(frames, frame)) by {
                        lemma_speech_among_prefix(known, frames, frame);
                    }
                    lemma_speech_among_bounds(frames, frame);
                    assert(cumulative(before, frame - 1) == speech_among(known, frame)) by {
                        if frame == 0 {
                            assert(before.cumulative_speech[0] == 0);
                        }
                    }
                    assert(cumulative(state, frame) == speech_among(frames, frame + 1));
                    assert forall|other: int|
                        0 <= other < count && count - other <= HISTORY_SIZE implies (
                    #[trigger] cumulative(state, other)) == speech_among(frames, other + 1) by {
                        if other < frame {
                            assert(slot(other) != slot(frame));
                            assert(cumulative(before, other) == speech_among(known, other + 1));
                            lemma_speech_among_prefix(known, frames, other + 1);
                        }
                    }
                }
            },
            EndpointEvent::Step { frame, flush_frame } => {
                assert(known == frames);
                if 0 <= frame < before.checked_frame_count {
                    law_steps_keep_the_evidence(config, before, frame, flush_frame);
                }
                if unpadded(events) {
                    assert forall|other: int|
                        0 <= other < count && count - other
                            <= HISTORY_SIZE implies silence_lasts(
                        frames,
                        other,
                        #[trigger] silence(state, other),
                    ) by {
                        assert(silence_lasts(known, other, silence(before, other)));
                    }
                }
                if last_turn(config, events) is None {
                    assert forall|other: int|
                        0 <= other < count && count - other <= HISTORY_SIZE implies (
                    #[trigger] cumulative(state, other)) == speech_among(frames, other + 1) by {
                        assert(cumulative(before, other) == speech_among(known, other + 1));
                    }
                }
            },
            EndpointEvent::Write { .. } => {},
        }
    }
}

/// In every run the silence that the history has of a frame lasts from the frame after the last
/// speech up to it.
pub proof fn law_silence_lasts_since_speech(
    config: VadEndpointConfig,
    events: Seq<EndpointEvent>,
    frame: int,
)
    requires
        undisturbed(events),
        unpadded(events),
        heard(events).len() <= i32::MAX,
        0 <= frame < heard(events).len() <= frame + HISTORY_SIZE,
    ensures
        silence_lasts(heard(events), frame, silence(run_state(config, events), frame)),
        silence_lasts(
            heard(events),
            heard(events).len() - 1,
            run_state(config, events).silence_run,
        ),
{
    lemma_run_history(config, events);
}

/// Without speech no segment starts: where no frame that was heard is speech by the model and by its
/// energy, no start is ever reported, and the count of speech stays zero.
pub proof fn law_no_speech_no_start(config: VadEndpointConfig, events: Seq<EndpointEvent>)
    requires
        undisturbed(events),
        forall|index: int|
            0 <= index < events.len() ==> match #[trigger] events[index] {
                EndpointEvent::Evidence { neural_speech, energy_active, .. } => !neural_speech
                    || !energy_active,
                _ => true,
            },
    ensures
        last_turn(config, events) is None,
        run_state(config, events).start_pause_frame == -1,
        run_state(config, events).cumulative_speech.len() == HISTORY_SIZE,
        forall|index: int|
            0 <= index < HISTORY_SIZE ==> #[trigger] run_state(
                config,
                events,
            ).cumulative_speech[index] == 0,
        events.len() > 0 ==> run_report(config, events) != Some(VadStatus::SpeechStart),
    decreases events.len(),
{
    law_turns_alternate_in_every_run(config, events);
    if events.len() > 0 {
        let before_events = events.drop_last();
        assert forall|index: int| 0 <= index < before_events.len() implies (match
            #[trigger] before_events[index] {
            EndpointEvent::Evidence { neural_speech, energy_active, .. } => !neural_speech
                || !energy_active,
            EndpointEvent::Step { .. } => true,
            EndpointEvent::Write { .. } => false,
        }) by {
            assert(before_events[index] == events[index]);
        }
        assert(undisturbed(before_events)) by {
            assert forall|index: int| 0 <= index < before_events.len() implies !(
            #[trigger] before_events[index] is Write) by {
                assert(before_events[index] == events[index]);
            }
        }
        law_no_speech_no_start(config, before_events);
        let before = run_state(config, before_events);
        assert(events[events.len() - 1] == events.last());
        if let EndpointEvent::Step { frame, flush_frame } = events.last() {
            law_steps_keep_the_evidence(config, before, frame, flush_frame);
        }
    }
}

/// The first segment of a run starts with the first step to a frame of whose last twenty frames
/// fifteen are speech; it never starts before fifteen frames were speech.
pub proof fn law_enough_speech_starts_a_segment(
    config: VadEndpointConfig,
    events: Seq<EndpointEvent>,
    frame: int,
    flush_frame: int,
)
    requires
        undisturbed(events),
        heard(events).len() <= i32::MAX,
        last_turn(config, events) is None,
        0 <= frame < heard(events).len() <= frame + 200,
    ensures
        ({
            let frames = heard(events);
            let report = run_report(
                config,
                events.push(EndpointEvent::Step { frame, flush_frame }),
            );
            &&& frame >= 20 && speech_among(frames, frame + 1) - speech_among(frames, frame - 19)
                >= 15 ==> report == Some(VadStatus::SpeechStart)
            &&& report == Some(VadStatus::SpeechStart) ==> speech_among(frames, frame + 1) >= 15
        }),
{
    lemma_run_history(config, events);
    let state = run_state(config, events);
    assert(events.push(EndpointEvent::Step { frame, flush_frame }).drop_last() =~= events);
    assert(cumulative(state, frame) == speech_among(heard(events), frame + 1));
    if frame >= 20 {
        assert(cumulative(state, frame - 20) == speech_among(heard(events), frame - 19));
    }
    let start = step_start(config, state, frame);
    assert(0 <= state.cumulative_speech[slot(frame - START_WINDOW)]);
    assert(0 <= state.cumulative_speech[slot(state.may_pause_frame)]);
}

/// A segment that the input does not end is ended by silence: over the gap that ends segments there
/// was no more speech. It really ended where the silence before the gap began, and the margin comes
/// on top; the silence that runs on is counted from there.
pub proof fn law_silence_ends_segments(
    config: VadEndpointConfig,
    state: Endpoint,
    frame: int,
    flush_frame: int,
)
    requires
        state.start_pause_frame >= 0,
        flush_frame != frame + 1,
    ensures
        ({
            let (next, status) = stepped(config, state, frame, flush_frame);
            let gap = frame - config.end_gap;
            &&& status == VadStatus::SpeechEnd ==> {
                &&& gap > 0
                &&& cumulative(state, frame) == cumulative(state, gap)
                &&& next.real_pause_frame + silence(state, gap) == gap
                &&& next.end_pause_frame == next.real_pause_frame + config.frame_end_margin
                &&& next.last_silence_frame == next.real_pause_frame
                &&& next.start_pause_frame == -1
            }
            &&& status != VadStatus::SpeechEnd && status != VadStatus::PreSpeechEnd && gap > 0
                ==> cumulative(state, frame) != cumulative(state, gap)
        }),
{
}

/// Where a segment begins: with the room before its first speech that is configured, but neither
/// before the input nor before the end of the last segment.
pub proof fn law_segments_begin_before_their_speech(
    config: VadEndpointConfig,
    state: Endpoint,
    frame: int,
    flush_frame: int,
)
    requires
        valid_config(config),
        0 <= frame,
        state.start_pause_frame < 0,
        -1 <= state.pre_end_pause_frame,
        speech_begins(state, frame),
    ensures
        ({
            let (next, status) = stepped(config, state, frame, flush_frame);
            let room = frame - 20 - config.frame_start_margin;
            &&& status == VadStatus::SpeechStart
            &&& next.segment_count == state.segment_count + 1
            &&& next.start_pause_frame > state.pre_end_pause_frame
            &&& next.start_pause_frame >= 0
            &&& next.start_pause_frame >= room
            &&& next.start_pause_frame == room || next.start_pause_frame == 0
                || next.start_pause_frame == state.pre_end_pause_frame + 1
            &&& frame >= 20 ==> next.real_pause_frame == frame - 20
            &&& frame < 20 ==> next.real_pause_frame == 0
        }),
{
}

/// A timeout is reported before the first segment once the answer is overdue, and later once the
/// silence since the last segment is too long; while neither holds, there is none.
pub proof fn law_timeouts_need_a_long_wait(
    config: VadEndpointConfig,
    state: Endpoint,
    frame: int,
    flush_frame: int,
)
    requires
        state.start_pause_frame < 0,
    ensures
        ({
            let (next, status) = stepped(config, state, frame, flush_frame);
            let quiet = state.checked_frame_count - state.last_silence_frame;
            let overdue = state.segment_count == 0 && frame > config.response_timeout;
            let silent = state.segment_count != 0 && quiet > config.speech_end;
            &&& status == VadStatus::Timeout ==> overdue || silent
            &&& status == VadStatus::Timeout && overdue ==> next.response_timeout
            &&& status == VadStatus::Timeout && silent ==> next.speech_timeout
            &&& overdue ==> status == VadStatus::Timeout || status == VadStatus::SpeechStart
            &&& silent ==> status == VadStatus::Timeout || status == VadStatus::SpeechStart || status
                == VadStatus::DelayedSpeechEnd
        }),
{
}

/// No frame of an open segment is lost: while silence lasts past the margin its frames are withheld,
/// and when speech goes on, all frames from the margin on are read at once; otherwise each frame of
/// speech is read as it comes.
pub proof fn law_withheld_frames_are_read_later(
    config: VadEndpointConfig,
    state: Endpoint,
    frame: int,
    flush_frame: int,
)
    requires
        state.start_pause_frame >= 0,
    ensures
        ({
            let (next, status) = stepped(config, state, frame, flush_frame);
            &&& status == VadStatus::Speech && state.frame_margin < 0 ==> next.read_delay == 1
                && next.frame_margin == state.frame_margin
            &&& status == VadStatus::Speech && state.frame_margin >= 0 ==> next.frame_margin == -1
                && state.frame_margin + next.read_delay == frame + 1
            &&& status == VadStatus::Nothing ==> next.read_delay == 0
            &&& status == VadStatus::Nothing && state.frame_margin < 0 ==> next.frame_margin == frame
                && frame > config.frame_end_margin && cumulative(state, frame) == cumulative(
                state,
                frame - config.frame_end_margin,
            )
            &&& status == VadStatus::Nothing && state.frame_margin >= 0 ==> next.frame_margin
                == state.frame_margin && cumulative(state, frame) == cumulative(state, frame - 1)
        }),
{
}

/// An early end is only reported where it is wanted, after a window without speech, and not again
/// before it is forgotten.
pub proof fn law_early_ends_follow_silence(
    config: VadEndpointConfig,
    state: Endpoint,
    frame: int,
    flush_frame: int,
)
    requires
        0 <= frame,
    ensures
        ({
            let (next, status) = stepped(config, state, frame, flush_frame);
            &&& status == VadStatus::PreSpeechEnd ==> {
                &&& config.pre_speech_end_on
                &&& frame > early_window(config) > config.end_gap
                &&& cumulative(state, frame) == cumulative(state, frame - early_window(config))
                &&& next.pre_end_status == frame
                &&& state.start_pause_frame >= 0 || state.segment_count != 0
                &&& step_start(config, state, frame).pre_end_status < 0
            }
        }),
{
}

/// The end of the input ends an open segment where the input ends, or where its margin of silence
/// began, and the silence after it counts from there.
pub proof fn law_the_input_ends_segments(
    config: VadEndpointConfig,
    state: Endpoint,
    frame: int,
)
    requires
        state.start_pause_frame >= 0,
    ensures
        ({
            let (next, status) = stepped(config, state, frame, frame + 1);
            &&& status == VadStatus::SpeechEnd || status == VadStatus::PreSpeechEnd
            &&& status == VadStatus::SpeechEnd && !(frame > config.end_gap && cumulative(
                state,
                frame,
            ) == cumulative(state, frame - config.end_gap)) ==> {
                &&& state.frame_margin <= 0 ==> next.end_pause_frame == frame
                    && next.real_pause_frame == frame
                &&& state.frame_margin > 0 ==> next.end_pause_frame == state.frame_margin
                    && next.real_pause_frame == state.frame_margin - config.frame_end_margin
                &&& next.last_silence_frame == next.real_pause_frame
                &&& next.start_pause_frame == -1
            }
        }),
{
}

fn is_finite(bits: u32) -> (result: bool)
    ensures
        result == finite_bits(bits),
{
    bits < 0x7f80_0000 || (0x8000_0000 <= bits && bits < 0xff80_0000)
}

fn is_valid(config: &VadEndpointConfig) -> (result: bool)
    ensures
        result == valid_config(*config),
{
    config.frame_start_margin >= 0 && config.frame_end_margin >= 0 && config.end_gap >= 0
        && config.pre_speech_end >= 0 && config.time_two_pre_end >= 0
        && config.delay_speech_end_gap >= 0 && config.response_timeout >= 0 && config.speech_end
        >= 0 && config.force_segment >= 0 && is_finite(config.energy_threshold) && (
    config.vad_threshold <= 0x3f80_0000 || config.vad_threshold == 0x8000_0000)
}

fn max(left: i32, right: i32) -> (result: i32)
    ensures
        result == larger(left as int, right as int),
{
    if left >= right {
        left
    } else {
        right
    }
}

/// The position of a frame in the history.
fn slot_of(frame: i32) -> (index: usize)
    ensures
        index == slot(frame as int),
        index < HISTORY_SIZE,
{
    if frame <= 0 {
        0
    } else {
        frame as usize % HISTORY_SIZE
    }
}

impl VadEndpointState {
    fn cumulative(&self, frame: i32) -> (count: i32)
        requires
            self@.cumulative_speech.len() == HISTORY_SIZE,
        ensures
            count == cumulative(self@, frame as int),
    {
        self.cumulative_speech[slot_of(frame)]
    }

    fn silence(&self, frame: i32) -> (count: i32)
        requires
            self@.silence_history.len() == HISTORY_SIZE,
        ensures
            count == silence(self@, frame as int),
    {
        self.silence_history[slot_of(frame)]
    }
}

/// The endpoint detector.
#[derive(Debug)]
pub struct OriginalVadEndpoint {
    config: VadEndpointConfig,
    state: VadEndpointState,
}

impl OriginalVadEndpoint {
    pub closed spec fn config(self) -> VadEndpointConfig {
        self.config
    }

    /// The state of the detector.
    pub closed spec fn endpoint(self) -> Endpoint {
        self.state@
    }

    /// The settings are in range, and the history and the counters hang together.
    pub open spec fn valid(self) -> bool {
        valid_config(self.config()) && consistent(self.config(), self.endpoint())
    }

    /// A detector with the given settings.
    pub fn new(config: VadEndpointConfig) -> (result: Result<Self, VadError>)
        ensures
            match result {
                Ok(detector) => valid_config(config) && detector.config() == config
                    && detector.endpoint() == initial_state() && detector.valid(),
                Err(error) => !valid_config(config) && error == VadError::InvalidConfig,
            },
    {
        if !is_valid(&config) {
            return Err(VadError::InvalidConfig);
        }
        Ok(OriginalVadEndpoint { config, state: VadEndpointState::default() })
    }

    pub fn state(&self) -> (state: &VadEndpointState)
        ensures
            state@ == self.endpoint(),
    {
        &self.state
    }

    /// The frame at which the open segment begins, or a negative number.
    pub fn start_pause_frame(&self) -> (frame: i32)
        ensures
            frame == self.endpoint().start_pause_frame,
    {
        self.state.start_pause_frame
    }

    /// The frame at which the last segment ended.
    pub fn end_pause_frame(&self) -> (frame: i32)
        ensures
            frame == self.endpoint().end_pause_frame,
    {
        self.state.end_pause_frame
    }

    /// The frame at which the last change between speech and silence really was.
    pub fn real_pause_frame(&self) -> (frame: i32)
        ensures
            frame == self.endpoint().real_pause_frame,
    {
        self.state.real_pause_frame
    }

    /// The frame that detection stands at.
    pub fn current_frame(&self) -> (frame: i32)
        ensures
            frame == self.endpoint().current_frame,
    {
        self.state.current_frame
    }

    /// How many frames have evidence.
    pub fn checked_frame_count(&self) -> (frame: i32)
        ensures
            frame == self.endpoint().checked_frame_count,
    {
        self.state.checked_frame_count
    }

    /// Access to the state: what is written there stays.
    pub fn state_mut(&mut self) -> (state: &mut VadEndpointState)
        ensures
            state@ == old(self).endpoint(),
            final(self).endpoint() == final(state)@,
            final(self).config() == old(self).config(),
    {
        &mut self.state
    }

    /// Forgets all frames.
    pub fn reset(&mut self)
        requires
            valid_config(old(self).config()),
        ensures
            final(self).config() == old(self).config(),
            final(self).endpoint() == initial_state(),
            final(self).valid(),
    {
        self.state = VadEndpointState::default();
    }

    /// Moves on to a frame whose status was taken, with nothing left to read back.
    pub fn advance_to(&mut self, frame: i32)
        requires
            old(self).valid(),
        ensures
            final(self).config() == old(self).config(),
            final(self).endpoint() == (Endpoint {
                current_frame: frame as int,
                read_delay: 0,
                ..old(self).endpoint()
            }),
            final(self).valid(),
    {
        self.state.current_frame = frame;
        self.state.read_delay = 0;
    }

    /// Takes the evidence of one frame.
    pub fn push_evidence(&mut self, neural_speech: bool, energy_active: bool) -> (evidence:
        VadEvidenceFrame)
        requires
            old(self).valid(),
            evidence_fits(old(self).endpoint()),
        ensures
            final(self).config() == old(self).config(),
            final(self).endpoint() == evidence_state(
                old(self).config(),
                old(self).endpoint(),
                neural_speech,
                energy_active,
                true,
            ),
            evidence == evidence_frame(
                old(self).config(),
                old(self).endpoint(),
                neural_speech,
                energy_active,
                true,
            ),
            final(self).valid(),
    {
        self.record_evidence(neural_speech, energy_active, true)
    }

    /// Takes a frame of silence that was not heard.
    pub fn pad_silence(&mut self) -> (evidence: VadEvidenceFrame)
        requires
            old(self).valid(),
            evidence_fits(old(self).endpoint()),
        ensures
            final(self).config() == old(self).config(),
            final(self).endpoint() == evidence_state(
                old(self).config(),
                old(self).endpoint(),
                false,
                false,
                false,
            ),
            evidence == evidence_frame(
                old(self).config(),
                old(self).endpoint(),
                false,
                false,
                false,
            ),
            final(self).valid(),
    {
        self.record_evidence(false, false, false)
    }

    fn record_evidence(&mut self, neural_speech: bool, energy_active: bool, scalar: bool)
        -> (evidence: VadEvidenceFrame)
        requires
            old(self).valid(),
            evidence_fits(old(self).endpoint()),
        ensures
            final(self).config() == old(self).config(),
            final(self).endpoint() == evidence_state(
                old(self).config(),
                old(self).endpoint(),
                neural_speech,
                energy_active,
                scalar,
            ),
            evidence == evidence_frame(
                old(self).config(),
                old(self).endpoint(),
                neural_speech,
                energy_active,
                scalar,
            ),
            final(self).valid(),
    {
        let ghost config = self.config();
        let ghost before = self.endpoint();
        proof {
            law_evidence_keeps_consistency(config, before, neural_speech, energy_active, scalar);
        }
        let frame: i32 = self.state.checked_frame_count;
        let previous: i32 = self.state.cumulative(frame - 1);
        let previous_silence: i32 = self.state.silence(frame - 1);
        proof {
            assert(0 <= before.cumulative_speech[slot(frame - 1)] <= frame);
            assert(0 <= before.silence_history[slot(frame - 1)] <= frame);
        }
        let speech_evidence: bool = neural_speech && energy_active;
        let mut contribution: i32 = 0;
        let silence_run: i32 = if scalar {
            if speech_evidence {
                self.state.silence_run = 0;
                contribution = 1;
            } else {
                self.state.silence_run = self.state.silence_run + 1;
            }
            self.state.silence_run
        } else {
            previous_silence + 1
        };
        if self.state.start_pause_frame >= 0 && frame - self.state.start_pause_frame
            > self.config.force_segment {
            contribution = 0;
        }
        let cumulative_speech: i32 = previous + contribution;
        let index: usize = slot_of(frame);
        self.state.cumulative_speech.set(index, cumulative_speech);
        self.state.silence_history.set(index, silence_run);
        self.state.checked_frame_count = frame + 1;
        assert(self.endpoint() =~= evidence_state(
            config,
            before,
            neural_speech,
            energy_active,
            scalar,
        ));
        VadEvidenceFrame {
            frame,
            neural_speech,
            energy_active,
            speech_evidence,
            cumulative_speech,
            silence_run,
        }
    }

    fn early_window(&self) -> (window: i32)
        requires
            valid_config(self.config()),
        ensures
            window == early_window(self.config()),
    {
        let window: i32 = if self.config.speech_end <= self.config.pre_speech_end {
            self.config.speech_end - 1
        } else {
            self.config.pre_speech_end
        };
        max(window, 0)
    }

    /// Begins a segment.
    fn start_segment(&mut self, frame: i32) -> (status: VadStatus)
        requires
            old(self).valid(),
            old(self).endpoint().segment_count < i32::MAX,
            old(self).endpoint().pre_end_pause_frame < i32::MAX,
            0 <= frame < i32::MAX,
        ensures
            final(self).config() == old(self).config(),
            final(self).endpoint() == started(
                old(self).config(),
                old(self).endpoint(),
                frame as int,
            ),
            status == VadStatus::SpeechStart,
    {
        let ghost before = self.endpoint();
        self.state.read_delay = if frame - START_WINDOW > self.config.frame_start_margin {
            self.config.frame_start_margin + START_WINDOW + 1
        } else {
            frame + 1
        };
        self.state.segment_count = self.state.segment_count + 1;
        let candidate: i32 = frame - self.state.read_delay;
        self.state.start_pause_frame = max(self.state.pre_end_pause_frame, candidate) + 1;
        self.state.end_pause_frame = -1;
        self.state.may_pause_frame = -1;
        self.state.real_pause_frame = max(frame - START_WINDOW, 0);
        self.state.pre_end_status = -1;
        self.state.delay_end_found = false;
        self.state.current_status = VadStatus::SpeechStart.code();
        assert(self.endpoint() =~= started(self.config(), before, frame as int));
        VadStatus::SpeechStart
    }

    /// Finds an early end.
    fn check_pre_end(&mut self, frame: i32) -> (found: bool)
        requires
            old(self).valid(),
            0 <= frame,
        ensures
            final(self).config() == old(self).config(),
            found == early_end(old(self).config(), old(self).endpoint(), frame as int),
            final(self).endpoint() == (if found {
                early_ended(old(self).endpoint(), frame as int).0
            } else {
                old(self).endpoint()
            }),
    {
        let window: i32 = self.early_window();
        if self.config.pre_speech_end_on && window > self.config.end_gap
            && self.state.pre_end_status < 0 && frame > window && self.state.cumulative(frame)
            == self.state.cumulative(frame - window) {
            self.state.pre_end_status = frame;
            true
        } else {
            false
        }
    }

    /// A step outside of speech.
    fn step_outside(&mut self, frame: i32) -> (status: VadStatus)
        requires
            old(self).valid(),
            old(self).endpoint().start_pause_frame < 0,
            step_fits(old(self).config(), old(self).endpoint(), frame as int),
            0 <= frame < old(self).endpoint().checked_frame_count,
        ensures
            final(self).config() == old(self).config(),
            (final(self).endpoint(), status) == step_outside(
                old(self).config(),
                old(self).endpoint(),
                frame as int,
            ),
    {
        let ghost before = self.endpoint();
        let current: i32 = self.state.cumulative(frame);
        let earlier: i32 = self.state.cumulative(frame - START_WINDOW);
        proof {
            assert(0 <= before.cumulative_speech[slot(frame as int)]);
            assert(0 <= before.cumulative_speech[slot(frame - START_WINDOW)]);
            assert(0 <= before.cumulative_speech[slot(frame - 1)]);
            assert(0 <= before.cumulative_speech[slot(frame - MAYBE_START_WINDOW)]);
            assert(0 <= before.cumulative_speech[slot(before.may_pause_frame)]);
        }
        if current - earlier > START_REQUIRED - 1 {
            return self.start_segment(frame);
        }
        let may_pause: i32 = self.state.may_pause_frame;
        let open: bool = may_pause >= 0 && frame - may_pause <= self.config.end_gap;
        if !open {
            self.state.may_pause_frame = -1;
        } else if current - self.state.cumulative(frame - 1) == 1 && current
            - self.state.cumulative(may_pause) > START_REQUIRED - 1 {
            return self.start_segment(may_pause + START_WINDOW);
        }
        if self.state.segment_count == 0 && frame > self.config.response_timeout {
            self.state.response_timeout = true;
            self.state.read_delay = 0;
            self.state.pre_end_status = -1;
            self.state.delay_end_found = false;
            return VadStatus::Timeout;
        }
        if self.state.segment_count != 0 {
            let quiet: i32 = self.state.checked_frame_count - self.state.last_silence_frame;
            if self.config.delay_speech_end_on && !self.state.delay_end_found && quiet
                > self.config.delay_speech_end_gap {
                self.state.read_delay = 0;
                self.state.delay_end_found = true;
                return VadStatus::DelayedSpeechEnd;
            }
            if quiet > self.config.speech_end {
                self.state.speech_timeout = true;
                self.state.delay_end_found = false;
                self.state.read_delay = 0;
                self.state.pre_end_status = -1;
                return VadStatus::Timeout;
            }
        }
        if !open && current - self.state.cumulative(frame - MAYBE_START_WINDOW)
            > MAYBE_START_WINDOW - 1 {
            self.state.may_pause_frame = frame - MAYBE_START_WINDOW;
        }
        if self.state.segment_count != 0 && self.check_pre_end(frame) {
            return VadStatus::PreSpeechEnd;
        }
        VadStatus::Nothing
    }

    /// Ends a segment in silence.
    fn end_segment(&mut self, frame: i32)
        requires
            old(self).valid(),
            frame - old(self).config().end_gap + old(self).config().frame_end_margin <= i32::MAX,
            old(self).config().end_gap < frame < old(self).endpoint().checked_frame_count,
        ensures
            final(self).config() == old(self).config(),
            final(self).endpoint() == ended(
                old(self).config(),
                old(self).endpoint(),
                frame as int,
            ),
    {
        let ghost before = self.endpoint();
        let candidate: i32 = frame - self.config.end_gap;
        assert(0 <= before.silence_history[slot(candidate as int)] <= before.checked_frame_count);
        let real_pause: i32 = candidate - self.state.silence(candidate);
        self.state.current_status = VadStatus::SpeechEnd.code();
        self.state.pre_end_pause_frame = real_pause + self.config.frame_end_margin;
        self.state.end_pause_frame = self.state.pre_end_pause_frame;
        self.state.real_pause_frame = real_pause;
        self.state.start_pause_frame = -1;
        self.state.frame_margin = -1;
        self.state.last_silence_frame = real_pause;
    }

    /// Ends a segment with the input.
    fn flush_segment(&mut self, frame: i32)
        requires
            old(self).valid(),
            0 <= frame < old(self).endpoint().checked_frame_count,
        ensures
            final(self).config() == old(self).config(),
            final(self).endpoint() == flushed(
                old(self).config(),
                old(self).endpoint(),
                frame as int,
            ),
    {
        self.state.current_status = VadStatus::SpeechEnd.code();
        if self.state.frame_margin > 0 {
            self.state.end_pause_frame = self.state.frame_margin;
            self.state.pre_end_pause_frame = self.state.frame_margin;
            self.state.real_pause_frame = self.state.frame_margin - self.config.frame_end_margin;
        } else {
            self.state.end_pause_frame = frame;
            self.state.pre_end_pause_frame = frame;
            self.state.real_pause_frame = frame;
        }
        self.state.start_pause_frame = -1;
        self.state.read_delay = if self.state.frame_margin < 0 {
            1
        } else {
            0
        };
        self.state.frame_margin = -1;
        self.state.last_silence_frame = self.state.real_pause_frame;
    }

    /// A step inside of speech.
    fn step_inside(&mut self, frame: i32, flush_frame: i32) -> (status: VadStatus)
        requires
            old(self).valid(),
            old(self).endpoint().start_pause_frame >= 0,
            step_fits(old(self).config(), old(self).endpoint(), frame as int),
            0 <= frame < old(self).endpoint().checked_frame_count,
        ensures
            final(self).config() == old(self).config(),
            (final(self).endpoint(), status) == step_inside(
                old(self).config(),
                old(self).endpoint(),
                frame as int,
                flush_frame as int,
            ),
    {
        if self.check_pre_end(frame) {
            return VadStatus::PreSpeechEnd;
        }
        if frame > self.config.end_gap && self.state.cumulative(frame) == self.state.cumulative(
            frame - self.config.end_gap,
        ) {
            self.end_segment(frame);
            return VadStatus::SpeechEnd;
        }
        if flush_frame == frame + 1 {
            self.flush_segment(frame);
            return VadStatus::SpeechEnd;
        }
        if self.state.frame_margin < 0 {
            if frame > self.config.frame_end_margin && self.state.cumulative(frame)
                == self.state.cumulative(frame - self.config.frame_end_margin) {
                self.state.frame_margin = frame;
                self.state.read_delay = 0;
                return VadStatus::Nothing;
            }
            self.state.read_delay = 1;
            return VadStatus::Speech;
        }
        if frame > 1 && self.state.cumulative(frame) == self.state.cumulative(frame - 1) {
            self.state.read_delay = 0;
            return VadStatus::Nothing;
        }
        self.state.read_delay = frame + 1 - self.state.frame_margin;
        self.state.frame_margin = -1;
        VadStatus::Speech
    }

    /// Steps to a frame whose evidence was taken. `flush_frame` is the number of frames of the
    /// whole input, once it is known.
    pub fn step(&mut self, frame: i32, flush_frame: i32) -> (result: Result<VadStatus, VadError>)
        requires
            old(self).valid(),
            0 <= frame < old(self).endpoint().checked_frame_count ==> step_fits(
                old(self).config(),
                old(self).endpoint(),
                frame as int,
            ),
        ensures
            final(self).config() == old(self).config(),
            final(self).valid(),
            match result {
                Ok(status) => 0 <= frame < old(self).endpoint().checked_frame_count && (
                    final(self).endpoint(),
                    status,
                ) == stepped(
                    old(self).config(),
                    old(self).endpoint(),
                    frame as int,
                    flush_frame as int,
                ),
                Err(error) => !(0 <= frame < old(self).endpoint().checked_frame_count)
                    && final(self).endpoint() == old(self).endpoint() && error
                    == VadError::FrameNotClassified,
            },
    {
        if frame < 0 || frame >= self.state.checked_frame_count {
            return Err(VadError::FrameNotClassified);
        }
        proof {
            law_steps_keep_consistency(
                self.config(),
                self.endpoint(),
                frame as int,
                flush_frame as int,
            );
        }
        let ghost before = self.endpoint();
        self.state.current_frame = frame;
        let window: i32 = self.early_window();
        let timeout: i32 = max(self.config.time_two_pre_end, self.config.end_gap - window);
        if window < self.config.end_gap && self.state.pre_end_status > 0
            && self.state.start_pause_frame > 0 && frame - self.state.pre_end_status > timeout {
            self.state.pre_end_status = -1;
        }
        assert(self.endpoint() =~= step_start(self.config(), before, frame as int));
        if self.state.start_pause_frame < 0 {
            Ok(self.step_outside(frame))
        } else {
            Ok(self.step_inside(frame, flush_frame))
        }
    }

    /// Ends the input at a frame.
    pub fn finalize(&mut self, frame: i32) -> (status: VadStatus)
        requires
            old(self).valid(),
        ensures
            final(self).config() == old(self).config(),
            (final(self).endpoint(), status) == finalized(old(self).endpoint(), frame as int),
            final(self).valid(),
    {
        if self.state.start_pause_frame < 1 {
            self.state.finished = true;
            return VadStatus::Timeout;
        }
        self.state.end_pause_frame = frame;
        self.state.real_pause_frame = frame;
        self.state.start_pause_frame = -1;
        VadStatus::SpeechEnd
    }
}

}
