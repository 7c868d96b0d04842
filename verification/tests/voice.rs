use edge_esr::frontend::{
    FrontendError, FrontendTables, OriginalFeatureExtractor, FEATURE_SIZE, FRAME_LENGTH,
    FRAME_SHIFT, TABLE_SIZE, VAD_FEATURE_SIZE,
};
use edge_esr::vad::{
    frame_energy_active, EdgeEsrVadConfig, EdgeEsrVadSegmentReason, VadLoadError, VadSegmenter,
    VAD_INPUT_SIZE,
};
use edge_esr::vad_endpoint::{OriginalVadEndpoint, VadEndpointConfig, VadError, VadStatus};
use edge_esr::vad_session::{EdgeEsrVadEvent, VadAction, VadSession};

#[test]
fn packaged_ring_history_start_and_end_match_vendor() {
    let mut endpoint = OriginalVadEndpoint::new(VadEndpointConfig::default())
        .expect("endpoint");
    let energy = [vec![false; 200], vec![true; 600], vec![false; 400]].concat();
    let mut first_start = None;
    let mut first_end = None;
    for (frame, energy) in energy.into_iter().enumerate() {
        let evidence = endpoint.push_evidence(true, energy);
        let status = endpoint.step(evidence.frame, 1_200).expect("step");
        if status == VadStatus::SpeechStart && first_start.is_none() {
            first_start = Some((frame, endpoint.state().start_pause_frame));
        }
        if status == VadStatus::SpeechEnd && first_end.is_none() {
            first_end = Some((
                frame,
                endpoint.state().real_pause_frame,
                endpoint.state().end_pause_frame,
            ));
        }
        endpoint.state_mut().current_frame = evidence.frame + 1;
        endpoint.state_mut().read_delay = 0;
    }
    assert_eq!(first_start, Some((214, 164)));
    assert_eq!(first_end, Some((843, 543, 573)));
}

#[test]
fn flush_closes_active_segment() {
    let mut endpoint = OriginalVadEndpoint::new(VadEndpointConfig::default())
        .expect("endpoint");
    let mut statuses = Vec::new();
    for frame in 0..20 {
        let evidence = endpoint.push_evidence(true, true);
        statuses.push(endpoint.step(evidence.frame, 20).expect("step"));
        assert_eq!(frame, evidence.frame);
    }
    assert_eq!(statuses[15], VadStatus::SpeechStart);
    assert_eq!(statuses[19], VadStatus::SpeechEnd);
}

#[test]
fn endpoint_reports_its_errors() {
    let mut config = VadEndpointConfig::default();
    config.speech_end = -1;
    assert_eq!(OriginalVadEndpoint::new(config).err(), Some(VadError::InvalidConfig));
    let mut endpoint = OriginalVadEndpoint::new(VadEndpointConfig::default()).expect("endpoint");
    assert_eq!(endpoint.step(3, -1), Err(VadError::FrameNotClassified));
    assert_eq!(VadStatus::Nothing.code(), 0);
    assert_eq!(VadStatus::SpeechStart.code(), 1);
    let evidence = endpoint.push_evidence(true, false);
    assert!(!evidence.speech_evidence);
    let padded = endpoint.pad_silence();
    assert_eq!(padded.frame, 1);
    endpoint.reset();
    assert_eq!(endpoint.checked_frame_count(), 0);
}

fn tables() -> FrontendTables {
    FrontendTables::parse(vec![0; TABLE_SIZE]).expect("tables")
}

#[test]
fn extractors_have_their_sizes() {
    assert_eq!(OriginalFeatureExtractor::new(tables()).feature_size(), FEATURE_SIZE);
    let extractor =
        OriginalFeatureExtractor::with_feature_size(tables(), VAD_FEATURE_SIZE).expect("extractor");
    assert_eq!(extractor.feature_size(), VAD_FEATURE_SIZE);
    assert_eq!(
        OriginalFeatureExtractor::with_feature_size(tables(), 41).err(),
        Some(FrontendError::FeatureSize)
    );
    assert_eq!(
        extractor.extract_frame_q22(&[0; FRAME_LENGTH - 1]).err(),
        Some(FrontendError::ShortFrame)
    );
    assert_eq!(extractor.extract_frame_q22(&[0; FRAME_LENGTH]).unwrap().len(), VAD_FEATURE_SIZE);
    let samples = vec![100; FRAME_LENGTH + 2 * FRAME_SHIFT + 1];
    assert_eq!(extractor.extract_frames_q22(&samples).len(), 3 * VAD_FEATURE_SIZE);
    assert_eq!(FrontendTables::parse(vec![0; 3]).err(), Some(FrontendError::TableSize));
    assert_eq!(
        FrontendTables::parse(vec![255; TABLE_SIZE]).err(),
        Some(FrontendError::TableIndex)
    );
}

#[test]
fn frames_with_sound_are_active() {
    let mut samples = vec![0_i16; 320];
    assert!(!frame_energy_active(&samples, 0));
    samples[200] = 1;
    assert!(!frame_energy_active(&samples, 0));
    assert!(frame_energy_active(&samples, 1));
    assert!(!frame_energy_active(&samples, 2));
}

fn segmenter(config: EdgeEsrVadConfig) -> Result<VadSegmenter, VadLoadError> {
    let extractor =
        OriginalFeatureExtractor::with_feature_size(tables(), VAD_FEATURE_SIZE).expect("extractor");
    VadSegmenter::new(config, extractor)
}

#[test]
fn segmenters_check_their_settings() {
    let mut config = EdgeEsrVadConfig::default();
    config.sample_rate = 8_000;
    assert_eq!(segmenter(config).err(), Some(VadLoadError::SampleRate));
    let mut config = EdgeEsrVadConfig::default();
    config.threshold = 1.5_f32.to_bits();
    assert_eq!(segmenter(config).err(), Some(VadLoadError::Threshold));
}

#[test]
fn speech_is_cut_out_of_silence() {
    let mut segmenter = segmenter(EdgeEsrVadConfig::default()).expect("segmenter");
    let mut samples = vec![0_i16; 32_000];
    samples.extend((0..96_000).map(|index| if index % 2 == 0 { 4_000 } else { -4_000 }));
    samples.extend(vec![0_i16; 64_000]);
    let total = samples.len();
    segmenter.push(&samples);
    let mut segments = Vec::new();
    while let Some(group) = segmenter.next_group() {
        assert_eq!(group.features.len(), VAD_INPUT_SIZE);
        let neural = vec![true; group.frames.len()];
        segments.extend(segmenter.accept(group.frames, true, &neural, -1));
    }
    let flush = segmenter.flush_frame();
    if let Some(group) = segmenter.partial_group() {
        let neural = vec![true; group.frames.len()];
        segments.extend(segmenter.accept(group.frames, true, &neural, flush));
    }
    if segmenter.frame_total() > 0 {
        let closing = segmenter.closing_group();
        assert_eq!(closing.features.len(), VAD_INPUT_SIZE);
        segments.extend(segmenter.accept(Vec::new(), true, &[], flush));
        segments.extend(segmenter.pad(flush));
    }
    segments.extend(segmenter.end_input());
    assert_eq!(segments.len(), 1);
    let segment = &segments[0];
    assert_eq!(segment.reason, EdgeEsrVadSegmentReason::EndSilence);
    assert_eq!((segment.start_sample, segment.end_sample), (194 * 160, 543 * 160));
    assert_eq!((segment.audio_start_sample, segment.audio_end_sample), (164 * 160, 574 * 160));
    assert_eq!(segment.speech_ms, 3_490);
    assert!(segment.audio_end_sample <= total);
    assert_eq!(segment.samples.len(), segment.audio_end_sample - segment.audio_start_sample);
    segmenter.reset();
    assert!(!segmenter.detected());
    assert_eq!(segmenter.frame_total(), 0);
}

fn varied_extractor() -> OriginalFeatureExtractor {
    let bytes = (0..TABLE_SIZE).map(|index| (index * 31 % 97) as u8).collect();
    OriginalFeatureExtractor::new(FrontendTables::parse(bytes).expect("tables"))
}

#[test]
fn constant_offsets_are_removed() {
    let extractor = varied_extractor();
    let mut samples = (0..FRAME_LENGTH as i32)
        .map(|index| (index * 7_919 % 2_003 - 1_000) as i16)
        .collect::<Vec<_>>();
    let sum = samples.iter().map(|sample| i32::from(*sample)).sum::<i32>();
    samples[0] -= (sum % FRAME_LENGTH as i32) as i16;
    let features = extractor.extract_frame_q22(&samples).unwrap();
    for offset in [-1_234, 17, 20_000] {
        let shifted = samples.iter().map(|sample| sample + offset).collect::<Vec<_>>();
        assert_eq!(extractor.extract_frame_q22(&shifted).unwrap(), features);
    }
    let silence = extractor.extract_frame_q22(&[0; FRAME_LENGTH]).unwrap();
    assert_ne!(features, silence);
    assert_eq!(extractor.extract_frame_q22(&[-321; FRAME_LENGTH]).unwrap(), silence);
}

#[test]
fn each_frame_has_its_part_of_the_features() {
    let extractor = varied_extractor();
    let samples = (0..1_000_i32)
        .map(|index| (index * 7_919 % 20_011 - 10_000) as i16)
        .collect::<Vec<_>>();
    let features = extractor.extract_frames_q22(&samples);
    assert_eq!(features.len(), 4 * FEATURE_SIZE);
    for (frame, part) in features.chunks(FEATURE_SIZE).enumerate() {
        let start = frame * FRAME_SHIFT;
        let whole = extractor.extract_frame_q22(&samples[start..start + FRAME_LENGTH]).unwrap();
        let clamped = whole.iter().map(|value| *value.max(&0)).collect::<Vec<_>>();
        assert_eq!(part, clamped);
    }
    assert!(extractor.extract_frames_q22(&samples[..FRAME_LENGTH - 1]).is_empty());
}

/// Runs detection over samples in pieces, with a model that hears speech in every frame.
fn run_session(samples: &[i16], piece: usize) -> Vec<EdgeEsrVadEvent> {
    let mut session = VadSession::new(segmenter(EdgeEsrVadConfig::default()).expect("segmenter"));
    let mut events = Vec::new();
    let mut pieces = samples.chunks(piece);
    loop {
        let last = match pieces.next() {
            Some(part) => {
                session.push(part);
                false
            }
            None => true,
        };
        loop {
            match session.next_action(last) {
                VadAction::Run { group, flush_frame } => {
                    assert_eq!(group.features.len(), VAD_INPUT_SIZE);
                    events.extend(session.answer(group.frames, true, &[true; 4], flush_frame));
                }
                VadAction::Ended(rest) => {
                    events.extend(rest);
                    return events;
                }
                VadAction::Wait => break,
            }
        }
    }
}

#[test]
fn sessions_tell_of_speech_in_order() {
    let sound = |index: usize| if index % 2 == 0 { 4_000_i16 } else { -4_000 };
    let mut samples = vec![0_i16; 32_000];
    samples.extend((0..96_000).map(sound));
    samples.extend(vec![0_i16; 64_000]);
    samples.extend((0..32_000).map(sound));
    for piece in [1_000, samples.len()] {
        let events = run_session(&samples, piece);
        let mut open = false;
        let mut ready = 0;
        let mut segments = Vec::new();
        for event in events {
            match event {
                EdgeEsrVadEvent::SpeechStart { audio_start_sample } => {
                    assert!(!open);
                    assert!(audio_start_sample <= samples.len());
                    open = true;
                }
                EdgeEsrVadEvent::AudioReady { audio_end_sample, force } => {
                    assert!(open && !force);
                    assert!(ready <= audio_end_sample && audio_end_sample <= samples.len());
                    ready = audio_end_sample;
                }
                EdgeEsrVadEvent::SpeechEnd(segment) => {
                    assert!(open);
                    open = false;
                    segments.push(segment);
                }
            }
        }
        assert!(!open && ready > 0);
        assert_eq!(segments.len(), 2);
        assert_eq!(segments[0].reason, EdgeEsrVadSegmentReason::EndSilence);
        assert_eq!(segments[0].start_sample, 194 * 160);
        assert_eq!(segments[1].reason, EdgeEsrVadSegmentReason::Finish);
    }
    assert!(run_session(&[], 1).is_empty());
}

#[test]
fn detection_turns_alternate() {
    let mut endpoint = OriginalVadEndpoint::new(VadEndpointConfig::default()).expect("endpoint");
    let mut turns = Vec::new();
    for frame in 0..4_000 {
        endpoint.push_evidence(true, frame / 500 % 2 == 1);
        let status = endpoint.step(frame, -1).expect("step");
        if matches!(status, VadStatus::SpeechStart | VadStatus::SpeechEnd) {
            turns.push(status);
            assert_eq!(status == VadStatus::SpeechStart, endpoint.start_pause_frame() >= 0);
        }
        assert_eq!(endpoint.step(frame + 1, -1), Err(VadError::FrameNotClassified));
    }
    assert!(turns.len() > 4);
    for (index, turn) in turns.iter().enumerate() {
        assert_eq!(*turn == VadStatus::SpeechStart, index % 2 == 0);
    }
}
