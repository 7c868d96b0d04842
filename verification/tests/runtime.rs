use edge_esr::beam::{BeamCandidate, BeamSearchResult};
use edge_esr::decoder::{
    chunks_one_by_one, pad_values, DecoderError, DecoderPump, DecoderRows, EncoderBank,
    MAX_DECODER_CALLS, START_TOKEN_ID,
};
use edge_esr::encoder::{
    split_conformer_output, EncoderBuffers, EncoderChunk, EncoderError, CONFORMER_OUTPUT_CHUNKS,
    CONFORMER_WINDOW_FRAMES, ENCODER_CHUNK_FRAMES, HIDDEN_SIZE, VGG_CHUNK_FRAMES,
    VGG_OUTPUT_FRAMES, VGG_STRIDE_FRAMES,
};
use edge_esr::frontend::{
    FrontendTables, OriginalFeatureExtractor, FEATURE_SIZE, FRAME_LENGTH, FRAME_SHIFT, TABLE_SIZE,
};
use edge_esr::model_files::{
    model_dir, model_load_error, required_model_file, EdgeEsrModelFiles, MODEL_FILE_COUNT,
};
use edge_esr::streaming::{
    AudioCursor, CommittedTranscription, EdgeEsrTranscription, SessionEmissionState,
    STREAM_ACCEPT_SAMPLES,
};
use edge_esr::token_timing::TokenTimingEstimator;
use edge_esr::transcript::{
    load_vocabulary, merge_bpe_continuations, samples_to_milliseconds, tokens_from_path,
};
use edge_esr::vad::EdgeEsrVadSegmentReason;
use edge_esr::version::{git_commit_version, parse_describe};

fn tokens(values: &[&str]) -> Vec<String> {
    values.iter().map(|value| (*value).to_string()).collect()
}

fn chars(text: &str) -> Vec<char> {
    text.chars().collect()
}

#[test]
fn bpe_continuations_merge_into_the_previous_token() {
    let tokens = vec!["co", "@@d", "@@ex", "的", "a", "@@i"]
        .into_iter()
        .map(str::to_string)
        .collect();
    assert_eq!(merge_bpe_continuations(tokens), ["codex", "的", "ai"]);
}

#[test]
fn orphan_bpe_continuation_does_not_leak_marker() {
    assert_eq!(
        merge_bpe_continuations(vec!["@@edge".to_string()]),
        ["edge"]
    );
}

#[test]
fn empty_continuations_leave_no_word() {
    assert!(merge_bpe_continuations(tokens(&["@@"])).is_empty());
    assert_eq!(merge_bpe_continuations(tokens(&["a", "@@", "@"])), ["a", "@"]);
}

#[test]
fn paths_become_words() {
    let vocabulary = load_vocabulary("<s>\nhel\r\n@@lo\n<unk>\n</s>\n<NOISE>\n<CAT>\nworld").unwrap();
    assert_eq!(vocabulary.len(), 8);
    let words = tokens_from_path(&vocabulary, &[0, 1, 2, 3, 4, 5, 6, 7, 8, 10]);
    assert_eq!(words, ["hello", "world", "<score-id:9>"]);
    assert!(load_vocabulary("").is_err());
}

#[test]
fn samples_are_counted_in_milliseconds() {
    assert_eq!(samples_to_milliseconds(16_000), 1_000);
    assert_eq!(samples_to_milliseconds(10_247), 640);
    assert_eq!(samples_to_milliseconds(usize::MAX), u64::MAX / 16_000);
}

fn spread(start: u32, end: u32, offset: usize, count: usize) -> u32 {
    let start = f32::from_bits(start);
    let interval = f32::from_bits(end) - start;
    (start + interval * offset as f32 / count as f32).to_bits()
}

fn update(estimator: &mut TokenTimingEstimator, values: &[&str], end: f32) -> Option<Vec<f32>> {
    estimator
        .update(&spread, &tokens(values), end.to_bits())
        .map(|times| times.into_iter().map(f32::from_bits).collect())
}

fn assert_timestamps(actual: &[f32], expected: &[f32]) {
    assert_eq!(actual.len(), expected.len());
    for (actual, expected) in actual.iter().zip(expected) {
        assert!((actual - expected).abs() < 0.0001, "{actual} != {expected}");
    }
}

#[test]
fn growing_partials_produce_increasing_timestamps() {
    let mut estimator = TokenTimingEstimator::default();
    let _ = update(&mut estimator, &["a"], 0.64);
    let _ = update(&mut estimator, &["a", "b"], 1.28);
    let timestamps = update(&mut estimator, &["a", "b", "c"], 1.92).unwrap();
    assert_timestamps(&timestamps, &[0.0, 0.64, 1.28]);
}

#[test]
fn tokens_from_one_partial_share_its_audio_interval() {
    let mut estimator = TokenTimingEstimator::default();
    let timestamps = update(&mut estimator, &["a", "b", "c"], 0.96).unwrap();
    assert_timestamps(&timestamps, &[0.0, 0.32, 0.64]);
}

#[test]
fn revised_suffix_does_not_affect_final_timestamps() {
    let mut estimator = TokenTimingEstimator::default();
    let _ = update(&mut estimator, &["a", "wrong"], 0.64);
    let _ = update(&mut estimator, &["a", "other"], 1.28);
    let timestamps = update(&mut estimator, &["a", "b", "c"], 1.92).unwrap();
    assert_timestamps(&timestamps, &[0.0, 0.64, 1.28]);
}

#[test]
fn final_only_suffix_fills_the_remaining_interval() {
    let mut estimator = TokenTimingEstimator::default();
    let _ = update(&mut estimator, &["a"], 0.64);
    let timestamps = update(&mut estimator, &["a", "b", "c"], 2.0).unwrap();
    assert_timestamps(&timestamps, &[0.0, 0.64, 1.32]);
}

#[test]
fn final_only_transcription_spans_the_audio_duration() {
    let mut estimator = TokenTimingEstimator::default();
    let timestamps = update(&mut estimator, &["a", "b", "c"], 2.0).unwrap();
    assert_timestamps(&timestamps, &[0.0, 2.0 / 3.0, 4.0 / 3.0]);
}

#[test]
fn empty_tokens_do_not_produce_timestamps() {
    let mut estimator = TokenTimingEstimator::default();
    assert!(update(&mut estimator, &[], 1.0).is_none());
}

#[test]
fn timestamps_stay_monotonic_and_inside_audio_bounds() {
    let mut estimator = TokenTimingEstimator::default();
    let _ = update(&mut estimator, &["a"], 1.5);
    let timestamps = update(&mut estimator, &["a", "b", "c"], 1.0).unwrap();
    assert_eq!(timestamps.len(), 3);
    assert!(timestamps.windows(2).all(|window| window[0] <= window[1]));
    assert!(timestamps.iter().all(|timestamp| (0.0..=1.5).contains(timestamp)));
}

#[test]
fn ends_that_are_no_times_count_as_zero() {
    for end in [-1.0, f32::NAN, f32::INFINITY, f32::NEG_INFINITY] {
        let mut estimator = TokenTimingEstimator::default();
        assert_eq!(update(&mut estimator, &["a", "b"], end), Some(vec![0.0, 0.0]));
    }
}

fn plus(left: u32, right: u32) -> u32 {
    (f32::from_bits(left) + f32::from_bits(right)).to_bits()
}

fn mean(sum: u32, count: usize) -> u32 {
    (f32::from_bits(sum) / count as f32).to_bits()
}

fn transcription(text: &str, confidence: f32) -> EdgeEsrTranscription {
    EdgeEsrTranscription {
        text: text.to_string(),
        tokens: text.chars().map(|character| character.to_string()).collect(),
        token_timestamps: Some(vec![0.0_f32.to_bits(); text.chars().count()]),
        confidence: confidence.to_bits(),
    }
}

#[test]
fn committed_segments_preserve_their_boundary_text() {
    let mut committed = CommittedTranscription::new();
    committed.append(&plus, &transcription("first.", 0.8), 0.0_f32.to_bits());
    committed.append(&plus, &transcription("second.", 0.6), 2.0_f32.to_bits());

    let result = committed.transcription(&mean);
    assert_eq!(result.text, "first.second.");
    let times = result.token_timestamps.unwrap();
    assert_eq!(result.tokens.len(), times.len());
    assert!((f32::from_bits(result.confidence) - 0.7).abs() < 0.0001);
    assert_eq!(f32::from_bits(times[5]), 0.0);
    assert_eq!(f32::from_bits(times[6]), 2.0);
    assert_eq!(committed.text(), "first.second.");
    assert_eq!(committed.segment_count(), 2);
}

#[test]
fn active_text_is_appended_after_the_committed_prefix() {
    let mut committed = CommittedTranscription::new();
    committed.append(&plus, &transcription("stable,", 0.9), 0.0_f32.to_bits());

    let result =
        committed.with_active(&plus, &mean, &transcription("partial", 0.5), 1.0_f32.to_bits());
    assert_eq!(result.text, "stable,partial");
    assert_eq!(result.tokens.len(), result.token_timestamps.unwrap().len());
    assert_eq!(f32::from_bits(result.confidence), 0.9);
}

#[test]
fn segments_without_times_take_their_offset() {
    let mut committed = CommittedTranscription::new();
    let mut untimed = transcription("ab", 0.5);
    untimed.token_timestamps = None;
    committed.append(&plus, &untimed, 3.0_f32.to_bits());
    let times = committed.transcription(&mean).token_timestamps.unwrap();
    assert_eq!(times, [3.0_f32.to_bits(); 2]);
    let empty = CommittedTranscription::new();
    assert_eq!(empty.transcription(&mean).confidence, 0);
    assert!(empty.transcription(&mean).token_timestamps.is_none());
    let active = empty.with_active(&plus, &mean, &transcription("x", 0.5), 0);
    assert_eq!(f32::from_bits(active.confidence), 0.5);
    assert!(active.token_timestamps.is_none());
}

#[test]
fn updates_are_numbered_and_revisions_counted() {
    let mut state = SessionEmissionState::new();
    assert!(state.emit("", false, false).is_none());
    let first = state.emit("he", false, false).unwrap();
    assert_eq!((first.revision, first.revision_count, first.sequence), (false, 0, 1));
    assert!(state.emit("he", false, false).is_none());
    let grown = state.emit("hello", false, false).unwrap();
    assert!(!grown.revision);
    let revised = state.emit("help", false, false).unwrap();
    assert_eq!((revised.revision, revised.revision_count, revised.sequence), (true, 1, 3));
    assert_eq!(state.emit("help", true, false).unwrap().sequence, 4);
    assert_eq!(state.emit("help", false, true).unwrap().sequence, 5);
    assert_eq!(state.revision_count(), 1);
}

#[test]
fn audio_is_fed_in_chunks() {
    let mut cursor = AudioCursor::new();
    assert_eq!(cursor.feed(50_000, 50_000, true), None);
    cursor.start(1_000, 30_000).unwrap();
    assert!(cursor.start(0, 30_000).is_err());
    assert_eq!(cursor.feed(25_000, 30_000, false), Some((1_000, 1_000 + STREAM_ACCEPT_SAMPLES)));
    assert_eq!(cursor.feed(25_000, 30_000, false), Some((11_240, 21_480)));
    assert_eq!(cursor.feed(25_000, 30_000, false), None);
    assert_eq!(cursor.active_samples(), 20_480);
    assert_eq!(cursor.feed(25_000, 30_000, true), Some((21_480, 25_000)));
    assert_eq!(cursor.feed(20_000, 30_000, true), None);
    let audio = vec![1_i16; 30_000];
    let segment = cursor.last_segment(&audio);
    assert_eq!(segment.reason, EdgeEsrVadSegmentReason::Finish);
    assert_eq!(segment.samples.len(), 29_000);
    assert_eq!(segment.speech_ms, 1_812);
    assert_eq!(cursor.commit(1_000, 24_000, 30_000), (1_000, 25_000));
    assert!(!cursor.active);
    assert_eq!(cursor.asr_cursor, 24_000);
}

#[test]
fn conformer_output_splits_into_consecutive_chunks() {
    let hidden_length = CONFORMER_OUTPUT_CHUNKS * ENCODER_CHUNK_FRAMES * HIDDEN_SIZE;
    let hidden = (0..hidden_length).map(|value| value as f32).collect::<Vec<_>>();
    let mask = (0..CONFORMER_OUTPUT_CHUNKS * ENCODER_CHUNK_FRAMES)
        .map(|value| value as f32)
        .collect::<Vec<_>>();
    let chunks =
        split_conformer_output(&hidden, &mask, &hidden, &hidden, &hidden, 0.0, false).unwrap();
    assert_eq!(chunks.0.conformer_output[0], 0.0);
    assert_eq!(
        chunks.1.conformer_output[0],
        (ENCODER_CHUNK_FRAMES * HIDDEN_SIZE) as f32
    );
    assert_eq!(chunks.0.conformer_mask[0], 0.0);
    assert_eq!(chunks.1.conformer_mask[0], ENCODER_CHUNK_FRAMES as f32);
}

#[test]
fn startup_chunk_blanks_every_attention_tensor() {
    let hidden_length = CONFORMER_OUTPUT_CHUNKS * ENCODER_CHUNK_FRAMES * HIDDEN_SIZE;
    let hidden = vec![1.0; hidden_length];
    let mask = vec![1.0; CONFORMER_OUTPUT_CHUNKS * ENCODER_CHUNK_FRAMES];
    let (first, second) =
        split_conformer_output(&hidden, &mask, &hidden, &hidden, &hidden, 0.0, true).unwrap();
    for chunk in [first, second] {
        assert!(chunk.conformer_output.iter().all(|value| *value == 0.0));
        assert!(chunk.conformer_mask.iter().all(|value| *value == 0.0));
        assert!(chunk.at_h.iter().all(|value| *value == 0.0));
        assert!(chunk.chunk_at_h.iter().all(|value| *value == 0.0));
        assert!(chunk.enc_mem_h.iter().all(|value| *value == 0.0));
    }
    assert_eq!(
        split_conformer_output(&hidden[1..], &mask, &hidden, &hidden, &hidden, 0.0, true).err(),
        Some(EncoderError::ConformerShape)
    );
}

fn extractor() -> OriginalFeatureExtractor {
    let tables = FrontendTables::parse(vec![0; TABLE_SIZE]).expect("tables");
    OriginalFeatureExtractor::new(tables)
}

#[test]
fn encoder_windows_follow_the_samples() {
    let mut buffers: EncoderBuffers<u16, u32> = EncoderBuffers::new(extractor());
    let startup = buffers.startup_samples().unwrap();
    assert_eq!(startup, FRAME_LENGTH + 131 * FRAME_SHIFT);
    buffers.accept_pcm(&vec![0; startup], false).unwrap();
    assert_eq!(buffers.startup_samples(), Err(EncoderError::Started));
    for call in 0..2 {
        let window = buffers.next_window().expect("window");
        assert_eq!(window.features.len(), VGG_CHUNK_FRAMES * FEATURE_SIZE);
        assert!(window.publish);
        let output = vec![1_u16; VGG_OUTPUT_FRAMES * HIDDEN_SIZE];
        let mask = vec![1_u16; VGG_OUTPUT_FRAMES];
        buffers.accept_vgg(output, mask, 0, true).unwrap();
        assert_eq!(buffers.conformer_window().is_some(), call == 1);
    }
    assert!(buffers.next_window().is_none());
    let (input, mask) = buffers.conformer_window().unwrap();
    assert_eq!(input.len(), CONFORMER_WINDOW_FRAMES * HIDDEN_SIZE);
    assert!(input.iter().chain(&mask).all(|value| *value == 0));
    let hidden = vec![7_u32; CONFORMER_OUTPUT_CHUNKS * ENCODER_CHUNK_FRAMES * HIDDEN_SIZE];
    let marks = vec![7_u32; CONFORMER_OUTPUT_CHUNKS * ENCODER_CHUNK_FRAMES];
    let chunk = buffers
        .accept_conformer(&hidden, &marks, &hidden, &hidden, &hidden, 0)
        .unwrap();
    assert!(chunk.conformer_output.iter().all(|value| *value == 0));
    assert!(buffers.conformer_window().is_none());
    assert_eq!(
        buffers.accept_vgg(vec![1], vec![1], 0, true),
        Err(EncoderError::VggShape)
    );
    buffers.accept_pcm(&vec![0; FRAME_SHIFT], true).unwrap();
    let last = buffers.last_window().expect("last window");
    assert_eq!(last.frames, VGG_CHUNK_FRAMES - VGG_STRIDE_FRAMES + 1);
    assert!(!last.publish);
    assert_eq!(last.features.len(), VGG_CHUNK_FRAMES * FEATURE_SIZE);
    buffers.accept_vgg(Vec::new(), Vec::new(), 0, false).unwrap();
    assert!(buffers.finish().is_some());
    assert!(buffers.finish().is_none());
    assert_eq!(buffers.accept_pcm(&[], false), Err(EncoderError::Finalized));
    buffers.reset();
    assert!(buffers.accept_pcm(&[], false).is_ok());
    assert!(buffers.last_window().is_none());
}

fn chunk(value: u32) -> EncoderChunk<u32> {
    let hidden = vec![value; ENCODER_CHUNK_FRAMES * HIDDEN_SIZE];
    EncoderChunk {
        conformer_output: hidden.clone(),
        conformer_mask: vec![value; ENCODER_CHUNK_FRAMES],
        at_h: hidden.clone(),
        chunk_at_h: hidden.clone(),
        enc_mem_h: hidden,
    }
}

#[test]
fn encoder_bank_holds_its_chunks() {
    let mut bank = EncoderBank::new();
    bank.append(chunk(1)).unwrap();
    bank.append(chunk(2)).unwrap();
    assert_eq!(bank.chunk_count, 2);
    assert_eq!(bank.conformer_mask[15..17], [1, 2]);
    let mut short = chunk(3);
    short.conformer_mask.pop();
    assert_eq!(bank.append(short), Err(DecoderError::ChunkShape));
    for _ in 2..128 {
        bank.append(chunk(4)).unwrap();
    }
    assert_eq!(bank.append(chunk(5)), Err(DecoderError::Capacity));
}

#[test]
fn last_two_chunks_are_decoded_together() {
    assert_eq!(chunks_one_by_one(5, false), 5);
    assert_eq!(chunks_one_by_one(5, true), 3);
    assert_eq!(chunks_one_by_one(1, true), 0);
}

#[test]
fn decoder_is_called_until_attention_waits() {
    let mut pump = DecoderPump::new();
    assert_eq!(pump.ready(0, false), Ok(false));
    assert_eq!(pump.ready(1, true), Ok(false));
    assert_eq!(pump.ready(1, false), Ok(true));
    assert_eq!(pump.called(true, false), Ok(true));
    assert_eq!(pump.called(false, false), Ok(false));
    assert_eq!(pump.called(false, true), Err(DecoderError::Stalled));
    for _ in 3..MAX_DECODER_CALLS {
        pump.called(true, false).unwrap();
    }
    assert_eq!(pump.ready(1, false), Err(DecoderError::CallLimit));
}

#[test]
fn decoder_rows_follow_the_candidates() {
    let mut rows = DecoderRows::new();
    assert_eq!(rows.labels(), [START_TOKEN_ID, 0, 0, 0, 0, 0, 0, 0]);
    assert_eq!(rows.active_count(), 1);
    let candidate = BeamCandidate {
        normalized_score: 0,
        acoustic_score: 0,
        parent: 0,
        token: 12,
        step: 3,
        path: vec![1, 2, 12],
        terminal: false,
    };
    let mut found = BeamSearchResult {
        candidates: vec![candidate.copy(), candidate],
        retained_finished: Vec::new(),
        ranked_candidates: Vec::new(),
        done: false,
        first_eos_step: None,
    };
    assert!(rows.accept(&found));
    assert_eq!(rows.labels(), [11, 11, 0, 0, 0, 0, 0, 0]);
    assert_eq!(rows.lengths(), [3, 3, 0, 0, 0, 0, 0, 0]);
    assert_eq!(rows.active_count(), 2);
    found.candidates.clear();
    assert!(!rows.accept(&found));
    assert!(rows.done());
    assert_eq!(rows.active_count(), 0);
    assert_eq!(pad_values(&[1, 2], 9, 4), [1, 2, 9, 9]);
}

fn join(root: &String, name: &'static str) -> String {
    format!("{root}/{name}")
}

#[test]
fn model_files_lie_in_their_directory() {
    let files = EdgeEsrModelFiles::from_dir("m".to_string(), &join, &|_: &String| true).unwrap();
    assert_eq!(files.root, "m");
    assert_eq!(files.vad, "m/vad.onnx");
    let paths = files.required_paths();
    assert_eq!(paths.len(), MODEL_FILE_COUNT);
    for (index, path) in paths.into_iter().enumerate() {
        assert_eq!(path, &join(&"m".to_string(), required_model_file(index)));
    }
    let absent = |path: &String| path != "m/tokens.txt" && path != "m/vad.onnx";
    let (found, missing) =
        EdgeEsrModelFiles::from_dir("m".to_string(), &join, &absent).unwrap_err();
    assert_eq!(found.required_paths()[missing], "m/vad.onnx");
    assert_eq!(
        EdgeEsrModelFiles::missing_from_dir(&"m".to_string(), &join, &absent),
        ["m/vad.onnx", "m/tokens.txt"]
    );
}

#[test]
fn model_messages_name_the_release() {
    assert_eq!(model_dir(&"root".to_string(), &join), "root/iflytek-edgeesr-v1.0.0");
    assert_eq!(
        model_load_error("dir", "no file"),
        "unable to load EdgeEsr model from dir: no file. Download release models-iflytek-v1.0.0"
    );
}

#[test]
fn descriptions_are_taken_apart() {
    let found = parse_describe(&chars("v1.2-rc-14-gabc1234")).unwrap();
    assert_eq!(found.tag, chars("v1.2-rc"));
    assert_eq!(found.commits, 14);
    assert_eq!(found.hash, chars("abc1234"));
    assert!(parse_describe(&chars("v1-+3-gABCDEF")).is_some());
    assert!(parse_describe(&chars("abc123")).is_none());
    assert!(parse_describe(&chars("v1-3-gabc")).is_none());
    assert!(parse_describe(&chars("v1-3-gabcdeg")).is_none());
    assert!(parse_describe(&chars("v1-x-gabcdef")).is_none());
    assert!(parse_describe(&chars("v1--gabcdef")).is_none());
    assert!(parse_describe(&chars("3-gabcdef")).is_none());
    assert!(parse_describe(&chars("v1-18446744073709551616-gabcdef")).is_none());
    assert!(parse_describe(&chars("v1-18446744073709551615-gabcdef")).is_some());
}

#[test]
fn versions_name_tag_and_commit() {
    let version = |describe: &str| -> String {
        git_commit_version(&chars("0.3.0"), &chars(describe), &chars("abc123"))
            .into_iter()
            .collect()
    };
    assert_eq!(version("v1.0-0-gabc123"), "v1.0");
    assert_eq!(version("v1.0-4-gabc123"), "v1.0-abc123");
    assert_eq!(version("v1.0-0-gabc123-dirty"), "v1.0^abc123");
    assert_eq!(version("abc123"), "v0.3.0-abc123");
    assert_eq!(version("abc123-dirty"), "v0.3.0^abc123");
}

#[test]
fn samples_in_pieces_give_the_same_windows() {
    let bytes = (0..TABLE_SIZE).map(|index| (index * 31 % 97) as u8).collect();
    let extract = || {
        let tables = FrontendTables::parse(Vec::clone(&bytes)).expect("tables");
        OriginalFeatureExtractor::new(tables)
    };
    let samples = (0..25_000_i32)
        .map(|index| (index * 7_919 % 20_011 - 10_000) as i16)
        .collect::<Vec<_>>();
    let mut whole: EncoderBuffers<u16, u32> = EncoderBuffers::new(extract());
    whole.accept_pcm(&samples, false).unwrap();
    let mut pieces: EncoderBuffers<u16, u32> = EncoderBuffers::new(extract());
    for piece in samples.chunks(333) {
        pieces.accept_pcm(piece, false).unwrap();
    }
    let overlap = (VGG_CHUNK_FRAMES - VGG_STRIDE_FRAMES) * FEATURE_SIZE;
    let mut tail: Option<Vec<i32>> = None;
    let mut count = 0;
    while let Some(window) = whole.next_window() {
        let other = pieces.next_window().expect("window");
        assert_eq!(window.features, other.features);
        if let Some(tail) = tail {
            assert_eq!(window.features[..overlap], tail);
        }
        tail = Some(window.features[window.features.len() - overlap..].to_vec());
        count += 1;
    }
    assert_eq!(count, 2);
    assert!(pieces.next_window().is_none());
    assert!(tail.is_some_and(|tail| tail.iter().any(|value| *value != tail[0])));
}

#[test]
fn committing_keeps_what_was_shown() {
    let transcription = |text: &str| EdgeEsrTranscription {
        text: text.to_string(),
        tokens: tokens(&[text]),
        token_timestamps: Some(vec![0]),
        confidence: 1.0_f32.to_bits(),
    };
    let plus = |left: u32, right: u32| (f32::from_bits(left) + f32::from_bits(right)).to_bits();
    let mean = |sum: u32, count: usize| (f32::from_bits(sum) / count as f32).to_bits();
    let mut committed = CommittedTranscription::new();
    committed.append(&plus, &transcription("first."), 0);
    let shown = committed.with_active(&plus, &mean, &transcription("second"), 0);
    committed.append(&plus, &transcription("second"), 0);
    let result = committed.transcription(&mean);
    assert_eq!(shown.text, "first.second");
    assert_eq!(result.text, shown.text);
    assert_eq!(result.tokens, shown.tokens);
}

#[test]
fn the_first_token_comes_at_zero() {
    let mut estimator = TokenTimingEstimator::default();
    assert_eq!(update(&mut estimator, &[], 1.0), None);
    for (values, end) in [(&["a"][..], 2.0), (&["b", "c"], 1.0), (&["b", "c", "d"], 3.0)] {
        let times = update(&mut estimator, values, end).unwrap();
        assert_eq!(times.len(), values.len());
        assert_eq!(times[0], 0.0);
    }
}
