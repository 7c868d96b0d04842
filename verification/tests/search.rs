use edge_esr::attention::{
    AttentionError, FrameBank, MemoryAttentionConfig, MemoryAttentionInput, MemoryTryAttention,
};
use edge_esr::beam::{
    preprocess_scores, BeamError, BeamSearchConfig, OriginalBeamSearch,
};
use edge_esr::frame_weights::FrameArithmetic;
use edge_esr::rank::stable_descending;
use edge_esr::topk::{number_place, select_top_k};

fn config() -> BeamSearchConfig {
    BeamSearchConfig {
        beam_width: 2,
        input_score_count: 6,
        search_score_count: 5,
        merge_target_score_id: 3,
        eos_score_id: 4,
        score_floor: (-20_000.0_f32).to_bits(),
        step_divisor: 2,
    }
}

fn bits(values: &[f32]) -> Vec<u32> {
    values.iter().map(|value| value.to_bits()).collect()
}

fn floats(values: &[u32]) -> Vec<f32> {
    values.iter().map(|value| f32::from_bits(*value)).collect()
}

fn merge(left: u32, right: u32) -> u32 {
    (f32::from_bits(left).exp() + f32::from_bits(right).exp()).ln().to_bits()
}

fn normalize(previous: u32, acoustic: u32, step: usize) -> u32 {
    let total = f32::from_bits(previous) * (step - 1) as f32;
    ((total + f32::from_bits(acoustic)) / step as f32).to_bits()
}

#[test]
fn preprocessing_handles_all_flag_modes() {
    let scores = vec![
        -5.0, -4.0, -3.0, -2.0, -1.0, 99.0, -6.0, -5.0, -4.0, -3.0, -2.0,
        98.0, -7.0, -6.0, -5.0, -4.0, -3.0, 97.0, -8.0, -7.0, -6.0, -5.0,
        -4.0, 96.0,
    ];
    let output = preprocess_scores(&merge, &bits(&scores), &[0, 1, 2, 3], 4, config())
        .expect("scores");
    let output = floats(&output);
    assert_eq!(output[4], -20_000.0);
    assert_eq!(output[5..8], [-20_000.0; 3]);
    assert_eq!(&output[10..15], &scores[12..17]);
    assert_eq!(&output[15..20], &[-20_000.0, -20_000.0, -20_000.0, 0.0, -4.0]);
}

#[test]
fn preprocessing_merges_the_end_into_the_target() {
    let scores = bits(&[-5.0, -4.0, -3.0, -2.0, -1.0, 99.0]);
    let output = preprocess_scores(&merge, &scores, &[0], 1, config()).expect("scores");
    assert_eq!(output[3], merge(scores[3], scores[4]));
    assert_eq!(&output[..3], &scores[..3]);
}

#[test]
fn preprocessing_rejects_shapes_and_flags() {
    let scores = bits(&[0.0; 6]);
    assert_eq!(
        preprocess_scores(&merge, &scores, &[0], 2, config()),
        Err(BeamError::Shape)
    );
    assert_eq!(
        preprocess_scores(&merge, &scores, &[4], 1, config()),
        Err(BeamError::Flag)
    );
    assert_eq!(
        preprocess_scores(&merge, &scores, &[-1], 1, config()),
        Err(BeamError::Flag)
    );
}

#[test]
fn top_k_preserves_original_floor_heap_order() {
    let mut scores = vec![-20_000.0; 9];
    scores[8] = -3.5;
    let values = select_top_k(&bits(&scores), 8).expect("top k");
    let tokens = values.into_iter().map(|(_, token)| token).collect::<Vec<_>>();
    assert_eq!(tokens, [9, 3, 6, 7, 5, 8, 4, 2]);
}

#[test]
fn top_k_is_descending_and_keeps_the_greatest() {
    let scores = [0.5_f32, -1.0, 3.25, 2.0, -0.0, 7.5, 1.0];
    let values = select_top_k(&bits(&scores), 3).expect("top k");
    let found = values
        .iter()
        .map(|(score, token)| (f32::from_bits(*score), *token))
        .collect::<Vec<_>>();
    assert_eq!(found, [(7.5, 6), (3.25, 3), (2.0, 4)]);
}

#[test]
fn top_k_rejects_what_cannot_be_selected() {
    assert!(select_top_k(&bits(&[1.0]), 0).is_err());
    assert!(select_top_k(&bits(&[1.0]), 2).is_err());
    assert!(select_top_k(&bits(&[f32::NAN]), 1).is_err());
    assert!(select_top_k(&bits(&[f32::INFINITY]), 1).is_err());
    assert!(select_top_k(&bits(&[f32::NEG_INFINITY, 0.0]), 1).is_err());
    assert!(select_top_k(&bits(&[f32::MAX]), 1).is_ok());
}

#[test]
fn places_order_numbers() {
    let numbers = [f32::NEG_INFINITY, -2.0, -1.0e-40, 0.0, 1.0e-40, 0.5, f32::MAX, f32::INFINITY];
    for pair in numbers.windows(2) {
        assert!(number_place(pair[0].to_bits()) < number_place(pair[1].to_bits()));
    }
    assert_eq!(number_place((-0.0_f32).to_bits()), number_place(0.0_f32.to_bits()));
}

#[test]
fn ranking_is_stable() {
    assert_eq!(stable_descending(&[3, 5, 3, 9, 5]), [3, 1, 4, 0, 2]);
    assert!(stable_descending(&[]).is_empty());
}

#[test]
fn search_keeps_parent_indices_and_normalizes_scores() {
    let mut search = OriginalBeamSearch::new(config()).expect("search");
    let first = search
        .step(
            &merge,
            &normalize,
            &bits(&[-0.1, -0.2, -5.0, -6.0, -7.0, 0.0]),
            &[2],
            20,
        )
        .expect("first");
    assert_eq!(first.token_ids(), [0, 1]);
    let second = search
        .step(
            &merge,
            &normalize,
            &bits(&[
                -0.5, -3.0, -4.0, -5.0, -6.0, 0.0, -0.1, -3.0, -4.0, -5.0,
                -6.0, 0.0,
            ]),
            &[2, 2],
            20,
        )
        .expect("second");
    assert_eq!(second.parent_indices(), [1, 0]);
    let score = f32::from_bits(second.candidates[0].normalized_score);
    assert!((score + 0.15).abs() < 1.0e-6);
    assert_eq!(second.candidates[0].path, [2, 1]);
    assert_eq!(second.lengths(), [2, 2]);
    assert_eq!(search.step_index(), 2);
    assert_eq!(search.active().len() + search.finished().len(), 2);
}

#[test]
fn search_finishes_when_the_budget_is_spent() {
    let mut search = OriginalBeamSearch::new(config()).expect("search");
    assert!(search.best_candidate(false).is_none());
    let scores = bits(&[-0.1, -0.2, -5.0, -6.0, -7.0, 0.0]);
    let result = search.step(&merge, &normalize, &scores, &[2], 2).expect("step");
    assert!(result.done);
    assert!(result.candidates.is_empty());
    assert_eq!(result.retained_finished.len(), 2);
    assert!(search.done());
    assert_eq!(search.best_candidate(true).map(|best| best.token), Some(1));
    assert_eq!(
        search.step(&merge, &normalize, &scores, &[2], 2).err(),
        Some(BeamError::Complete)
    );
    search.reset();
    assert_eq!(search.step_index(), 0);
    assert!(!search.done());
}

#[test]
fn search_notes_the_first_early_end() {
    let mut search = OriginalBeamSearch::new(config()).expect("search");
    let scores = bits(&[-9.0, -0.2, -5.0, -6.0, -0.1, 0.0]);
    let result = search.step(&merge, &normalize, &scores, &[2], 20).expect("step");
    assert_eq!(result.first_eos_step, Some(1));
    assert_eq!(result.retained_finished.len(), 1);
    assert_eq!(result.retained_finished[0].token, config().eos_token());
    assert_eq!(search.best_candidate(true).map(|best| best.token), Some(5));
    assert_eq!(search.best_candidate(false).map(|best| best.token), Some(2));
}

#[test]
fn search_reports_its_errors() {
    let mut wrong = config();
    wrong.beam_width = 0;
    assert_eq!(OriginalBeamSearch::new(wrong).err(), Some(BeamError::Configuration));
    assert!(BeamSearchConfig::default().validate().is_ok());
    let mut search = OriginalBeamSearch::new(config()).expect("search");
    assert_eq!(
        search.step(&merge, &normalize, &bits(&[0.0; 5]), &[2], 20).err(),
        Some(BeamError::Shape)
    );
    assert_eq!(
        search.step(&merge, &normalize, &bits(&[0.0; 6]), &[7], 20).err(),
        Some(BeamError::Flag)
    );
    assert_eq!(search.step_index(), 0);
    let endless = bits(&[0.0, f32::NAN, 0.0, 0.0, 0.0, 0.0]);
    assert_eq!(
        search.step(&merge, &normalize, &endless, &[2], 20).err(),
        Some(BeamError::Selection)
    );
    assert_eq!(search.step_index(), 1);
    assert_eq!(search.active().len(), 1);
}

fn attention_config(max_beams: usize, hidden_size: usize) -> MemoryAttentionConfig {
    MemoryAttentionConfig {
        max_beams,
        sequence_limit: 4,
        hidden_size,
        choose_threshold: 0.1_f32.to_bits(),
        stop_threshold: 0.9_f32.to_bits(),
        beta_threshold: 0.05_f32.to_bits(),
        end_margin: 1,
    }
}

#[test]
fn gathered_new_beam_initializes_alpha_on_next_step() {
    let mut attention = MemoryTryAttention::new(bits(&[0.0]), bits(&[0.0]), attention_config(2, 1))
        .expect("attention");
    attention.status[0].frame_width = 2;
    attention.status[0].end_chunk = 1;
    attention.memories[0].alpha_current[0] = 0.25_f32.to_bits();
    attention.memories[0].alpha_current[1] = 0.75_f32.to_bits();

    attention.gather_beams(&[0, 0]).expect("gather");

    assert_eq!(attention.status[1].frame_width, 0);
    assert_eq!(floats(&attention.memories[1].alpha_working[..2]), [0.25, 0.75]);
}

type Binary = fn(u32, u32) -> u32;
type Ternary = fn(u32, u32, u32) -> u32;
type Arithmetic =
    FrameArithmetic<Binary, Ternary, Ternary, Binary, Binary, Binary, Binary, Binary, Binary>;

fn sigmoid(value: f32) -> f32 {
    1.0 / ((-value).exp() + 1.0)
}

fn arithmetic() -> Arithmetic {
    FrameArithmetic {
        bend: |left, right| (f32::from_bits(left) + f32::from_bits(right)).tanh().to_bits(),
        bend_stop: |one, two, three| {
            (f32::from_bits(one) + f32::from_bits(two) + f32::from_bits(three)).tanh().to_bits()
        },
        take: |sum, left, right| {
            f32::from_bits(left).mul_add(f32::from_bits(right), f32::from_bits(sum)).to_bits()
        },
        plus: |left, right| (f32::from_bits(left) + f32::from_bits(right)).to_bits(),
        mask: |logit, mask| {
            (f32::from_bits(logit) + 1.0e10 * (f32::from_bits(mask) - 1.0)).to_bits()
        },
        weigh: |alpha, logit| (f32::from_bits(alpha) * sigmoid(f32::from_bits(logit))).to_bits(),
        decay: |product, stop| (f32::from_bits(product) * (1.0 - f32::from_bits(stop))).to_bits(),
        hold: |product, alpha| ((1.0 - f32::from_bits(product)) * f32::from_bits(alpha)).to_bits(),
        spend: |alpha, choose| ((1.0 - f32::from_bits(alpha)) * f32::from_bits(choose)).to_bits(),
    }
}

/// The bits of zero, of one, and of the first four numbers.
const ZEROS: [u32; 4] = [0; 4];
const ONES: [u32; 2] = [0x3f80_0000; 2];
const OUTPUT: [u32; 4] = [0x3f80_0000, 0x4000_0000, 0x4040_0000, 0x4080_0000];

fn attention_input() -> MemoryAttentionInput<'static> {
    MemoryAttentionInput {
        conformer_output: &OUTPUT,
        at_h: &ZEROS,
        chunk_at_h: &ZEROS,
        enc_mem_h: &ZEROS,
        conformer_mask: &ONES,
        bank: FrameBank { chunk_count: 1, frame_width: 2, final_flush: true },
        passthrough: &ZEROS[..2],
        query: &ZEROS[..2],
        query_stop: &ZEROS[..2],
        lengths: &[0],
    }
}

#[test]
fn final_flush_returns_context_and_flags() {
    let mut attention =
        MemoryTryAttention::new(bits(&[0.0; 2]), bits(&[0.0; 2]), attention_config(1, 2))
            .expect("attention");
    let result = attention.step(&arithmetic(), &attention_input()).expect("step");
    assert!(result.ready);
    assert_eq!(result.context.len(), 2);
    assert_eq!(result.flags.len(), 1);
    assert_eq!(result.flags, [2]);
    assert_eq!(result.max_end, 2);
    assert_eq!(floats(&result.context), [0.25 + 0.125 * 3.0, 0.5 + 0.125 * 4.0]);
    assert_eq!(attention.status[0].phase, 3);
}

#[test]
fn attention_waits_for_more_frames() {
    let mut attention =
        MemoryTryAttention::new(bits(&[0.0; 2]), bits(&[0.0; 2]), attention_config(1, 2))
            .expect("attention");
    let mut input = attention_input();
    input.bank.final_flush = false;
    let result = attention.step(&arithmetic(), &input).expect("step");
    assert!(!result.ready);
    assert_eq!(result.max_end, -1);
    assert_eq!(attention.status[0].phase, -1);
    attention.reset();
    assert_eq!(attention.status[0].phase, 3);
    assert_eq!(attention.status[0].frame_width, 0);
}

#[test]
fn attention_reports_its_errors() {
    assert_eq!(
        MemoryTryAttention::new(Vec::new(), Vec::new(), attention_config(0, 1)).err(),
        Some(AttentionError::Dimensions)
    );
    assert_eq!(
        MemoryTryAttention::new(Vec::new(), bits(&[0.0]), attention_config(1, 1)).err(),
        Some(AttentionError::Weights)
    );
    let mut attention =
        MemoryTryAttention::new(bits(&[0.0; 2]), bits(&[0.0; 2]), attention_config(1, 2))
            .expect("attention");
    assert_eq!(attention.config().hidden_size, 2);
    assert_eq!(attention.gather_beams(&[1]).err(), Some(AttentionError::Parent));
    let cases: [(fn(&mut MemoryAttentionInput), AttentionError); 12] = [
        (|input| input.bank.chunk_count = usize::MAX, AttentionError::FrameCount),
        (|input| input.bank.chunk_count = 0, AttentionError::EmptyBank),
        (|input| input.bank.chunk_count = 3, AttentionError::SequenceLimit),
        (|input| input.conformer_output = &ZEROS[..3], AttentionError::ConformerOutput),
        (|input| input.at_h = &ZEROS[..3], AttentionError::AttentionHidden),
        (|input| input.chunk_at_h = &ZEROS[..3], AttentionError::ChunkHidden),
        (|input| input.enc_mem_h = &ZEROS[..3], AttentionError::MemoryHidden),
        (|input| input.conformer_mask = &ZEROS[..3], AttentionError::ConformerMask),
        (|input| input.query = &ZEROS[..3], AttentionError::Query),
        (|input| input.query_stop = &ZEROS[..3], AttentionError::StopQuery),
        (|input| input.lengths = &[], AttentionError::ActiveBeams),
        (|input| input.passthrough = &[], AttentionError::Passthrough),
    ];
    for (change, error) in cases {
        let mut input = attention_input();
        change(&mut input);
        assert_eq!(attention.step(&arithmetic(), &input).err(), Some(error));
    }
    attention.status[0].frame_width = 3;
    assert_eq!(
        attention.step(&arithmetic(), &attention_input()).err(),
        Some(AttentionError::FrameWidth)
    );
}

#[test]
fn attention_rejects_a_start_behind_the_known_weights() {
    let mut attention =
        MemoryTryAttention::new(bits(&[0.0; 2]), bits(&[0.0; 2]), attention_config(1, 2))
            .expect("attention");
    attention.memories[0].alpha_working[0] = 0;
    assert_eq!(
        attention.step(&arithmetic(), &attention_input()).err(),
        Some(AttentionError::Range)
    );
}

#[test]
fn each_beam_looks_with_its_own_query() {
    let mut attention =
        MemoryTryAttention::new(bits(&[4.0, 0.0]), bits(&[0.0; 2]), attention_config(2, 2))
            .expect("attention");
    let query = bits(&[0.0, 0.0, -9.0, 0.0]);
    let input = MemoryAttentionInput {
        passthrough: &ZEROS,
        query: &query,
        query_stop: &ZEROS,
        lengths: &[3, 4],
        ..attention_input()
    };
    let result = attention.step(&arithmetic(), &input).expect("step");
    assert!(result.ready);
    assert_eq!(result.lengths, [3, 4]);
    assert_eq!(result.passthrough, ZEROS);
    let context = floats(&result.context);
    assert_eq!(context.len(), 4);
    assert_eq!(context[..2], [0.25 + 0.125 * 3.0, 0.5 + 0.125 * 4.0]);
    assert!(context[2] < 0.1 && context[2] > 0.0);
    assert_eq!(result.flags, [2, 3]);
}
