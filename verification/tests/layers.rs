use edge_esr::attention::BeamMemory;
use edge_esr::frame_weights::{dot_float32, FrameArithmetic, FrameRows};
use edge_esr::kernels::DimensionError;
use edge_esr::layers::{
    add_in_place, add_positional_encoding, blend_values, dequantize_values, embed_pieces,
    label_scores, map_values, mark_features, mark_final_piece, quantize_values, residual_block,
    self_attention, BlockError,
};
use edge_esr::normalization::{
    decoder_layer_norm, decoder_log_softmax, decoder_log_softmax_denominator, decoder_reduce_sum,
    layer_norm_f16, punctuation_softmax, softmax_f16,
};
use half::f16;

fn add(left: f32, right: f32) -> f32 {
    left + right
}

fn bits(values: &[f32]) -> Vec<u32> {
    values.iter().map(|value| value.to_bits()).collect()
}

fn floats(values: &[u32]) -> Vec<f32> {
    values.iter().map(|value| f32::from_bits(*value)).collect()
}

fn label_norm(
    input: &[f32],
    rows: usize,
    width: usize,
    beta: &[f32],
    gamma: &[f32],
    epsilon: f32,
) -> Result<Vec<f32>, DimensionError> {
    decoder_layer_norm(
        &add,
        &|sum: f32, value: f32, mean: f32| sum + (value - mean) * (value - mean),
        &|sum: f32, width: usize| sum / width as f32,
        &|_: f32, deviation: f32, width: usize| 1.0 / (deviation / width as f32 + epsilon).sqrt(),
        &|value: f32, mean: f32, inverse: f32, gamma: f32, beta: f32| {
            beta + gamma * (value - mean) * inverse
        },
        0.0,
        input,
        gamma,
        beta,
        rows,
        width,
    )
}

#[test]
fn layer_norm_applies_beta_then_gamma() {
    let output = label_norm(&[1.0, 3.0], 1, 2, &[10.0, 20.0], &[2.0, 4.0], 0.0).unwrap();
    assert_eq!(output, [8.0, 24.0]);
}

#[test]
fn layer_norm_refuses_other_sizes() {
    assert_eq!(label_norm(&[1.0, 3.0], 1, 2, &[0.0], &[1.0, 1.0], 0.0), Err(DimensionError));
    assert_eq!(label_norm(&[1.0, 3.0], 2, 2, &[0.0; 2], &[1.0; 2], 0.0), Err(DimensionError));
    let rows = label_norm(&[1.0, 3.0, 10.0, 20.0], 2, 2, &[0.0; 2], &[1.0; 2], 0.0);
    assert_eq!(rows, Ok(vec![-1.0, 1.0, -1.0, 1.0]));
}

#[test]
fn laned_layer_norm_brings_rows_to_a_common_mean() {
    let input = [1.0, 3.0, 1.0, 3.0].map(f16::from_f32);
    let scale = [1.0, 1.0, 2.0, 2.0].map(f16::from_f32);
    let bias = [0.0, 0.5, 0.0, 0.5].map(f16::from_f32);
    let norm = |input: &[f16], rows: usize, width: usize| {
        layer_norm_f16(
            &|sum: f32, value: f16| sum + value.to_f32(),
            &|sum: f32, value: f16| sum + value.to_f32() * value.to_f32(),
            &add,
            &|sum: f32, width: usize| sum / width as f32,
            &|mean: f32, squares: f32, width: usize| {
                1.0 / (squares / width as f32 - mean * mean).sqrt()
            },
            &|value: f16, mean: f32, inverse: f32, scale: f16, bias: f16| {
                f16::from_f32(
                    (value.to_f32() - mean) * (scale.to_f32() * inverse) + bias.to_f32(),
                )
            },
            0.0,
            input,
            &scale[..width],
            &bias[..width],
            rows,
            width,
        )
    };
    let expected = [-1.0, 1.5, -2.0, 2.5].map(f16::from_f32);
    assert_eq!(norm(&input, 1, 4), Ok(expected.to_vec()));
    assert_eq!(norm(&input, 2, 2), Err(DimensionError));
    assert_eq!(norm(&input, 2, 4), Err(DimensionError));
}

#[test]
fn softmax_rows_sum_to_one() {
    let soft = |input: &[f32], rows: usize, columns: usize| {
        punctuation_softmax(
            &f32::max,
            &|value: f32, maximum: f32| (value - maximum).exp2(),
            &add,
            &|term: f32, sum: f32| term / sum,
            f32::NEG_INFINITY,
            0.0,
            input,
            rows,
            columns,
        )
    };
    assert_eq!(soft(&[3.0, 3.0, 5.0, 5.0], 2, 2), Ok(vec![0.5; 4]));
    assert_eq!(soft(&[1.0, 0.0, 0.0], 1, 3), Ok(vec![0.5, 0.25, 0.25]));
    assert_eq!(soft(&[1.0, 0.0, 0.0], 1, 2), Err(DimensionError));
    assert_eq!(soft(&[], 3, 0), Err(DimensionError));
    let halves = softmax_f16(
        &|maximum: f32, value: f16| maximum.max(value.to_f32()),
        &|value: f16, maximum: f32| (value.to_f32() - maximum).exp2(),
        &add,
        &|term: f32, sum: f32| f16::from_f32(term * (1.0 / sum)),
        f32::NEG_INFINITY,
        0.0,
        &[1.0, 1.0, 0.0, -1.0].map(f16::from_f32),
        2,
        2,
    );
    let expected = [0.5, 0.5, 2.0 / 3.0, 1.0 / 3.0].map(f16::from_f32);
    assert_eq!(halves, Ok(expected.to_vec()));
}

#[test]
fn log_softmax_takes_lanes_before_the_rest() {
    let take = |sum: f32, value: f32, maximum: f32| sum * 2.0 + (value - maximum);
    let rest = |sum: f32, value: f32, _: f32| sum * 10.0 + value;
    let values = [1.0, 2.0, 3.0, 4.0, 5.0, 6.0, 7.0, 8.0, 9.0];
    // The lanes are 2 * (v - 1) + (w - 1): 4, 7, 10 and 13; the ninth value comes last.
    let denominator = decoder_log_softmax_denominator(&take, &rest, &add, 0.0, &values, 1.0);
    assert_eq!(denominator, (4.0 + 7.0 + 10.0 + 13.0) * 10.0 + 9.0);
    let logs = decoder_log_softmax(
        &f32::max,
        &|sum: f32, value: f32, maximum: f32| sum + (value - maximum).exp(),
        &|sum: f32, value: f32, maximum: f32| sum + (value - maximum).exp(),
        &add,
        &|maximum: f32, denominator: f32| maximum + denominator.ln(),
        &|value: f32, normalizer: f32| value - normalizer,
        f32::NEG_INFINITY,
        0.0,
        &[2.0, 2.0],
        1,
        2,
    )
    .unwrap();
    assert_eq!(logs, [2.0 - (2.0 + 2.0_f32.ln()); 2]);
}

#[test]
fn rows_are_added_up() {
    let sum = |input: &[f32], rows: usize, width: usize| {
        decoder_reduce_sum(&add, 0.0, input, rows, width)
    };
    assert_eq!(sum(&[1.0, 2.0, 3.0, 4.0, 5.0, 6.0], 2, 3), Ok(vec![6.0, 15.0]));
    assert_eq!(sum(&[], 2, 0), Ok(vec![0.0, 0.0]));
    assert_eq!(sum(&[1.0], 2, 1), Err(DimensionError));
}

#[test]
fn attention_weighs_the_values_of_each_head() {
    let attend = |joint: &[f32], rows: usize, heads: usize, width: usize| {
        self_attention(
            &|sum: f32, left: f32, right: f32| sum + left * right,
            &|query: f32| query * 2.0,
            &|score: f32| score * 0.5,
            &f32::max,
            &|value: f32, maximum: f32| (value - maximum).exp2(),
            &add,
            &|term: f32, sum: f32| term / sum,
            f32::NEG_INFINITY,
            0.0,
            joint,
            rows,
            heads,
            width,
        )
    };
    // Rows of queries, keys and values of two heads. The first head looks evenly; the second one
    // scores the first key by one and the second one by zero.
    let joint = [
        0.0, 1.0, 5.0, 1.0, 10.0, 30.0, //
        0.0, 1.0, 6.0, 0.0, 20.0, 60.0,
    ];
    assert_eq!(attend(&joint, 2, 2, 1), Ok(vec![15.0, 40.0, 15.0, 40.0]));
    assert_eq!(attend(&joint, 1, 2, 1), Err(DimensionError));
    assert_eq!(attend(&[], 0, 2, 1), Err(DimensionError));
}

#[test]
fn blocks_add_their_input_before_they_normalise() {
    let run = |stage: Result<Vec<i32>, &'static str>, norm: Option<&'static str>| {
        residual_block(
            &|_: &Vec<i32>| stage.clone(),
            &|left: i32, right: i32| left + right,
            &|sum: &Vec<i32>| match norm {
                Some(error) => Err(error),
                None => Ok(sum.iter().map(|value| value * 100).collect()),
            },
            vec![1, 2],
        )
    };
    assert_eq!(run(Ok(vec![10, 20]), None).unwrap(), [1100, 2200]);
    assert!(matches!(run(Ok(vec![10]), None), Err(BlockError::Length)));
    assert!(matches!(run(Err("stage"), None), Err(BlockError::Part("stage"))));
    assert!(matches!(run(Ok(vec![1, 1]), Some("norm")), Err(BlockError::Part("norm"))));
    let mut values = vec![1, 2];
    assert_eq!(add_in_place(&|a: i32, b: i32| a + b, &mut values, &[5]), Err(DimensionError));
    assert_eq!(values, [1, 2]);
    assert_eq!(add_in_place(&|a: i32, b: i32| a + b, &mut values, &[5, 6]), Ok(()));
    assert_eq!(values, [6, 8]);
}

#[test]
fn quantized_values_take_the_scale_of_their_place() {
    let quantize = |value: i32, scale: Option<i32>| value / scale.unwrap_or(1);
    assert_eq!(quantize_values(&quantize, &[8, 9, 10], &[2, 3]), [4, 3, 5]);
    assert_eq!(quantize_values(&quantize, &[8, 9], &[]), [8, 9]);
    let dequantize = |sum: i32, scale: Option<i32>, bias: Option<i32>| {
        sum * scale.unwrap_or(1) + bias.unwrap_or(0)
    };
    assert_eq!(dequantize_values(&dequantize, &[1, 2, 3, 4], 2, &[10], &[5, 7]), [15, 27, 35, 47]);
    assert_eq!(dequantize_values(&dequantize, &[1, 2], 2, &[], &[]), [1, 2]);
    assert_eq!(map_values(&|value: i32| value.max(0), &[-1, 2]), [0, 2]);
}

#[test]
fn label_values_are_blended_by_their_gates() {
    let blend = |hidden: i32, label: i32, gate: i32| hidden * gate + label * (1 - gate);
    assert_eq!(blend_values(&blend, &[1, 2], &[10, 20], &[1, 0]), Ok(vec![1, 20]));
    assert_eq!(blend_values(&blend, &[1, 2], &[10, 20], &[1]), Err(DimensionError));
    let take = |sum: i32, value: i32, offset: i32, weight: i32| sum + (value + offset) * weight;
    let plus = |sum: i32, scalar: i32| sum + scalar;
    let scores = label_scores(&take, &plus, 0, &[1, 2], &[0, 0, 10, 20], &[1, 100], 5, 1, 2);
    assert_eq!(scores, Ok(vec![206, 2216]));
    let scores = label_scores(&take, &plus, 0, &[1, 2], &[0, 0, 10], &[1, 100], 5, 1, 2);
    assert_eq!(scores, Err(DimensionError));
}

#[test]
fn embeddings_hold_features_and_positions() {
    let mark = |value: i32, feature: bool| value + if feature { 100 } else { 0 };
    let marked = mark_features(&mark, &[1, 2, 3, 4, 5, 6], &[true, false, false, true], 2, 3);
    assert_eq!(marked, Ok(vec![1, 102, 3, 4, 5, 106]));
    assert_eq!(mark_features(&mark, &[1, 2, 3], &[true], 1, 3), Err(DimensionError));
    let sine = |value: i32, row: usize, index: usize| value + 10 * row as i32 + index as i32;
    let cosine = |value: i32, row: usize, index: usize| value - 10 * row as i32 - index as i32;
    let placed = add_positional_encoding(&sine, &cosine, &[0; 10], 2, 5);
    assert_eq!(placed, Ok(vec![0, 1, 0, -1, 0, 10, 11, -10, -11, 0]));
    assert_eq!(add_positional_encoding(&sine, &cosine, &[0; 3], 2, 2), Err(DimensionError));
    let join = |word: i32, kind: i32, position: i32| word + (kind + position);
    let embedded = embed_pieces(&join, &[1, 2, 3, 4], &[10, 0, 20], &[100, 200, 300, 400, 9], 2, 2);
    assert_eq!(embedded, Ok(vec![111, 222, 313, 424]));
    assert_eq!(embed_pieces(&join, &[1, 2], &[10], &[100, 200], 1, 2), Err(DimensionError));
    assert_eq!(mark_final_piece(&[1; 6], 0, 9, 3, 2, true), Ok(vec![1, 0, 1, 9, 1, 0]));
    assert_eq!(mark_final_piece(&[1; 6], 0, 9, 3, 2, false), Ok(vec![1, 0, 1, 0, 1, 0]));
    assert_eq!(mark_final_piece(&[1; 6], 0, 9, 2, 2, false), Err(DimensionError));
}

#[test]
fn products_are_made_in_four_lanes() {
    let take = |sum: u32, value: u32, weight: u32| sum * 10 + value * weight;
    let plus = |left: u32, right: u32| left * 1_000 + right;
    let values = [1, 2, 3, 4, 5, 6];
    assert_eq!(dot_float32(&take, &plus, &values, &[1; 6]), 33_015);
    assert_eq!(dot_float32(&take, &plus, &[7], &[1]), 7);
}

#[test]
fn frames_are_weighed_one_after_the_other() {
    let float = |value: u32| f32::from_bits(value);
    let arithmetic = FrameArithmetic {
        bend: |left: u32, right: u32| (float(left) + float(right)).to_bits(),
        bend_stop: |one: u32, two: u32, three: u32| {
            (float(one) + float(two) + float(three)).to_bits()
        },
        take: |sum: u32, left: u32, right: u32| {
            (float(left) * float(right) + float(sum)).to_bits()
        },
        plus: |left: u32, right: u32| (float(left) + float(right)).to_bits(),
        mask: |logit: u32, mask: u32| (float(logit) * float(mask)).to_bits(),
        weigh: |alpha: u32, logit: u32| (float(alpha) * float(logit)).to_bits(),
        decay: |product: u32, stop: u32| (float(product) * (1.0 - float(stop))).to_bits(),
        hold: |product: u32, alpha: u32| ((1.0 - float(product)) * float(alpha)).to_bits(),
        spend: |alpha: u32, choose: u32| ((1.0 - float(alpha)) * float(choose)).to_bits(),
    };
    let memory = BeamMemory {
        alpha_current: bits(&[9.0, 1.0, 0.5]),
        alpha_working: bits(&[0.0; 3]),
        beta: bits(&[0.5, 0.25, 0.125]),
        choose_prefix: bits(&[0.25]),
        stop_product: 1.0_f32.to_bits(),
    };
    let (at_h, chunk_at_h) = (bits(&[0.0, 1.0, 2.0]), bits(&[0.0, 0.125, 0.0]));
    let (enc_mem_h, mask) = (bits(&[0.0, 0.5, 1.0]), bits(&[1.0, 1.0, 0.5]));
    let (query, query_stop) = (bits(&[1.0]), bits(&[0.125]));
    let (weight_at_v, weight_at_v_stop) = (bits(&[0.5]), bits(&[1.0]));
    let rows = FrameRows {
        at_h: &at_h,
        chunk_at_h: &chunk_at_h,
        enc_mem_h: &enc_mem_h,
        conformer_mask: &mask,
        query: &query,
        query_stop: &query_stop,
        weight_at_v: &weight_at_v,
        weight_at_v_stop: &weight_at_v_stop,
    };
    // First frame: choose (1 + 1) / 2 = 1, stop 0.25 + 0.125 + 0.125 = 0.5.
    // Second frame: choose 0.5 * (2 + 1) / 2 * 0.5 = 0.375, stop 0.5 * (0.75 + 0.125) = 0.4375.
    let values = arithmetic.weigh_frames(&rows, &memory, 1, 3);
    assert_eq!(floats(&values.alpha), [0.5, (1.0 - 0.28125) * 0.5]);
    assert_eq!(floats(&values.beta), [0.5, (1.0 - 0.359375) * 0.375]);
    assert_eq!(floats(&values.choose_prefix), [0.25 + 0.5 + 0.375]);
    assert_eq!(f32::from_bits(values.stop_product), 0.28125);

    let output = bits(&[1.0, 10.0, 2.0, 20.0, 4.0, 40.0]);
    let context = arithmetic.gather_context(&output, &memory, 1, 3, 3, 2);
    assert_eq!(floats(&context.context), [1.0, 10.0]);
    assert_eq!(f32::from_bits(context.beta_sum), 0.375);
    let nothing = arithmetic.gather_context(&output, &memory, 3, 3, 3, 2);
    assert_eq!(floats(&nothing.context), [0.0, 0.0]);
}
