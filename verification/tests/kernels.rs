use edge_esr::broadcast::{broadcast_binary, BroadcastError};
use edge_esr::convolution::{depthwise_conv, standard_conv, Conv2dParams};
use edge_esr::decoder_gemm::{
    decoder_active_rows, decoder_gemm, decoder_gemm_column_block, decoder_gemm_element,
    decoder_gemm_into, decoder_gemm_params, pack_decoder_gemm_left, pack_decoder_gemm_left_into,
    set_decoder_active_rows, unpack_decoder_gemm_left, DecoderActiveRows, GemmError,
};
use edge_esr::heads::{broadcast_place, join_rows, lookup_rows, merge_heads, split_heads};
use edge_esr::kernels::{gemm_f16, punctuation_context, punctuation_qk};
use edge_esr::layout::{batched_matmul, matmul_layout, MatMulError};
use edge_esr::matmul::{decoder_matmul, matmul_f16};
use edge_esr::numerics;
use edge_esr::operands::{
    conv_params, keeps_dimensions, matrix_row_sizes, matrix_sizes, row_sizes, sum_sizes,
    OperandError,
};
use edge_esr::patches::{cblas_dimension, check_conv, input_patches, output_planes};
use edge_esr::quantized::{punctuation_quantized_linear, quantized_linear, QuantizedError};
use edge_esr::states::{fixed_shape, gather_rows, row_width, StateError};
use edge_esr::tensor::{Tensor, TensorError};
use half::f16;

fn rounded_add(left: f16, right: f16) -> f16 {
    f16::from_f32(left.to_f32() + right.to_f32())
}

fn rounded_mul(left: f16, right: f16) -> f16 {
    f16::from_f32(left.to_f32() * right.to_f32())
}

fn take(sum: f16, left: f16, right: f16) -> f16 {
    rounded_add(rounded_mul(left, right), sum)
}

fn spill(sum: f32, part: f16) -> f32 {
    sum + part.to_f32()
}

fn fuse(sum: f16, left: f16, right: f16) -> f16 {
    f16::from_f32(left.to_f32().mul_add(right.to_f32(), sum.to_f32()))
}

fn halves(values: &[f32]) -> Vec<f16> {
    values.iter().map(|value| f16::from_f32(*value)).collect()
}

fn integers(sum: i64, left: i64, right: i64) -> i64 {
    sum + left * right
}

#[test]
fn original_add_supports_multidimensional_broadcast_with_half_rounding() {
    let left = halves(&[1.0, 2.0, 3.0, 4.0, 5.0, 6.0]);
    let right = halves(&[0.5, -0.5]);
    let (shape, output) =
        broadcast_binary(&[2, 1, 3], &left, &[1, 2, 1], &right, &rounded_add).unwrap();
    assert_eq!(shape, [2, 2, 3]);
    assert_eq!(
        output,
        halves(&[1.5, 2.5, 3.5, 0.5, 1.5, 2.5, 4.5, 5.5, 6.5, 3.5, 4.5, 5.5])
    );
}

#[test]
fn broadcasting_pads_the_shorter_shape() {
    let (shape, output) =
        broadcast_binary(&[2, 3], &[1, 2, 3, 4, 5, 6], &[3], &[10, 20, 30], &|a, b| a + b).unwrap();
    assert_eq!(shape, [2, 3]);
    assert_eq!(output, [11, 22, 33, 14, 25, 36]);
}

#[test]
fn broadcasting_reports_its_errors() {
    let add = |left: i32, right: i32| left + right;
    assert_eq!(
        broadcast_binary(&[2], &[1], &[1], &[1], &add),
        Err(BroadcastError::Length)
    );
    assert_eq!(
        broadcast_binary(&[2], &[1, 2], &[3], &[1, 2, 3], &add),
        Err(BroadcastError::Incompatible)
    );
    assert_eq!(
        broadcast_binary(&[usize::MAX, 2], &[1], &[1], &[1], &add),
        Err(BroadcastError::ElementOverflow)
    );
    assert_eq!(
        broadcast_binary(&[0, usize::MAX, 2], &[], &[1], &[1], &add),
        Err(BroadcastError::StrideOverflow)
    );
}

#[test]
fn matmul_rejects_shape_mismatches() {
    let left = [f16::ONE; 3];
    let right = [f16::ONE; 4];
    let round = |sum: f32| f16::from_f32(sum);
    assert!(matmul_f16(&take, &spill, &round, f16::ZERO, 0.0, &left, &right, 2, 2, 2).is_err());
}

#[test]
fn matmul_sums_in_blocks_of_eight() {
    let left = (1..=16).collect::<Vec<i64>>();
    let right = (1..=32).collect::<Vec<i64>>();
    let mut expected = vec![0_i64; 2];
    for column in 0..2 {
        for index in 0..16 {
            expected[column] += left[index] * right[index * 2 + column];
        }
    }
    let output = matmul_f16(
        &integers,
        &|sum: i64, part: i64| sum + part,
        &|sum: i64| sum,
        0,
        0,
        &left,
        &right,
        1,
        16,
        2,
    )
    .unwrap();
    assert_eq!(output, expected);
    let blocks = matmul_f16(
        &|_: i64, left: i64, _: i64| left,
        &|sum: i64, part: i64| sum * 100 + part,
        &|sum: i64| sum,
        0,
        0,
        &left,
        &right,
        1,
        16,
        2,
    )
    .unwrap();
    assert_eq!(blocks, [816, 816]);
}

#[test]
fn decoder_matmul_keeps_vendor_column_reduction_order() {
    let left = [1.0_f32, 2.0, 3.0, 4.0, 5.0];
    let right = [
        0.5_f32, 1.0, -0.5,
        1.5, 2.0, -1.5,
        2.5, 3.0, -2.5,
        3.5, 4.0, -3.5,
        4.5, 5.0, -4.5,
    ];
    let output = decoder_matmul(
        &|sum: f32, left: f32, right: f32| left.mul_add(right, sum),
        &|left: f32, right: f32| left + right,
        &|sum: f32, left: f32, right: f32| sum + left * right,
        0.0,
        &left,
        &right,
        1,
        5,
        3,
    )
    .unwrap();
    assert_eq!(output, [47.5, 55.0, -47.5]);
    let rejected = decoder_matmul(
        &|sum: f32, left: f32, right: f32| left.mul_add(right, sum),
        &|left: f32, right: f32| left + right,
        &|sum: f32, left: f32, right: f32| sum + left * right,
        0.0,
        &left,
        &right,
        2,
        5,
        3,
    );
    assert!(rejected.is_err());
}

fn unit_params() -> Conv2dParams {
    Conv2dParams {
        batch: 1,
        input_channels: 8,
        input_height: 1,
        input_width: 1,
        output_channels: 1,
        kernel_height: 1,
        kernel_width: 1,
        stride_height: 1,
        stride_width: 1,
    }
}

#[test]
fn convolution_accumulates_channel_groups_before_bias() {
    let input = [f16::ONE; 8];
    let weights = [f16::from_f32(0.5); 8];
    let bias = [f16::from_f32(0.25)];
    let output = standard_conv(
        &take,
        &spill,
        &|sum: f32| f16::from_f32(sum),
        &rounded_add,
        f16::ZERO,
        0.0,
        &input,
        &weights,
        &bias,
        unit_params(),
    )
    .unwrap();
    assert_eq!(output, [f16::from_f32(4.25)]);
}

#[test]
fn convolution_adds_the_last_channel_of_a_group_first() {
    let input = [1_i64, 2, 3, 4, 5, 6, 7, 8];
    let weights = [1_i64; 8];
    let output = standard_conv(
        &integers,
        &|sum: i64, part: i64| sum * 10 + part,
        &|sum: i64| sum,
        &|left: i64, right: i64| left + right,
        0,
        0,
        &input,
        &weights,
        &[0],
        unit_params(),
    )
    .unwrap();
    assert_eq!(output, [87_654_321]);
}

#[test]
fn convolution_moves_by_its_strides() {
    let params = Conv2dParams {
        batch: 1,
        input_channels: 1,
        input_height: 3,
        input_width: 4,
        output_channels: 1,
        kernel_height: 1,
        kernel_width: 2,
        stride_height: 2,
        stride_width: 2,
    };
    let input = (0..12).collect::<Vec<i64>>();
    let output = standard_conv(
        &integers,
        &|sum: i64, part: i64| sum + part,
        &|sum: i64| sum,
        &|left: i64, right: i64| left + right,
        0,
        0,
        &input,
        &[1, 10],
        &[1000],
        params,
    )
    .unwrap();
    assert_eq!(output, [1010, 1032, 1098, 1120]);
    let patches = input_patches(&input, params);
    assert_eq!(patches, [0, 1, 2, 3, 8, 9, 10, 11]);
    let product = [10_i64, 32, 98, 120];
    let planes = output_planes(&|value: i64, bias: i64| value + bias, &product, &[1000], params);
    assert_eq!(planes, output);
    let mut none = params;
    none.stride_width = 0;
    assert!(standard_conv(
        &integers,
        &|sum: i64, part: i64| sum + part,
        &|sum: i64| sum,
        &|left: i64, right: i64| left + right,
        0,
        0,
        &input,
        &[1, 10],
        &[1000],
        none,
    )
    .is_err());
}

#[test]
fn matrix_dimensions_are_limited() {
    assert_eq!(cblas_dimension(7), Ok(7));
    assert!(cblas_dimension(i32::MAX as usize + 1).is_err());
}

#[test]
fn depthwise_convolution_keeps_channels_apart() {
    let input = [1_i64, 2, 3, 4, 10, 20, 30, 40];
    let weights = [1_i64, 2, 3, 4];
    let output =
        depthwise_conv(&integers, &input, &weights, &[100, 200], 1, 2, 2, 2, 1, 2).unwrap();
    assert_eq!(output, [100 + 1 + 4, 100 + 3 + 8, 200 + 30 + 80, 200 + 90 + 160]);
    assert!(depthwise_conv(&integers, &input, &weights, &[100], 1, 2, 2, 2, 1, 2).is_err());
}

#[test]
fn decoder_active_rows_rejects_invalid_values() {
    let mut state = DecoderActiveRows::new();
    set_decoder_active_rows(&mut state, 3).unwrap();
    assert_eq!(decoder_active_rows(&state), 3);
    assert!(set_decoder_active_rows(&mut state, 0).is_err());
    assert!(set_decoder_active_rows(&mut state, -1).is_err());
    set_decoder_active_rows(&mut state, 1).unwrap();
}

#[test]
fn decoder_product_pairs_the_sums_of_one_row() {
    let mut state = DecoderActiveRows::new();
    let left = [1_i64, 2, 3, 4];
    let right = [10_i64, 20, 30, 40];
    let join = |left: i64, right: i64| left * 1_000_000 + right;
    let output =
        decoder_gemm(&state, &integers, &join, 0, &left, &right, &[5], 1, 4, 1).unwrap();
    assert_eq!(output, [(5 + 10 + 90) * 1_000_000 + 40 + 160]);
    assert_eq!(
        decoder_gemm(&state, &integers, &join, 0, &left[..2], &right[..2], &[5], 1, 2, 1),
        Err(GemmError::Pairing)
    );
    assert_eq!(
        decoder_gemm(&state, &integers, &join, 0, &left, &right, &[], 1, 4, 1),
        Err(GemmError::Dimensions)
    );
    set_decoder_active_rows(&mut state, 2).unwrap();
    assert_eq!(
        decoder_gemm(&state, &integers, &join, 0, &left, &right, &[5], 1, 4, 1),
        Err(GemmError::TooManyActiveRows)
    );
    let output =
        decoder_gemm(&state, &integers, &join, 0, &left, &right[..2], &[5], 2, 2, 1).unwrap();
    assert_eq!(output, [5 + 10 + 40, 5 + 30 + 80]);
}

#[test]
fn decoder_product_in_blocks_is_the_same() {
    let mut state = DecoderActiveRows::new();
    set_decoder_active_rows(&mut state, 8).unwrap();
    let left = (0..24).map(|value| f16::from_f32(value as f32 * 0.25)).collect::<Vec<_>>();
    let right = (0..18).map(|value| f16::from_f32(value as f32 * 0.5 - 2.0)).collect::<Vec<_>>();
    let bias = halves(&[0.5, -0.5, 1.0, 2.0, -1.0, 0.0]);
    let params = decoder_gemm_params(&state, &left, &right, &bias, 8, 3, 6).unwrap();
    assert_eq!((params.rows(), params.inner(), params.columns()), (8, 3, 6));
    assert_eq!(params.output_len(), 48);
    assert_eq!(params.column_blocks(), 2);
    assert!(params.uses_packed_neon(true));
    assert!(!params.uses_packed_neon(false));
    let mut plain = vec![f16::ZERO; 48];
    let mut packed = vec![f16::ZERO; 48];
    decoder_gemm_into(
        &state, false, &fuse, &rounded_add, f16::ZERO, &left, &right, &bias, 8, 3, 6, &mut plain,
    )
    .unwrap();
    decoder_gemm_into(
        &state, true, &fuse, &rounded_add, f16::ZERO, &left, &right, &bias, 8, 3, 6, &mut packed,
    )
    .unwrap();
    assert_eq!(plain, packed);
    let whole = decoder_gemm(
        &state, &fuse, &rounded_add, f16::ZERO, &left, &right, &bias, 8, 3, 6,
    )
    .unwrap();
    assert_eq!(plain, whole);
    assert_eq!(
        decoder_gemm_element(&fuse, &rounded_add, f16::ZERO, &left, &right, &bias, params, 13),
        whole[13]
    );
    let rows = pack_decoder_gemm_left(&left, params);
    assert_eq!(rows[1], left[3]);
    assert_eq!(unpack_decoder_gemm_left(&rows, params), left);
    let mut again = Vec::new();
    pack_decoder_gemm_left_into(&left, params, &mut again);
    assert_eq!(again, rows);
    let block = decoder_gemm_column_block(
        &fuse, &rounded_add, f16::ZERO, &rows, &right, &bias, params, 1,
    );
    assert_eq!(block.columns(), 2);
    assert_eq!(block.value(1, 2), whole[2 * 6 + 5]);
    assert_eq!(block.value(3, 2), f16::ZERO);
    let mut short = vec![f16::ZERO; 47];
    assert_eq!(
        decoder_gemm_into(
            &state, true, &fuse, &rounded_add, f16::ZERO, &left, &right, &bias, 8, 3, 6, &mut short,
        ),
        Err(GemmError::Output)
    );
}

#[test]
fn decoder_product_reports_sizes_that_do_not_fit() {
    let state = DecoderActiveRows::new();
    let none: [i64; 0] = [];
    let params = |rows, inner, columns| {
        decoder_gemm_params(&state, &none, &none, &none, rows, inner, columns).err()
    };
    assert_eq!(params(usize::MAX, 2, 1), Some(GemmError::LeftOverflow));
    assert_eq!(params(1, 2, usize::MAX), Some(GemmError::RightOverflow));
    assert_eq!(params(usize::MAX, 1, 2), Some(GemmError::OutputOverflow));
    assert_eq!(params(0, 1, 1), Some(GemmError::Dimensions));
}

#[test]
fn product_with_a_transposed_matrix_rounds_once() {
    let left = halves(&[1.0, 2.0, 3.0, 4.0]);
    let right = halves(&[0.5, 0.25, -1.0, 2.0]);
    let bias = halves(&[10.0, 20.0]);
    let widen = |value: f16| value.to_f32();
    let wide = |sum: f32, left: f16, right: f16| left.to_f32().mul_add(right.to_f32(), sum);
    let round = |sum: f32| f16::from_f32(sum);
    let output = gemm_f16(&widen, &wide, &round, &left, &right, &bias, 2, 2, 2).unwrap();
    assert_eq!(output, halves(&[11.0, 23.0, 12.5, 25.0]));
    assert!(gemm_f16(&widen, &wide, &round, &left, &right, &bias, 2, 2, 1).is_err());
}

#[test]
fn attention_products_stay_in_their_batch() {
    let query = [1_i64, 2, 3, 4];
    let key = [5_i64, 6, 7, 8];
    let scores = punctuation_qk(&integers, 0, &query, &key, 2, 2, 1).unwrap();
    assert_eq!(scores, [5, 6, 10, 12, 21, 24, 28, 32]);
    assert!(punctuation_qk(&integers, 0, &query, &key, 2, 1, 1).is_err());
    let context =
        punctuation_context(&integers, 0, &[1, 2, 3, 4], &[1, 10, 100, 1000], 2, 1, 2, 1).unwrap();
    assert_eq!(context, [21, 4300]);
    assert!(punctuation_context(&integers, 0, &[1], &[1], 1, 1, 2, 1).is_err());
}

#[test]
fn stacks_of_matrices_broadcast() {
    let product = |left: &[i64], right: &[i64], rows: usize, inner: usize, columns: usize| {
        let mut output = vec![0; rows * columns];
        for row in 0..rows {
            for column in 0..columns {
                for index in 0..inner {
                    output[row * columns + column] +=
                        left[row * inner + index] * right[index * columns + column];
                }
            }
        }
        Some(output)
    };
    let left = [1_i64, 2, 3, 4];
    let right = [10_i64, 20];
    let (shape, values) = batched_matmul(&product, &[2, 1, 2], &left, &[2, 1], &right).unwrap();
    assert_eq!(shape, [2, 1, 1]);
    assert_eq!(values, [50, 110]);
    let refuse = |_: &[i64], _: &[i64], _: usize, _: usize, _: usize| None;
    assert_eq!(
        batched_matmul(&refuse, &[2, 1, 2], &left, &[2, 1], &right),
        Err(MatMulError::Product)
    );
    let layout = matmul_layout(&[3, 1, 2, 4], &[5, 4, 6]).unwrap();
    assert_eq!(layout.output_shape, [3, 5, 2, 6]);
    assert_eq!(layout.batch_shape, [3, 5]);
    assert_eq!(matmul_layout(&[4], &[4, 1]).err(), Some(MatMulError::Rank));
    assert_eq!(matmul_layout(&[1, 4], &[3, 1]).err(), Some(MatMulError::Matrix));
    assert_eq!(matmul_layout(&[2, 1, 1], &[3, 1, 1]).err(), Some(MatMulError::Batch));
    let none: [i64; 0] = [];
    assert_eq!(
        batched_matmul(&product, &[0, 1, 1], &none, &[0, 1, 1], &none),
        Err(MatMulError::BatchCount)
    );
    assert_eq!(
        batched_matmul(&product, &[0, 1, 1], &none, &[1, 1], &[1]),
        Err(MatMulError::LeftBounds)
    );
    assert_eq!(
        batched_matmul(&product, &[1, 1], &[1], &[0, 1, 1], &none),
        Err(MatMulError::RightBounds)
    );
}

#[test]
fn quantized_layers_sum_exactly() {
    let output =
        punctuation_quantized_linear(&[1, -2, 3, 4], &[5, 6, -128, 127], 2, 2, 2).unwrap();
    assert_eq!(output, [-7, -382, 39, 124]);
    assert_eq!(
        punctuation_quantized_linear(&[1], &[1], 2, 1, 1),
        Err(QuantizedError::Dimensions)
    );
    let extreme = [i16::MIN; 2];
    assert_eq!(
        quantized_linear(&extreme, &extreme, 1, 1, 2),
        Err(QuantizedError::Overflow)
    );
    assert_eq!(quantized_linear(&extreme[..1], &extreme[..1], 1, 1, 1), Ok(vec![1 << 30]));
}

#[test]
fn heads_split_and_merge() {
    let joint = (0..24).collect::<Vec<i32>>();
    let keys = split_heads(&joint, 2, 1, 2, 2);
    assert_eq!(keys, [4, 5, 16, 17, 6, 7, 18, 19]);
    assert_eq!(merge_heads(&keys, 2, 2, 2), [4, 5, 6, 7, 16, 17, 18, 19]);
}

#[test]
fn rows_are_joined_and_looked_up() {
    assert_eq!(join_rows(&[1, 2, 3, 4], &[5, 6, 7, 8], 2, 2), [1, 2, 5, 6, 3, 4, 7, 8]);
    assert_eq!(lookup_rows(&[1, 2, 3, 4, 5, 6], &[2, 0], 2), Some(vec![5, 6, 1, 2]));
    assert_eq!(lookup_rows(&[1, 2, 3, 4], &[2], 2), None);
    assert_eq!(broadcast_place(0, 5), None);
    assert_eq!(broadcast_place(1, 5), Some(0));
    assert_eq!(broadcast_place(4, 5), Some(1));
}

#[test]
fn recurrent_state_gathers_parent_rows_and_clears_inactive_rows() {
    let shape = [4, 2];
    let data = [0.0_f32, 1.0, 10.0, 11.0, 20.0, 21.0, 30.0, 31.0];
    let gathered = gather_rows(&shape, &data, 0.0, &[2, 0], 4).unwrap();
    assert_eq!(gathered, [20.0, 21.0, 0.0, 1.0, 0.0, 0.0, 0.0, 0.0]);
}

#[test]
fn recurrent_state_rejects_parent_outside_batch() {
    let data = [f16::ZERO; 2];
    assert!(gather_rows(&[2, 1], &data, f16::ZERO, &[2], 2).is_err());
}

#[test]
fn recurrent_states_report_their_errors() {
    assert_eq!(gather_rows(&[3], &[1, 2], 0, &[0], 2), Err(StateError::Shape));
    assert_eq!(gather_rows(&[2], &[1, 2], 0, &[2], 2), Err(StateError::Parent));
    assert_eq!(row_width(&[2, 3], 6, 2), Ok(3));
    assert_eq!(row_width(&[2], 5, 2), Err(StateError::Shape));
    assert_eq!(fixed_shape(&[1, 68, 80]), Ok(vec![1, 68, 80]));
    assert_eq!(fixed_shape(&[1, -1]), Err(StateError::Dimension));
}

#[test]
fn tensors_hold_what_their_shape_says() {
    let mut tensor = Tensor::from_vec(vec![2, 3], vec![1, 2, 3, 4, 5, 6]).unwrap();
    assert_eq!(tensor.shape(), [2, 3]);
    tensor.data_mut()[4] = 50;
    assert_eq!(tensor.data(), [1, 2, 3, 4, 50, 6]);
    assert_eq!(tensor.into_parts(), (vec![2, 3], vec![1, 2, 3, 4, 50, 6]));
    assert_eq!(Tensor::from_vec(vec![2], vec![1]).err(), Some(TensorError::Length));
    assert_eq!(
        Tensor::from_vec(vec![usize::MAX, 2, 0], Vec::<u8>::new()).err(),
        Some(TensorError::Length)
    );
    assert_eq!(Tensor::filled(vec![2, 2], 'x').unwrap().data(), ['x'; 4]);
    assert_eq!(Tensor::filled(Vec::new(), 7).unwrap().data(), [7]);
    assert_eq!(Tensor::filled(vec![usize::MAX, 2], 7).err(), Some(TensorError::Overflow));
}

#[test]
fn activation_table_is_read_by_bits() {
    let mut table = vec![0_u8; numerics::GELU_TABLE_SIZE];
    table[2 * 0x3c00] = 0xbb;
    table[2 * 0x3c00 + 1] = 0x3a;
    assert_eq!(numerics::gelu(&table, 0x3c00), 0x3abb);
    assert_eq!(numerics::gelu_values(&table, &[0, 0x3c00]), [0, 0x3abb]);
}

#[test]
fn gelu_table_covers_all_half_bit_patterns() {
    let table = (0_u16..=u16::MAX)
        .flat_map(|bits| (bits ^ 0x5a5a).to_le_bytes())
        .collect::<Vec<_>>();
    assert_eq!(table.len(), numerics::GELU_TABLE_SIZE);
    for bits in 0_u16..=u16::MAX {
        assert_eq!(numerics::gelu(&table, bits), bits ^ 0x5a5a);
    }
}

#[test]
fn corrections_move_a_number_by_its_code() {
    let corrections = [0b11_10_01_00_u8];
    let value = 0x3f80_0000;
    assert_eq!(numerics::apply_packed_correction(value, 0, &corrections), value);
    assert_eq!(numerics::apply_packed_correction(value, 1, &corrections), value + 1);
    assert_eq!(numerics::apply_packed_correction(value, 2, &corrections), value - 1);
    assert_eq!(numerics::apply_packed_correction(value, 3, &corrections), value - 2);
    assert_eq!(numerics::apply_packed_correction(value, 4, &corrections), value);
    assert_eq!(numerics::apply_packed_correction(0, 3, &corrections), u32::MAX - 1);
    assert_eq!(numerics::apply_packed_correction(u32::MAX, 1, &corrections), 0);
    let two = 2.0_f32.to_bits();
    let half = 0.5_f32.to_bits();
    assert_eq!(numerics::softmax_reciprocal(half, two | 1, &corrections), half + 1);
    assert_eq!(numerics::softmax_reciprocal(half, two, &corrections), half);
    assert_eq!(numerics::softmax_reciprocal(7, f32::INFINITY.to_bits(), &corrections), 7);
    assert_eq!(numerics::layer_norm_rsqrt(half, two | 2, &corrections), half - 1);
    assert_eq!(numerics::layer_norm_rsqrt(9, 1, &corrections), 9);
    assert_eq!(numerics::subunit_exponential(half, 1, &corrections), half + 1);
    assert_eq!(
        numerics::subunit_exponential(half, numerics::EXP2_SUBUNIT_ENTRIES, &corrections),
        half
    );
    assert_eq!(f32::from_bits(numerics::power_of_two(-3)), 0.125);
}

#[test]
fn corrected_primitives_keep_basic_identities() {
    let one = 1.0_f32.to_bits();
    assert_eq!(f32::from_bits(numerics::subunit_exponential(one, 0, &[0])), 1.0);
    for codes in [0b00_00_00_00_u8, 0b01_01_01_01, 0b10_10_10_10, 0b11_11_11_11] {
        let table = [codes];
        let reciprocal = |value: f32| {
            let rounded = (1.0 / value).to_bits();
            f32::from_bits(numerics::softmax_reciprocal(rounded, value.to_bits(), &table))
        };
        let rsqrt = |value: f32| {
            let rounded = (1.0 / value.sqrt()).to_bits();
            f32::from_bits(numerics::layer_norm_rsqrt(rounded, value.to_bits(), &table))
        };
        assert!((reciprocal(2.0) - 0.5).abs() <= f32::EPSILON);
        assert!((rsqrt(4.0) - 0.5).abs() <= f32::EPSILON);
    }
}

#[test]
fn patches_are_checked_before_they_are_cut() {
    let params = Conv2dParams {
        batch: 1,
        input_channels: 1,
        input_height: 3,
        input_width: 3,
        output_channels: 2,
        kernel_height: 2,
        kernel_width: 2,
        stride_height: 1,
        stride_width: 1,
    };
    assert_eq!(check_conv(9, 8, 2, params), Ok((4, 4)));
    assert!(check_conv(8, 8, 2, params).is_err());
    assert!(check_conv(9, 7, 2, params).is_err());
    assert!(check_conv(9, 8, 1, params).is_err());
    assert!(check_conv(9, 8, 2, Conv2dParams { stride_width: 0, ..params }).is_err());
    assert!(check_conv(9, 8, 2, Conv2dParams { kernel_height: 4, ..params }).is_err());
    let wide = Conv2dParams { input_channels: usize::MAX / 8 * 8, output_channels: 0, ..params };
    assert!(check_conv(0, 0, 0, Conv2dParams { batch: 0, ..wide }).is_err());
    assert!(check_conv(27, 24, 2, Conv2dParams { input_channels: 3, ..params }).is_err());
}

#[test]
fn states_follow_their_parents() {
    let data = [0, 1, 10, 11, 20, 21, 30, 31];
    let shape = [4, 2];
    assert_eq!(gather_rows(&shape, &data, 0, &[0, 1, 2, 3], 4), Ok(data.to_vec()));
    assert_eq!(gather_rows(&[0, 2], &data, 0, &[], 0), Err(StateError::Shape));
    assert_eq!(row_width(&[0, 2], 0, 0), Err(StateError::Shape));
    let once = gather_rows(&shape, &data, 0, &[3, 1, 2], 4).unwrap();
    assert_eq!(once, [30, 31, 10, 11, 20, 21, 0, 0]);
    let twice = gather_rows(&shape, &once, 0, &[2, 0], 4).unwrap();
    assert_eq!(twice, gather_rows(&shape, &data, 0, &[2, 3], 4).unwrap());
    assert_eq!(twice, [20, 21, 30, 31, 0, 0, 0, 0]);
}

#[test]
fn operands_have_matrix_sizes() {
    assert_eq!(matrix_sizes(&[2, 3], &[5, 3]), Ok((2, 3, 5)));
    assert_eq!(matrix_sizes(&[2, 3, 1], &[5, 3]), Err(OperandError::Rank));
    assert_eq!(matrix_row_sizes(&[2, 3]), Ok((2, 3)));
    assert_eq!(matrix_row_sizes(&[3]), Err(OperandError::Rank));
    assert_eq!(matrix_row_sizes(&[2, 0]), Err(OperandError::ZeroWidth));
    assert_eq!(matrix_row_sizes(&[usize::MAX, 2]), Err(OperandError::Overflow));
}

#[test]
fn operands_have_rows_along_the_last_dimension() {
    assert_eq!(row_sizes(&[2, 3, 4]), Ok((6, 4)));
    assert_eq!(row_sizes(&[7]), Ok((1, 7)));
    assert_eq!(row_sizes(&[0, 7]), Ok((0, 7)));
    assert_eq!(row_sizes(&[]), Err(OperandError::NoWidth));
    assert_eq!(row_sizes(&[2, 0]), Err(OperandError::ZeroWidth));
    assert_eq!(row_sizes(&[usize::MAX, 2]), Err(OperandError::Overflow));
}

#[test]
fn sums_keep_or_drop_the_last_dimension() {
    assert_eq!(sum_sizes(&[2, 3, 4], &[-1], true), Ok((6, 4, vec![2, 3, 1])));
    assert_eq!(sum_sizes(&[2, 3, 4], &[-1], false), Ok((6, 4, vec![2, 3])));
    assert_eq!(sum_sizes(&[2, 3, 4], &[2], true), Err(OperandError::Axes));
    assert_eq!(sum_sizes(&[2, 3, 4], &[-1, -1], true), Err(OperandError::Axes));
    assert_eq!(sum_sizes(&[2, 0], &[-1], true), Err(OperandError::ZeroWidth));
    assert_eq!(keeps_dimensions(0), Ok(false));
    assert_eq!(keeps_dimensions(1), Ok(true));
    assert_eq!(keeps_dimensions(2), Err(OperandError::KeepDimensions));
}

#[test]
fn depthwise_convolutions_keep_their_channels() {
    let params = conv_params(&[1, 6, 10, 12], &[8, 6, 3, 4], false, 2, 3).unwrap();
    assert_eq!((params.batch, params.input_channels, params.output_channels), (1, 6, 8));
    assert_eq!((params.kernel_height, params.kernel_width), (3, 4));
    assert_eq!((params.stride_height, params.stride_width), (2, 3));
    assert_eq!((params.output_height(), params.output_width()), (4, 3));
    let params = conv_params(&[1, 6, 10, 12], &[6, 1, 3, 4], true, 2, 3).unwrap();
    assert_eq!(params.output_channels, 6);
    assert_eq!((params.output_height(), params.output_width()), (8, 9));
    assert_eq!(
        conv_params(&[1, 6, 10], &[6, 1, 3, 4], true, 1, 1).err(),
        Some(OperandError::Rank)
    );
}
