use gwr_models::dtype::DataType;
use gwr_models::error::{ModelError, PoolParamError};
use gwr_models::operators::maxpool::{
    create_maxpool_op, maxpool_axis_params, split_padding, AutoPad, OperatorMaxPool,
};
use gwr_models::operators::ExpansionDirection;
use gwr_models::partition::TensorPartition;
use gwr_models::tensor::{HasShape, Tensor};
use gwr_models::tensor_view::TensorView;

fn tensor(shape: &[usize]) -> Option<Tensor> {
    Some(Tensor::new(shape, &DataType::Bf16, 0).unwrap())
}

fn indices(shape: &[usize]) -> Option<Tensor> {
    Some(Tensor::new(shape, &DataType::Int64, 0).unwrap())
}

fn tensor_view(shape: &[usize]) -> Option<TensorView> {
    Some(TensorView::new_full(Tensor::new(shape, &DataType::Bf16, 0).unwrap()))
}

fn indices_view(shape: &[usize]) -> Option<TensorView> {
    Some(TensorView::new_full(Tensor::new(shape, &DataType::Int64, 0).unwrap()))
}

fn scaled_dim(dim: usize, expand_ratio: f64) -> usize {
    ((dim as f64) * expand_ratio).round().max(1.0) as usize
}

fn targets(tensor: &Tensor, expand_ratio: f64) -> Vec<usize> {
    tensor.shape().dims()[2..].iter().map(|dim| scaled_dim(*dim, expand_ratio)).collect()
}

fn dims(tensor: &Option<Tensor>) -> Vec<usize> {
    tensor.as_ref().unwrap().shape().dims().to_vec()
}

#[test]
fn new_leaves_optional_attributes_unspecified_and_uses_onnx_defaults() {
    let op = OperatorMaxPool::new(&[2, 2]);
    assert_eq!(op.auto_pad, None);
    assert_eq!(op.ceil_mode, None);
    assert_eq!(op.dilations, None);
    assert_eq!(op.pads, None);
    assert_eq!(op.storage_order, None);
    assert_eq!(op.strides, None);

    let outputs = op.create_outputs(&[tensor(&[1, 1, 4, 4])], true).unwrap();
    assert_eq!(dims(&outputs[0]), vec![1, 1, 3, 3]);
}

#[test]
fn generated_forward_op_shrinks_with_larger_kernel_when_expand_ratio_is_below_one() {
    let input = Tensor::new(&[1, 1, 10, 8], &DataType::Fp32, 0).unwrap();
    let op = create_maxpool_op(&input, ExpansionDirection::Forward, &targets(&input, 0.5)).unwrap();

    assert_eq!(op.kernel_shape, vec![6, 5]);
    assert_eq!(op.pads, None);

    let outputs = op.create_outputs(&[Some(input)], true).unwrap();
    assert_eq!(dims(&outputs[0]), vec![1, 1, 5, 4]);
}

#[test]
fn generated_forward_op_grows_with_padding_when_expand_ratio_is_above_one() {
    let input = Tensor::new(&[1, 1, 4, 4], &DataType::Fp32, 0).unwrap();
    let op = create_maxpool_op(&input, ExpansionDirection::Forward, &targets(&input, 1.5)).unwrap();

    assert_eq!(op.kernel_shape, vec![1, 1]);
    assert_eq!(op.pads, Some(vec![1, 1, 1, 1]));

    let outputs = op.create_outputs(&[Some(input)], true).unwrap();
    assert_eq!(dims(&outputs[0]), vec![1, 1, 6, 6]);
}

#[test]
fn generated_backward_op_uses_expand_ratio_for_input_shape() {
    let output = Tensor::new(&[1, 1, 4, 4], &DataType::Fp32, 0).unwrap();
    let op = create_maxpool_op(&output, ExpansionDirection::Backward, &targets(&output, 0.5)).unwrap();

    assert_eq!(op.kernel_shape, vec![1, 1]);
    assert_eq!(op.pads, Some(vec![1, 1, 1, 1]));

    let inputs = op.create_inputs(&[Some(output)]).unwrap();
    assert_eq!(dims(&inputs[0]), vec![1, 1, 2, 2]);
}

fn check_partitions(partitions: &[TensorPartition], expected: &[(([usize; 4], [usize; 4]), ([usize; 4], [usize; 4]), ([usize; 4], [usize; 4]))]) {
    assert_eq!(partitions.len(), expected.len());
    for (partition, expected_partition) in partitions.iter().zip(expected.iter()) {
        assert_eq!(partition.inputs.len(), 1);
        assert_eq!(partition.outputs.len(), 2);

        let input = partition.inputs[0].as_ref().unwrap();
        let output = partition.outputs[0].as_ref().unwrap();
        let indices = partition.outputs[1].as_ref().unwrap();

        assert_eq!(input.offsets(), &expected_partition.0 .0);
        assert_eq!(input.shape().dims(), &expected_partition.0 .1);
        assert_eq!(output.offsets(), &expected_partition.1 .0);
        assert_eq!(output.shape().dims(), &expected_partition.1 .1);
        assert_eq!(indices.offsets(), &expected_partition.2 .0);
        assert_eq!(indices.shape().dims(), &expected_partition.2 .1);
    }
}

#[test]
fn create_outputs_returns_y_and_indices() {
    let op = OperatorMaxPool { strides: Some(vec![2, 2]), ..OperatorMaxPool::new(&[2, 2]) };

    let outputs = op.create_outputs(&[tensor(&[1, 3, 4, 4])], true).unwrap();

    assert_eq!(outputs.len(), 2);
    assert_eq!(dims(&outputs[0]), vec![1, 3, 2, 2]);
    assert_eq!(outputs[0].as_ref().unwrap().dtype(), &DataType::Bf16);
    assert_eq!(dims(&outputs[1]), vec![1, 3, 2, 2]);
    assert_eq!(outputs[1].as_ref().unwrap().dtype(), &DataType::Int64);
}

#[test]
fn create_outputs_and_inputs_support_5d_pooling_over_inner_three_dimensions() {
    let op = OperatorMaxPool { strides: Some(vec![2, 2, 2]), ..OperatorMaxPool::new(&[2, 3, 4]) };

    let outputs = op.create_outputs(&[tensor(&[2, 5, 6, 7, 8])], true).unwrap();

    assert_eq!(outputs.len(), 2);
    assert_eq!(dims(&outputs[0]), vec![2, 5, 3, 3, 3]);
    assert_eq!(outputs[0].as_ref().unwrap().dtype(), &DataType::Bf16);
    assert_eq!(dims(&outputs[1]), vec![2, 5, 3, 3, 3]);
    assert_eq!(outputs[1].as_ref().unwrap().dtype(), &DataType::Int64);
    op.validate_tensors(&[tensor(&[2, 5, 6, 7, 8])], &outputs).unwrap();

    let inputs = op.create_inputs(&outputs).unwrap();
    assert_eq!(dims(&inputs[0]), vec![2, 5, 6, 7, 8]);
}

#[test]
fn create_outputs_with_expand_ratio_zero_omits_indices() {
    let op = OperatorMaxPool { strides: Some(vec![2, 2]), ..OperatorMaxPool::new(&[2, 2]) };

    let outputs = op.create_outputs(&[tensor(&[1, 3, 4, 4])], false).unwrap();

    assert_eq!(outputs.len(), 1);
    assert_eq!(dims(&outputs[0]), vec![1, 3, 2, 2]);
    assert_eq!(outputs[0].as_ref().unwrap().dtype(), &DataType::Bf16);
}

#[test]
fn validate_accepts_optional_indices_output() {
    let op = OperatorMaxPool { strides: Some(vec![2, 2]), ..OperatorMaxPool::new(&[2, 2]) };

    op.validate_tensors(&[tensor(&[1, 3, 4, 4])], &[tensor(&[1, 3, 2, 2])]).unwrap();
    op.validate_tensors(&[tensor(&[1, 3, 4, 4])], &[tensor(&[1, 3, 2, 2]), indices(&[1, 3, 2, 2])]).unwrap();
}

#[test]
fn validate_rejects_wrong_indices_shape_or_dtype() {
    let op = OperatorMaxPool { strides: Some(vec![2, 2]), ..OperatorMaxPool::new(&[2, 2]) };

    let err = op
        .validate_tensors(&[tensor(&[1, 3, 4, 4])], &[tensor(&[1, 3, 2, 2]), indices(&[1, 3, 2, 1])])
        .unwrap_err();
    assert!(err.message().contains("Indices shape"));

    let err = op
        .validate_tensors(&[tensor(&[1, 3, 4, 4])], &[tensor(&[1, 3, 2, 2]), tensor(&[1, 3, 2, 2])])
        .unwrap_err();
    assert!(err.message().contains("Indices dtype"));
}

#[test]
fn output_shape_supports_padding_dilation_and_ceil_mode() {
    let op = OperatorMaxPool {
        ceil_mode: Some(true),
        dilations: Some(vec![2, 2]),
        pads: Some(vec![1, 1, 1, 1]),
        strides: Some(vec![2, 2]),
        ..OperatorMaxPool::new(&[3, 3])
    };

    let outputs = op.create_outputs(&[tensor(&[1, 1, 7, 7])], true).unwrap();
    assert_eq!(dims(&outputs[0]), vec![1, 1, 3, 3]);
}

#[test]
fn output_shape_supports_same_upper_auto_pad() {
    let op = OperatorMaxPool {
        auto_pad: Some(AutoPad::SameUpper),
        strides: Some(vec![2, 2]),
        ..OperatorMaxPool::new(&[3, 3])
    };

    let outputs = op.create_outputs(&[tensor(&[1, 1, 5, 6])], true).unwrap();
    assert_eq!(dims(&outputs[0]), vec![1, 1, 3, 3]);
}

#[test]
fn delay_counts_comparisons_excluding_padding() {
    let op = OperatorMaxPool { pads: Some(vec![1, 1, 1, 1]), ..OperatorMaxPool::new(&[3, 3]) };

    let ops = op
        .compute_machine_ops(
            &[tensor_view(&[1, 1, 2, 2])],
            &[tensor_view(&[1, 1, 2, 2]), indices_view(&[1, 1, 2, 2])],
        )
        .unwrap();

    // Every output window sees the same four real input elements, requiring
    // three comparisons per output.
    assert_eq!(ops.compares, 12);
    assert_eq!(ops.adds, 0);
    assert_eq!(ops.muls, 0);
}

#[test]
fn partitions_include_both_outputs() {
    let op = OperatorMaxPool { strides: Some(vec![2, 2]), ..OperatorMaxPool::new(&[2, 2]) };
    let inputs = vec![tensor_view(&[2, 1, 4, 4])];
    let outputs = vec![tensor_view(&[2, 1, 2, 2]), indices_view(&[2, 1, 2, 2])];

    let partitions = op.partition_views(&inputs, &outputs, 2).unwrap();

    check_partitions(
        &partitions,
        &[
            (([0, 0, 0, 0], [1, 1, 4, 4]), ([0, 0, 0, 0], [1, 1, 2, 2]), ([0, 0, 0, 0], [1, 1, 2, 2])),
            (([1, 0, 0, 0], [1, 1, 4, 4]), ([1, 0, 0, 0], [1, 1, 2, 2]), ([1, 0, 0, 0], [1, 1, 2, 2])),
        ],
    );
}

#[test]
fn rejects_invalid_pool_attributes() {
    let zero_kernel = OperatorMaxPool::new(&[0, 2]);
    assert_eq!(
        zero_kernel.normalize_params(2).unwrap_err(),
        ModelError::InvalidPoolParameter { reason: PoolParamError::ZeroKernel }
    );
    let wrong_rank = OperatorMaxPool::new(&[2]);
    assert_eq!(
        wrong_rank.normalize_params(2).unwrap_err(),
        ModelError::InvalidPoolParameter { reason: PoolParamError::KernelRankMismatch }
    );
    let pads_and_auto = OperatorMaxPool {
        auto_pad: Some(AutoPad::Valid),
        pads: Some(vec![1, 1, 1, 1]),
        ..OperatorMaxPool::new(&[2, 2])
    };
    assert_eq!(
        pads_and_auto.normalize_params(2).unwrap_err(),
        ModelError::InvalidPoolParameter { reason: PoolParamError::PadsWithAutoPad }
    );
    let bad_storage = OperatorMaxPool { storage_order: Some(2), ..OperatorMaxPool::new(&[2, 2]) };
    assert_eq!(
        bad_storage.normalize_params(2).unwrap_err(),
        ModelError::InvalidPoolParameter { reason: PoolParamError::InvalidStorageOrder }
    );
    let op = OperatorMaxPool::new(&[5, 5]);
    assert_eq!(op.create_outputs(&[tensor(&[1, 1, 4, 4])], false).unwrap_err(), ModelError::EmptyPoolOutput);
    assert_eq!(
        op.create_outputs(&[tensor(&[4, 4])], false).unwrap_err(),
        ModelError::InvalidPoolParameter { reason: PoolParamError::InputRankBelowThree }
    );
}

#[test]
fn valid_and_same_lower_padding_resolve_pads() {
    let valid = OperatorMaxPool {
        auto_pad: Some(AutoPad::Valid),
        strides: Some(vec![2]),
        ..OperatorMaxPool::new(&[3])
    };
    let (dims, params) = valid.output_shape_and_resolved_params(&Tensor::new(&[1, 1, 7], &DataType::Int8, 0).unwrap()).unwrap();
    assert_eq!(dims, vec![1, 1, 3]);
    assert_eq!(params.pads_begin, vec![0]);

    let same_lower = OperatorMaxPool {
        auto_pad: Some(AutoPad::SameLower),
        strides: Some(vec![2]),
        ..OperatorMaxPool::new(&[4])
    };
    let (dims, params) = same_lower.output_shape_and_resolved_params(&Tensor::new(&[1, 1, 7], &DataType::Int8, 0).unwrap()).unwrap();
    assert_eq!(dims, vec![1, 1, 4]);
    // Four outputs two apart with a kernel of four reach 10 elements: three
    // of padding, the larger half first.
    assert_eq!(params.pads_begin, vec![2]);
    assert_eq!(params.pads_end, vec![1]);
}

#[test]
fn axis_params_split_padding_with_the_larger_half_at_the_end() {
    assert_eq!(split_padding(5), (2, 3));
    assert_eq!(maxpool_axis_params(10, 5, ExpansionDirection::Forward), (6, 0, 0));
    assert_eq!(maxpool_axis_params(4, 7, ExpansionDirection::Forward), (1, 1, 2));
    assert_eq!(maxpool_axis_params(4, 6, ExpansionDirection::Backward), (3, 0, 0));
    assert_eq!(maxpool_axis_params(4, 1, ExpansionDirection::Backward), (1, 1, 2));
}
