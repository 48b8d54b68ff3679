use gwr_models::dtype::DataType;
use gwr_models::error::ModelError;
use gwr_models::machine_ops::MachineOpCounts;
use gwr_models::operators::add::{broadcast_shapes, OperatorAdd};
use gwr_models::operators::custom::OperatorCustom;
use gwr_models::operators::gemm::{
    gemm_rhs_shape, get_inner_dim, OperatorGemm, INPUT_A_OFFSET_K, INPUT_A_OFFSET_M, INPUT_B_OFFSET_K,
    INPUT_B_OFFSET_N, OUTPUT_OFFSET_M, OUTPUT_OFFSET_N,
};
use gwr_models::partition::TensorPartition;
use gwr_models::tensor::{Shape, Tensor};
use gwr_models::tensor_view::TensorView;

fn tensor(dims: &[usize]) -> Option<Tensor> {
    Some(Tensor::new(dims, &DataType::Bf16, 0).unwrap())
}

fn tensor_view(dims: &[usize]) -> Option<TensorView> {
    let tensor = Tensor::new(dims, &DataType::Bf16, 0).unwrap();
    Some(TensorView::new_full(tensor))
}

type OffsetsShapes = (&'static [usize], &'static [usize]);

fn check_add_partitions(partitions: &[TensorPartition], expected: &[OffsetsShapes]) {
    assert_eq!(partitions.len(), expected.len());
    for (partition, (expected_offsets, expected_shape)) in partitions.iter().zip(expected.iter()) {
        let views = partition
            .inputs
            .iter()
            .chain(partition.outputs.iter())
            .map(|view| view.as_ref().unwrap());
        for view in views {
            assert_eq!(view.offsets(), *expected_offsets);
            assert_eq!(view.shape().dims(), *expected_shape);
        }
    }
}

#[test]
fn flop_count_matches_output_elements() {
    let operator = OperatorAdd {};
    assert_eq!(
        operator
            .compute_flops(&[tensor_view(&[2, 3, 4]), tensor_view(&[1, 3, 1])], &[tensor_view(&[2, 3, 4])])
            .unwrap(),
        24
    );
}

#[test]
fn add_partitions_preserve_subset_view_offsets() {
    let op = OperatorAdd {};
    let input_a = Tensor::new(&[4, 5, 4], &DataType::Bf16, 0).unwrap();
    let input_b = Tensor::new(&[4, 5, 4], &DataType::Bf16, 0).unwrap();
    let output = Tensor::new(&[4, 5, 4], &DataType::Bf16, 0).unwrap();

    let input_views = vec![
        Some(TensorView::new(input_a, &[2, 2, 4], &[1, 2, 0]).unwrap()),
        Some(TensorView::new(input_b, &[2, 2, 4], &[1, 2, 0]).unwrap()),
    ];
    let output_views = vec![Some(TensorView::new(output, &[2, 2, 4], &[1, 2, 0]).unwrap())];

    let partitions = op.partition_views(&input_views, &output_views, 2).unwrap();
    assert_eq!(partitions.len(), 2);

    let expected: &[OffsetsShapes] = &[(&[1, 2, 0], &[1, 2, 4]), (&[2, 2, 0], &[1, 2, 4])];
    check_add_partitions(&partitions, expected);
}

#[test]
fn add_partitions_across_one_dimension() {
    let op = OperatorAdd {};
    let inputs = vec![tensor_view(&[1, 5, 3, 4]), tensor_view(&[1, 5, 3, 4])];
    let outputs = vec![tensor_view(&[1, 5, 3, 4])];
    let partitions = op.partition_views(&inputs, &outputs, 5).unwrap();
    let expected: &[OffsetsShapes] = &[
        (&[0, 0, 0, 0], &[1, 1, 3, 4]),
        (&[0, 1, 0, 0], &[1, 1, 3, 4]),
        (&[0, 2, 0, 0], &[1, 1, 3, 4]),
        (&[0, 3, 0, 0], &[1, 1, 3, 4]),
        (&[0, 4, 0, 0], &[1, 1, 3, 4]),
    ];
    check_add_partitions(&partitions, expected);
}

#[test]
fn add_partitions_across_multiple_dimensions() {
    let op = OperatorAdd {};
    let inputs = vec![tensor_view(&[2, 3, 4]), tensor_view(&[2, 3, 4])];
    let outputs = vec![tensor_view(&[2, 3, 4])];
    let partitions = op.partition_views(&inputs, &outputs, 5).unwrap();
    let expected: &[OffsetsShapes] = &[
        (&[0, 0, 0], &[1, 1, 4]),
        (&[0, 1, 0], &[1, 1, 4]),
        (&[0, 2, 0], &[1, 1, 4]),
        (&[1, 0, 0], &[1, 1, 4]),
        (&[1, 1, 0], &[1, 1, 4]),
        (&[1, 2, 0], &[1, 1, 4]),
    ];
    check_add_partitions(&partitions, expected);
}

#[test]
fn add_broadcasts_and_validates_shapes() {
    let a = Shape::new(&[3, 4]).unwrap();
    let b = Shape::new(&[2, 1, 4]).unwrap();
    assert_eq!(broadcast_shapes(&a, &b).unwrap().dims(), &[2, 3, 4]);
    let c = Shape::new(&[4, 3]).unwrap();
    let d = Shape::new(&[2, 3]).unwrap();
    assert_eq!(broadcast_shapes(&c, &d).unwrap_err(), ModelError::CannotBroadcast);
    assert!(broadcast_shapes(&c, &d).unwrap_err().message().contains("cannot broadcast shapes"));

    let op = OperatorAdd {};
    op.validate_tensors(&[tensor(&[3, 4]), tensor(&[2, 1, 4])], &[tensor(&[2, 3, 4])]).unwrap();
    let err = op.validate_tensors(&[tensor(&[3, 4]), tensor(&[2, 1, 4])], &[tensor(&[3, 4])]).unwrap_err();
    assert!(err.message().contains("Invalid output shape"));
    assert_eq!(op.validate_tensors(&[tensor(&[3, 4])], &[tensor(&[3, 4])]).unwrap_err(), ModelError::WrongInputCount { found: 1 });
    assert_eq!(op.validate_tensors(&[None, tensor(&[3, 4])], &[tensor(&[3, 4])]).unwrap_err(), ModelError::MissingInput { index: 0 });
    assert_eq!(op.validate_tensors(&[tensor(&[3, 4]), tensor(&[3, 4])], &[None]).unwrap_err(), ModelError::MissingOutput { index: 0 });
    assert_eq!(
        op.compute_machine_ops(&[tensor_view(&[4, 5]), tensor_view(&[4, 5])], &[tensor_view(&[4, 5])]).unwrap(),
        MachineOpCounts { adds: 20, compares: 0, muls: 0 }
    );
}

#[test]
fn get_inner_dim_uses_one_based_inner_offsets() {
    let shape = Shape::new(&[7, 11, 13, 17]).unwrap();

    assert_eq!(get_inner_dim(&shape, 1), 17);
    assert_eq!(get_inner_dim(&shape, 2), 13);
    assert_eq!(get_inner_dim(&shape, 3), 11);
    assert_eq!(get_inner_dim(&shape, 4), 7);
}

#[test]
fn gemm_named_offsets_map_to_expected_dimensions() {
    let input_a = Shape::new(&[19, 23, 29, 31]).unwrap();
    let input_b = Shape::new(&[19, 23, 31, 37]).unwrap();
    let output = Shape::new(&[19, 23, 29, 37]).unwrap();

    assert_eq!(get_inner_dim(&input_a, INPUT_A_OFFSET_M), 29);
    assert_eq!(get_inner_dim(&input_a, INPUT_A_OFFSET_K), 31);
    assert_eq!(get_inner_dim(&input_b, INPUT_B_OFFSET_K), 31);
    assert_eq!(get_inner_dim(&input_b, INPUT_B_OFFSET_N), 37);
    assert_eq!(get_inner_dim(&output, OUTPUT_OFFSET_M), 29);
    assert_eq!(get_inner_dim(&output, OUTPUT_OFFSET_N), 37);
}

#[test]
fn gemm_rhs_shape_uses_gemm_named_offsets() {
    let input_a = Shape::new(&[19, 23, 29, 31]).unwrap();
    let input_b = gemm_rhs_shape(&input_a).unwrap();
    assert_eq!(input_b.dims(), &[19, 23, 31, 29]);
    OperatorGemm {}
        .validate_tensors(&[tensor(input_a.dims()), tensor(input_b.dims())], &[tensor(&[19, 23, 29, 29])])
        .unwrap();
}

#[test]
fn gemm_rhs_shape_rejects_rank_below_two() {
    let err = gemm_rhs_shape(&Shape::new(&[31]).unwrap()).unwrap_err();

    assert!(err.message().contains("input A must be at least 2D"));
}

#[test]
fn flop_count_adds_multiplies_and_accumulates() {
    let operator = OperatorGemm {};
    assert_eq!(
        operator
            .compute_flops(&[tensor_view(&[4, 5]), tensor_view(&[5, 8])], &[tensor_view(&[4, 8])])
            .unwrap(),
        (4 * 5 * 8) + (4 * (5 - 1) * 8)
    );
}

#[test]
fn flop_count_includes_optional_c_elementwise_add() {
    let operator = OperatorGemm {};
    assert_eq!(
        operator
            .compute_flops(
                &[tensor_view(&[4, 5]), tensor_view(&[5, 8]), tensor_view(&[4, 8])],
                &[tensor_view(&[4, 8])],
            )
            .unwrap(),
        (4 * 5 * 8) + (4 * (5 - 1) * 8) + (4 * 8)
    );
}

#[test]
fn gemm_counts_outer_matrix_products() {
    let operator = OperatorGemm {};
    let ops = operator
        .compute_machine_ops(&[tensor_view(&[2, 3, 4, 5]), tensor_view(&[2, 3, 5, 7])], &[tensor_view(&[2, 3, 4, 7])])
        .unwrap();
    assert_eq!(ops.muls, (2 * 3) * (4 * 5 * 7));
    assert_eq!(ops.adds, (2 * 3) * (4 * 4 * 7));
    assert_eq!(ops.compares, 0);
}

#[test]
fn gemm_validation_errors() {
    let operator = OperatorGemm {};
    let err = operator
        .validate_tensors(&[tensor(&[2, 4, 5]), tensor(&[3, 5, 8])], &[tensor(&[1, 4, 8])])
        .unwrap_err();
    assert!(err.message().contains("cannot broadcast shapes"));
    let err = operator
        .validate_tensors(&[tensor(&[4, 1, 4, 5]), tensor(&[3, 1, 5, 8])], &[tensor(&[1, 1, 4, 8])])
        .unwrap_err();
    assert!(err.message().contains("cannot broadcast shapes"));
    let err = operator
        .validate_tensors(&[tensor(&[9, 2, 4, 5]), tensor(&[9, 2, 4, 8])], &[tensor(&[9, 2, 4, 8])])
        .unwrap_err();
    assert!(err.message().contains("incompatible K"));
    operator.validate_tensors(&[tensor(&[1, 4, 5]), tensor(&[1, 5, 8])], &[tensor(&[1, 4, 8])]).unwrap();
    operator.validate_tensors(&[tensor(&[3, 2, 10, 5]), tensor(&[5, 12])], &[tensor(&[3, 2, 10, 12])]).unwrap();
    assert_eq!(
        operator.validate_tensors(&[tensor(&[4, 5]), tensor(&[5, 8])], &[tensor(&[4, 9])]).unwrap_err(),
        ModelError::InvalidMN
    );
    assert_eq!(
        operator.validate_tensors(&[tensor(&[4, 5]), tensor(&[5, 8])], &[tensor(&[1, 4, 8])]).unwrap_err(),
        ModelError::IncompatibleRanks
    );
    assert_eq!(
        operator.validate_tensors(&[tensor(&[4, 5]), tensor(&[5, 8]), tensor(&[3, 8])], &[tensor(&[4, 8])]).unwrap_err(),
        ModelError::IncompatibleInputC
    );
    assert_eq!(
        operator.validate_tensors(&[tensor(&[2, 4, 5]), tensor(&[2, 5, 8])], &[tensor(&[3, 4, 8])]).unwrap_err(),
        ModelError::InvalidOutputDimension { dimension: 0 }
    );
}

type PartitionOffsetsShapes = (OffsetsShapes, OffsetsShapes, OffsetsShapes);

fn check_gemm_partitions(partitions: &[TensorPartition], expected: &[PartitionOffsetsShapes]) {
    assert_eq!(partitions.len(), expected.len());
    for (partition, expected_partition) in partitions.iter().zip(expected.iter()) {
        let in_a = partition.inputs[0].as_ref().unwrap();
        let in_b = partition.inputs[1].as_ref().unwrap();
        let out = partition.outputs[0].as_ref().unwrap();
        assert_eq!(in_a.offsets(), (expected_partition.0).0);
        assert_eq!(in_a.shape().dims(), (expected_partition.0).1);
        assert_eq!(in_b.offsets(), (expected_partition.1).0);
        assert_eq!(in_b.shape().dims(), (expected_partition.1).1);
        assert_eq!(out.offsets(), (expected_partition.2).0);
        assert_eq!(out.shape().dims(), (expected_partition.2).1);
    }
}

#[test]
fn gemm_partitions_preserve_subset_view_offsets() {
    let operator = OperatorGemm {};
    let input_a = Tensor::new(&[8, 5], &DataType::Bf16, 0).unwrap();
    let input_b = Tensor::new(&[5, 9], &DataType::Bf16, 0).unwrap();
    let output = Tensor::new(&[8, 9], &DataType::Bf16, 0).unwrap();

    let input_views = vec![
        Some(TensorView::new(input_a, &[4, 5], &[2, 0]).unwrap()),
        Some(TensorView::new(input_b, &[5, 6], &[0, 3]).unwrap()),
    ];
    let output_views = vec![Some(TensorView::new(output, &[4, 6], &[2, 3]).unwrap())];

    let partitions = operator.partition_views(&input_views, &output_views, 8).unwrap();
    assert_eq!(partitions.len(), 8);

    let expected: &[PartitionOffsetsShapes] = &[
        ((&[2, 0], &[1, 5]), (&[0, 3], &[5, 3]), (&[2, 3], &[1, 3])),
        ((&[2, 0], &[1, 5]), (&[0, 6], &[5, 3]), (&[2, 6], &[1, 3])),
        ((&[3, 0], &[1, 5]), (&[0, 3], &[5, 3]), (&[3, 3], &[1, 3])),
        ((&[3, 0], &[1, 5]), (&[0, 6], &[5, 3]), (&[3, 6], &[1, 3])),
        ((&[4, 0], &[1, 5]), (&[0, 3], &[5, 3]), (&[4, 3], &[1, 3])),
        ((&[4, 0], &[1, 5]), (&[0, 6], &[5, 3]), (&[4, 6], &[1, 3])),
        ((&[5, 0], &[1, 5]), (&[0, 3], &[5, 3]), (&[5, 3], &[1, 3])),
        ((&[5, 0], &[1, 5]), (&[0, 6], &[5, 3]), (&[5, 6], &[1, 3])),
    ];
    check_gemm_partitions(&partitions, expected);
}

#[test]
fn gemm_partitions_prefer_outer_dims_before_m_or_n() {
    let operator = OperatorGemm {};
    let inputs = vec![tensor_view(&[3, 20, 10, 5]), tensor_view(&[3, 20, 5, 12])];
    let outputs = vec![tensor_view(&[3, 20, 10, 12])];
    let partitions = operator.partition_views(&inputs, &outputs, 4).unwrap();
    assert_eq!(partitions.len(), 6);
    let expected: &[PartitionOffsetsShapes] = &[
        ((&[0, 0, 0, 0], &[1, 10, 10, 5]), (&[0, 0, 0, 0], &[1, 10, 5, 12]), (&[0, 0, 0, 0], &[1, 10, 10, 12])),
        ((&[0, 10, 0, 0], &[1, 10, 10, 5]), (&[0, 10, 0, 0], &[1, 10, 5, 12]), (&[0, 10, 0, 0], &[1, 10, 10, 12])),
        ((&[1, 0, 0, 0], &[1, 10, 10, 5]), (&[1, 0, 0, 0], &[1, 10, 5, 12]), (&[1, 0, 0, 0], &[1, 10, 10, 12])),
        ((&[1, 10, 0, 0], &[1, 10, 10, 5]), (&[1, 10, 0, 0], &[1, 10, 5, 12]), (&[1, 10, 0, 0], &[1, 10, 10, 12])),
        ((&[2, 0, 0, 0], &[1, 10, 10, 5]), (&[2, 0, 0, 0], &[1, 10, 5, 12]), (&[2, 0, 0, 0], &[1, 10, 10, 12])),
        ((&[2, 10, 0, 0], &[1, 10, 10, 5]), (&[2, 10, 0, 0], &[1, 10, 5, 12]), (&[2, 10, 0, 0], &[1, 10, 10, 12])),
    ];
    check_gemm_partitions(&partitions, expected);
}

#[test]
fn gemm_partitions_fall_back_to_m() {
    let operator = OperatorGemm {};
    let inputs = vec![tensor_view(&[10, 5]), tensor_view(&[5, 12])];
    let outputs = vec![tensor_view(&[10, 12])];
    let partitions = operator.partition_views(&inputs, &outputs, 4).unwrap();
    assert_eq!(partitions.len(), 4);
    let expected_m_offsets = [0, 3, 6, 8];
    let expected_m_lengths = [3, 3, 2, 2];
    for (partition_idx, partition) in partitions.iter().enumerate() {
        let a_view = partition.inputs[0].as_ref().unwrap();
        let b_view = partition.inputs[1].as_ref().unwrap();
        let out_view = partition.outputs[0].as_ref().unwrap();
        assert_eq!(a_view.shape().dims(), &[expected_m_lengths[partition_idx], 5]);
        assert_eq!(a_view.offsets(), &[expected_m_offsets[partition_idx], 0]);
        assert_eq!(b_view.shape().dims(), &[5, 12]);
        assert_eq!(b_view.offsets(), &[0, 0]);
        assert_eq!(out_view.shape().dims(), &[expected_m_lengths[partition_idx], 12]);
        assert_eq!(out_view.offsets(), &[expected_m_offsets[partition_idx], 0]);
    }
}

#[test]
fn custom_operator_keeps_its_counts_and_views() {
    let op = OperatorCustom { name: Some("custom".to_string()), machine_ops: MachineOpCounts { adds: 3, compares: 2, muls: 1 } };
    assert!(op.validate(&[], &[]).is_ok());
    assert_eq!(op.compute_machine_ops(&[], &[]).unwrap().total(), 6);
    let partitions = op.partition_views(&[tensor_view(&[2, 2])], &[tensor_view(&[2])], 4).unwrap();
    assert_eq!(partitions.len(), 1);
    assert_eq!(partitions[0].inputs.len(), 1);
    assert_eq!(partitions[0].outputs[0].as_ref().unwrap().shape().dims(), &[2]);
}

#[test]
fn machine_op_counts_add_kind_by_kind() {
    let mut counts = MachineOpCounts::default();
    counts.add_assign(MachineOpCounts { adds: 1, compares: 2, muls: 3 });
    counts.add_assign(MachineOpCounts { adds: 10, compares: 0, muls: 1 });
    assert_eq!(counts, MachineOpCounts { adds: 11, compares: 2, muls: 4 });
    assert_eq!(counts.total(), 17);
}
