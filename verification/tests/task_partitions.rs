use gwr_models::dtype::DataType;
use gwr_models::machine_ops::MachineOpCounts;
use gwr_models::operators::add::OperatorAdd;
use gwr_models::operators::custom::OperatorCustom;
use gwr_models::operators::gemm::{broadcast_shapes, OperatorGemm};
use gwr_models::operators::maxpool::OperatorMaxPool;
use gwr_models::partition::TensorPartition;
use gwr_models::task::{partitions_needed, ComputeOp, ComputeTaskConfig, SyncRegion, Task};
use gwr_models::tensor::{Shape, Tensor};
use gwr_models::tensor_view::TensorView;

fn tensor(dims: &[usize]) -> Option<Tensor> {
    Some(Tensor::new(dims, &DataType::Bf16, 0).unwrap())
}

type OffsetsShapes = (&'static [usize], &'static [usize]);
type PartitionOffsetsShapes = (OffsetsShapes, OffsetsShapes, OffsetsShapes);

fn check_partitions(partitions: &[TensorPartition], expected: &[OffsetsShapes]) {
    for (partition, (expected_offsets, expected_shape)) in partitions.iter().zip(expected.iter()) {
        for view in partition.inputs.iter().chain(partition.outputs.iter()) {
            let view = view.as_ref().unwrap();
            assert_eq!(view.offsets(), *expected_offsets);
            assert_eq!(view.shape().dims(), *expected_shape);
        }
    }
}

fn check_gemm_partitions(partitions: &[TensorPartition], expected: &[PartitionOffsetsShapes]) {
    assert_eq!(partitions.len(), expected.len());
    for (partition, expected_partition) in partitions.iter().zip(expected.iter()) {
        let in_a = partition.inputs[0].as_ref().unwrap();
        let in_b = partition.inputs[1].as_ref().unwrap();
        let out = partition.outputs[0].as_ref().unwrap();
        assert_eq!(in_a.offsets(), (expected_partition.0).0);
        assert_eq!(in_a.shape().dims(), (expected_partition.0).1);
        assert_eq!(in_b.offsets(), (expected_partition.1).0);
        assert_eq!(in_b.shape().dims(), (expected_partition.1).1);
        assert_eq!(out.offsets(), (expected_partition.2).0);
        assert_eq!(out.shape().dims(), (expected_partition.2).1);
    }
}

#[test]
fn validate_tensors_accepts_broadcasted_output_shape() {
    let op = OperatorAdd {};
    let inputs = vec![tensor(&[3, 4]), tensor(&[2, 1, 4])];
    let outputs = vec![tensor(&[2, 3, 4])];

    op.validate_tensors(&inputs, &outputs).unwrap();
}

#[test]
fn validate_tensors_rejects_wrong_output_shape() {
    let op = OperatorAdd {};
    let inputs = vec![tensor(&[3, 4]), tensor(&[2, 1, 4])];
    let outputs = vec![tensor(&[3, 4])];

    let err = op.validate_tensors(&inputs, &outputs).unwrap_err();

    assert!(err.message().contains("Invalid output shape"));
}

#[test]
fn can_partition_across_one_dimension() {
    let inputs = vec![tensor(&[1, 5, 3, 4]), tensor(&[1, 5, 3, 4])];
    let outputs = vec![tensor(&[1, 5, 3, 4])];

    let partitions = ComputeOp::Add.create_tensor_partitions(&inputs, &outputs, 5).unwrap();
    assert_eq!(partitions.len(), 5);

    let expected: &[OffsetsShapes] = &[
        (&[0, 0, 0, 0], &[1, 1, 3, 4]),
        (&[0, 1, 0, 0], &[1, 1, 3, 4]),
        (&[0, 2, 0, 0], &[1, 1, 3, 4]),
        (&[0, 3, 0, 0], &[1, 1, 3, 4]),
        (&[0, 4, 0, 0], &[1, 1, 3, 4]),
    ];
    check_partitions(&partitions, expected);
}

#[test]
fn can_partition_across_multiple_dimensions() {
    let inputs = vec![tensor(&[2, 3, 4]), tensor(&[2, 3, 4])];
    let outputs = vec![tensor(&[2, 3, 4])];

    let partitions = ComputeOp::Add.create_tensor_partitions(&inputs, &outputs, 5).unwrap();
    assert_eq!(partitions.len(), 6);

    let expected: &[OffsetsShapes] = &[
        (&[0, 0, 0], &[1, 1, 4]),
        (&[0, 1, 0], &[1, 1, 4]),
        (&[0, 2, 0], &[1, 1, 4]),
        (&[1, 0, 0], &[1, 1, 4]),
        (&[1, 1, 0], &[1, 1, 4]),
        (&[1, 2, 0], &[1, 1, 4]),
    ];
    check_partitions(&partitions, expected);
}

#[test]
fn test_broadcast_shapes() {
    let a = Shape::new(&[1, 1, 4, 5]).unwrap();
    let b = Shape::new(&[1, 1, 5, 10]).unwrap();
    let c = broadcast_shapes(&a, &b).unwrap();
    assert_eq!(c, Shape::new(&[1, 1, 4, 10]).unwrap());

    let a = Shape::new(&[3, 1, 4, 5]).unwrap();
    let b = Shape::new(&[1, 5, 5, 10]).unwrap();
    let c = broadcast_shapes(&a, &b).unwrap();
    assert_eq!(c, Shape::new(&[3, 5, 4, 10]).unwrap());
}

#[test]
fn validate_gemm() {
    let operator = OperatorGemm {};

    operator
        .validate_tensors(&[tensor(&[1, 4, 5]), tensor(&[1, 5, 8])], &[tensor(&[1, 4, 8])])
        .unwrap();

    operator
        .validate_tensors(&[tensor(&[3, 2, 10, 5]), tensor(&[5, 12])], &[tensor(&[3, 2, 10, 12])])
        .unwrap();
}

#[test]
fn invalid_broadcast_1() {
    let operator = OperatorGemm {};

    let err = operator
        .validate_tensors(&[tensor(&[2, 4, 5]), tensor(&[3, 5, 8])], &[tensor(&[1, 4, 8])])
        .unwrap_err();
    assert!(err.message().contains("cannot broadcast shapes"));
}

#[test]
fn invalid_broadcast_2() {
    let operator = OperatorGemm {};

    let err = operator
        .validate_tensors(&[tensor(&[4, 1, 4, 5]), tensor(&[3, 1, 5, 8])], &[tensor(&[1, 1, 4, 8])])
        .unwrap_err();
    assert!(err.message().contains("cannot broadcast shapes"));
}

#[test]
fn invalid_k() {
    let operator = OperatorGemm {};

    let err = operator
        .validate_tensors(&[tensor(&[9, 2, 4, 5]), tensor(&[9, 2, 4, 8])], &[tensor(&[9, 2, 4, 8])])
        .unwrap_err();
    assert!(err.message().contains("incompatible K"));
}

#[test]
fn partitions_prefer_outer_dims_before_m_or_n() {
    let input_tensors = vec![tensor(&[3, 20, 10, 5]), tensor(&[3, 20, 5, 12])];
    let output_tensors = vec![tensor(&[3, 20, 10, 12])];

    let partitions = ComputeOp::Gemm.create_tensor_partitions(&input_tensors, &output_tensors, 4).unwrap();
    assert_eq!(partitions.len(), 6);

    let expected: &[PartitionOffsetsShapes] = &[
        ((&[0, 0, 0, 0], &[1, 10, 10, 5]), (&[0, 0, 0, 0], &[1, 10, 5, 12]), (&[0, 0, 0, 0], &[1, 10, 10, 12])),
        ((&[0, 10, 0, 0], &[1, 10, 10, 5]), (&[0, 10, 0, 0], &[1, 10, 5, 12]), (&[0, 10, 0, 0], &[1, 10, 10, 12])),
        ((&[1, 0, 0, 0], &[1, 10, 10, 5]), (&[1, 0, 0, 0], &[1, 10, 5, 12]), (&[1, 0, 0, 0], &[1, 10, 10, 12])),
        ((&[1, 10, 0, 0], &[1, 10, 10, 5]), (&[1, 10, 0, 0], &[1, 10, 5, 12]), (&[1, 10, 0, 0], &[1, 10, 10, 12])),
        ((&[2, 0, 0, 0], &[1, 10, 10, 5]), (&[2, 0, 0, 0], &[1, 10, 5, 12]), (&[2, 0, 0, 0], &[1, 10, 10, 12])),
        ((&[2, 10, 0, 0], &[1, 10, 10, 5]), (&[2, 10, 0, 0], &[1, 10, 5, 12]), (&[2, 10, 0, 0], &[1, 10, 10, 12])),
    ];
    check_gemm_partitions(&partitions, expected);
}

#[test]
fn partitions_fall_back_to_m_when_no_outer_dims_are_available() {
    let inputs = vec![tensor(&[10, 5]), tensor(&[5, 12])];
    let outputs = vec![tensor(&[10, 12])];

    let partitions = ComputeOp::Gemm.create_tensor_partitions(&inputs, &outputs, 4).unwrap();
    assert_eq!(partitions.len(), 4);

    let expected_m_offsets = [0, 3, 6, 8];
    let expected_m_lengths = [3, 3, 2, 2];

    for (partition_idx, partition) in partitions.iter().enumerate() {
        let a_view = partition.inputs[0].as_ref().unwrap();
        let b_view = partition.inputs[1].as_ref().unwrap();
        let out_view = partition.outputs[0].as_ref().unwrap();

        assert_eq!(a_view.shape().dims(), &[expected_m_lengths[partition_idx], 5]);
        assert_eq!(a_view.offsets(), &[expected_m_offsets[partition_idx], 0]);

        assert_eq!(b_view.shape().dims(), &[5, 12]);
        assert_eq!(b_view.offsets(), &[0, 0]);

        assert_eq!(out_view.shape().dims(), &[expected_m_lengths[partition_idx], 12]);
        assert_eq!(out_view.offsets(), &[expected_m_offsets[partition_idx], 0]);
    }
}

#[test]
fn can_partition_m_and_n_when_needed() {
    let inputs = vec![tensor(&[4, 5]), tensor(&[5, 6])];
    let outputs = vec![tensor(&[4, 6])];

    let partitions = ComputeOp::Gemm.create_tensor_partitions(&inputs, &outputs, 8).unwrap();
    assert_eq!(partitions.len(), 8);

    let expected: &[PartitionOffsetsShapes] = &[
        ((&[0, 0], &[1, 5]), (&[0, 0], &[5, 3]), (&[0, 0], &[1, 3])),
        ((&[0, 0], &[1, 5]), (&[0, 3], &[5, 3]), (&[0, 3], &[1, 3])),
        ((&[1, 0], &[1, 5]), (&[0, 0], &[5, 3]), (&[1, 0], &[1, 3])),
        ((&[1, 0], &[1, 5]), (&[0, 3], &[5, 3]), (&[1, 3], &[1, 3])),
        ((&[2, 0], &[1, 5]), (&[0, 0], &[5, 3]), (&[2, 0], &[1, 3])),
        ((&[2, 0], &[1, 5]), (&[0, 3], &[5, 3]), (&[2, 3], &[1, 3])),
        ((&[3, 0], &[1, 5]), (&[0, 0], &[5, 3]), (&[3, 0], &[1, 3])),
        ((&[3, 0], &[1, 5]), (&[0, 3], &[5, 3]), (&[3, 3], &[1, 3])),
    ];
    check_gemm_partitions(&partitions, expected);
}

#[test]
fn compute_ops_are_named_for_traces() {
    assert_eq!(ComputeOp::Add.trace_name(), "add");
    assert_eq!(ComputeOp::Gemm.trace_name(), "gemm");
    assert_eq!(ComputeOp::MaxPool(OperatorMaxPool::new(&[3])).trace_name(), "maxpool");
    let unnamed = OperatorCustom { name: None, machine_ops: MachineOpCounts::default() };
    assert_eq!(ComputeOp::Custom(unnamed.clone()).trace_name(), "custom");
    let named = OperatorCustom { name: Some("softmax".to_string()), machine_ops: MachineOpCounts::default() };
    assert_eq!(ComputeOp::Custom(named.clone()).trace_name(), "softmax");

    let task = ComputeTaskConfig { id: "task0".to_string(), op: ComputeOp::Custom(unnamed), inputs: vec![], outputs: vec![] };
    assert_eq!(task.activity_name(), "task0");
    let task = ComputeTaskConfig { id: "task1".to_string(), op: ComputeOp::Custom(named), inputs: vec![], outputs: vec![] };
    assert_eq!(task.activity_name(), "softmax");
    let task = ComputeTaskConfig { id: "task2".to_string(), op: ComputeOp::Gemm, inputs: vec![], outputs: vec![] };
    assert_eq!(task.activity_name(), "task2");
    assert!(matches!(Task::ComputeTask { config: task }, Task::ComputeTask { .. }));
    assert!(matches!(Task::SyncTask { region: SyncRegion::Global }, Task::SyncTask { region: SyncRegion::Global }));
}

#[test]
fn custom_compute_op_keeps_one_partition() {
    let op = ComputeOp::Custom(OperatorCustom { name: None, machine_ops: MachineOpCounts::default() });
    let view = Some(TensorView::new_full(Tensor::new(&[6], &DataType::Int8, 0).unwrap()));
    let partitions = op.create_partitions(&[view.clone()], &[], 4).unwrap();
    assert_eq!(partitions.len(), 1);
    assert_eq!(partitions[0].working_set_bytes().unwrap(), 6);
    op.validate(&[view], &[]).unwrap();
    assert!(ComputeOp::Add.validate(&[tensor(&[2]).map(TensorView::new_full)], &[]).is_err());
}

#[test]
fn create_outputs_broadcasts_same_rank_inputs() {
    let op = OperatorAdd {};
    let inputs = vec![tensor(&[2, 3, 4]), tensor(&[1, 3, 1])];

    let outputs = op.create_outputs(&inputs).unwrap();

    assert_eq!(outputs.len(), 1);
    assert_eq!(outputs[0].as_ref().unwrap().shape(), &Shape::new(&[2, 3, 4]).unwrap());
}

#[test]
fn create_outputs_broadcasts_different_rank_inputs() {
    let op = OperatorAdd {};
    let inputs = vec![tensor(&[3, 4]), tensor(&[2, 1, 4])];

    let outputs = op.create_outputs(&inputs).unwrap();

    assert_eq!(outputs.len(), 1);
    assert_eq!(outputs[0].as_ref().unwrap().shape(), &Shape::new(&[2, 3, 4]).unwrap());
}

#[test]
fn create_outputs_rejects_non_broadcastable_inputs() {
    let op = OperatorAdd {};
    let inputs = vec![tensor(&[2, 3]), tensor(&[4, 3])];

    let err = op.create_outputs(&inputs).unwrap_err();

    assert!(err.message().contains("cannot broadcast shapes"));
}

#[test]
fn create_outputs_uses_gemm_m_and_n_before_broadcasting() {
    let operator = OperatorGemm {};

    let outputs = operator.create_outputs(&[tensor(&[1, 48, 1, 25]), tensor(&[1, 48, 25, 1])]).unwrap();

    assert_eq!(outputs[0].as_ref().unwrap().shape(), &Shape::new(&[1, 48, 1, 1]).unwrap());
}

#[test]
fn created_outputs_take_the_wider_type_at_address_zero() {
    let a = Some(Tensor::new(&[2, 2], &DataType::Fp32, 0x40).unwrap());
    let b = Some(Tensor::new(&[2, 2], &DataType::Int8, 0x80).unwrap());
    let out = OperatorAdd {}.create_outputs(&[a.clone(), b.clone()]).unwrap();
    let out = out[0].as_ref().unwrap();
    assert_eq!(*out.dtype(), DataType::Int8);
    assert_eq!(out.addr(), 0);
    let out = OperatorGemm {}.create_outputs(&[b, a]).unwrap();
    assert_eq!(*out[0].as_ref().unwrap().dtype(), DataType::Int8);
    assert_eq!(DataType::Bf16.wider(&DataType::Fp32), DataType::Bf16);
    assert_eq!(OperatorAdd {}.create_outputs(&[tensor(&[2])]).unwrap_err(), gwr_models::error::ModelError::WrongInputCount { found: 1 });
}

#[test]
fn tasks_need_enough_partitions_to_fit_the_sram() {
    assert_eq!(partitions_needed(0, 1024), 1);
    assert_eq!(partitions_needed(1024, 1024), 1);
    assert_eq!(partitions_needed(1025, 1024), 2);
    assert_eq!(partitions_needed(4096, 1000), 5);
    assert_eq!(partitions_needed(7, 0), 7);
}

#[test]
fn task_bytes_add_up_the_views_present() {
    let a = Some(TensorView::new_full(Tensor::new(&[4, 8], &DataType::Bf16, 0).unwrap()));
    let b = Some(TensorView::new(Tensor::new(&[6], &DataType::Int4, 0x100).unwrap(), &[3], &[1]).unwrap());
    let task = ComputeTaskConfig {
        id: "t".to_string(),
        op: ComputeOp::Add,
        inputs: vec![a, None],
        outputs: vec![b],
    };
    assert_eq!(task.num_bytes(), 64 + 2);
}

#[test]
fn compute_ops_count_machine_operations() {
    let a = tensor(&[2, 3]).map(TensorView::new_full);
    let b = tensor(&[2, 3]).map(TensorView::new_full);
    let out = tensor(&[2, 3]).map(TensorView::new_full);
    assert_eq!(
        ComputeOp::Add.compute_machine_ops(&[a.clone(), b], &[out.clone()]).unwrap(),
        MachineOpCounts { adds: 6, compares: 0, muls: 0 }
    );
    assert!(ComputeOp::Add.compute_machine_ops(&[a], &[out]).is_err());

    let counts = MachineOpCounts { adds: 1, compares: 2, muls: 3 };
    let custom = ComputeOp::Custom(OperatorCustom { name: None, machine_ops: counts });
    assert_eq!(custom.compute_machine_ops(&[], &[]).unwrap(), counts);

    let lhs = tensor(&[2, 4]).map(TensorView::new_full);
    let rhs = tensor(&[4, 3]).map(TensorView::new_full);
    let product = tensor(&[2, 3]).map(TensorView::new_full);
    let gemm = ComputeOp::Gemm.compute_machine_ops(&[lhs, rhs], &[product]).unwrap();
    assert_eq!(gemm.muls, 24);
    assert_eq!(gemm.adds, 18);
    assert_eq!(gemm.compares, 0);
}

#[test]
fn compute_op_gives_the_gemm_rhs_shape() {
    let a = Shape::new(&[2, 3, 4]).unwrap();
    assert_eq!(ComputeOp::gemm_rhs_shape(&a).unwrap().dims(), &[2, 4, 3]);
    assert!(ComputeOp::gemm_rhs_shape(&Shape::new(&[31]).unwrap()).is_err());
}

fn boxes_meet(a: &TensorView, b: &TensorView) -> bool {
    (0..a.offsets().len()).all(|d| {
        let (ao, an) = (a.offsets()[d], a.shape().dims()[d]);
        let (bo, bn) = (b.offsets()[d], b.shape().dims()[d]);
        ao < bo + bn && bo < ao + an
    })
}

fn check_outputs_tile(partitions: &[TensorPartition], output: &TensorView) {
    assert!(!partitions.is_empty());
    let outs: Vec<&TensorView> = partitions.iter().map(|p| p.outputs[0].as_ref().unwrap()).collect();
    for out in &outs {
        for d in 0..output.offsets().len() {
            assert!(output.offsets()[d] <= out.offsets()[d]);
            assert!(out.offsets()[d] + out.shape().dims()[d] <= output.offsets()[d] + output.shape().dims()[d]);
        }
    }
    for i in 0..outs.len() {
        for j in 0..outs.len() {
            if i != j {
                assert!(!boxes_meet(outs[i], outs[j]));
            }
        }
    }
    let total: usize = outs.iter().map(|v| v.num_elements()).sum();
    assert_eq!(total, output.num_elements());
}

#[test]
fn operator_partitions_tile_the_output_view() {
    let inputs = vec![tensor(&[5, 7]), tensor(&[5, 7])];
    let outputs = vec![tensor(&[5, 7])];
    let parts = ComputeOp::Add.create_tensor_partitions(&inputs, &outputs, 6).unwrap();
    let full = TensorView::new_full(outputs[0].clone().unwrap());
    check_outputs_tile(&parts, &full);

    let inputs = vec![tensor(&[2, 5, 3]), tensor(&[2, 3, 4])];
    let outputs = vec![tensor(&[2, 5, 4])];
    let parts = ComputeOp::Gemm.create_tensor_partitions(&inputs, &outputs, 7).unwrap();
    let full = TensorView::new_full(outputs[0].clone().unwrap());
    check_outputs_tile(&parts, &full);
}

#[test]
fn partition_steps_read_compute_then_write() {
    let inputs = vec![
        Some(Tensor::new(&[2, 3], &DataType::Int8, 0x100).unwrap()),
        Some(Tensor::new(&[2, 3], &DataType::Int8, 0x200).unwrap()),
    ];
    let outputs = vec![Some(Tensor::new(&[2, 3], &DataType::Int8, 0x300).unwrap())];
    let parts = ComputeOp::Add.create_tensor_partitions(&inputs, &outputs, 1).unwrap();
    assert_eq!(parts.len(), 1);
    let steps = ComputeOp::Add.partition_steps(&parts[0]).unwrap();
    assert_eq!(steps.reads, vec![(0x100, 6), (0x200, 6)]);
    assert_eq!(steps.machine_ops, MachineOpCounts { adds: 6, compares: 0, muls: 0 });
    assert_eq!(steps.writes, vec![(0x300, 6)]);
}
