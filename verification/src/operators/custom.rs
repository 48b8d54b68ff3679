//! A custom operator with caller-provided machine operation counts.
use vstd::prelude::*;

use crate::error::ModelError;
use crate::machine_ops::MachineOpCounts;
use crate::operators::{PartitionModel, clone_views, partition_models, view_models};
use crate::partition::TensorPartition;
use crate::tensor_view::TensorView;

verus! {

/// An operator that performs a given number of machine operations.
#[derive(Clone, Debug)]
pub struct OperatorCustom {
    /// An optional name for reports.
    pub name: Option<String>,
    /// The operations the operator performs.
    pub machine_ops: MachineOpCounts,
}

impl OperatorCustom {
    /// Any inputs and outputs are accepted.
    pub fn validate(&self, inputs: &[Option<TensorView>], outputs: &[Option<TensorView>]) -> (result: Result<(), ModelError>)
        ensures
            result is Ok,
    {
        Ok(())
    }

    /// The given machine operations, whatever the views.
    pub fn compute_machine_ops(&self, inputs: &[Option<TensorView>], outputs: &[Option<TensorView>]) -> (result: Result<MachineOpCounts, ModelError>)
        ensures
            result == Ok::<MachineOpCounts, ModelError>(self.machine_ops),
    {
        Ok(self.machine_ops)
    }

    /// A custom operator is never split: its one partition holds all the
    /// views.
    pub fn partition_views(
        &self,
        input_views: &[Option<TensorView>],
        output_views: &[Option<TensorView>],
        num_partitions: usize,
    ) -> (result: Result<Vec<TensorPartition>, ModelError>)
        ensures
            match result {
                Ok(parts) => partition_models(parts@) == seq![PartitionModel {
                    inputs: view_models(input_views@),
                    outputs: view_models(output_views@),
                }],
                Err(_) => false,
            },
    {
        let part = TensorPartition { inputs: clone_views(input_views), outputs: clone_views(output_views) };
        let mut parts: Vec<TensorPartition> = Vec::new();
        parts.push(part);
        proof {
            assert(partition_models(parts@) =~= seq![crate::operators::partition_model(part)]);
        }
        Ok(parts)
    }
}

} // verus!
