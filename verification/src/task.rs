//! The tasks a processing element runs: compute tasks, which apply an
//! operator to tensor views, and synchronisation tasks.
use vstd::prelude::*;

use crate::dtype::bits_of;
use crate::error::ModelError;
use crate::lsu::{accesses_of, view_accesses};
use crate::machine_ops::MachineOpCounts;
use crate::operators::add::{OperatorAdd, add_error, add_partitions, lemma_uniform_outputs};
use crate::operators::custom::OperatorCustom;
use crate::operators::gemm::{
    OperatorGemm, gemm_check, gemm_counts, gemm_counts_fit, gemm_partitions, lemma_gemm_outputs, rhs_dims,
};
use crate::operators::maxpool::{
    OperatorMaxPool, kernels_fit_input, lemma_pool_outputs, lemma_pool_partition_dims_valid, maxpool_error,
    maxpool_partitions, maxpool_view_comparisons, pool_output, pool_partition_dims, spatial_partitionable,
};
use crate::operators::{
    PartitionModel, full_view_models, full_views, lemma_outputs_elements, lemma_outputs_tile, lemma_partition_dims_valid,
    output_elements, partition_dims_for, partition_models, partitions_tile, plan_specs, view_models,
};
use crate::partition::plan;
use crate::partition::TensorPartition;
use crate::tensor::{HasShape, Shape, Tensor, packed_bytes};
use crate::util::seq_product;
use crate::tensor_view::{TensorView, ViewModel, view_valid};

verus! {

/// The operator of a compute task.
#[derive(Clone, Debug)]
pub enum ComputeOp {
    Add,
    Gemm,
    MaxPool(OperatorMaxPool),
    Custom(OperatorCustom),
}

/// A compute task: an operator applied to input and output views.
#[derive(Clone, Debug)]
pub struct ComputeTaskConfig {
    /// A name for reports.
    pub id: String,
    pub op: ComputeOp,
    pub inputs: Vec<Option<TensorView>>,
    pub outputs: Vec<Option<TensorView>>,
}

/// The processing elements a synchronisation waits for.
#[derive(Clone, Copy, Debug)]
pub enum SyncRegion {
    Local,
    Global,
}

/// A task of a processing element.
#[derive(Clone, Debug)]
pub enum Task {
    ComputeTask { config: ComputeTaskConfig },
    SyncTask { region: SyncRegion },
}

/// The name of a custom operator, or `fallback` when it has none.
pub open spec fn name_or(name: Option<String>, fallback: Seq<char>) -> Seq<char> {
    match name {
        Some(n) => n@,
        None => fallback,
    }
}

/// The operator's requirement on the views it is given.
pub open spec fn op_accepts(op: ComputeOp, inputs: Seq<Option<ViewModel>>, outputs: Seq<Option<ViewModel>>) -> bool {
    match op {
        ComputeOp::Add => outputs.len() == 1 && outputs[0] is Some ==> outputs[0]->Some_0.dims.len() >= 1,
        ComputeOp::Gemm => gemm_check(inputs, outputs) != Err::<(), Option<ModelError>>(None),
        ComputeOp::MaxPool(pool) => kernels_fit_input(pool@, inputs),
        ComputeOp::Custom(_) => true,
    }
}

/// The first problem the operator finds with the views, if any.
pub open spec fn op_error(op: ComputeOp, inputs: Seq<Option<ViewModel>>, outputs: Seq<Option<ViewModel>>) -> Option<ModelError> {
    match op {
        ComputeOp::Add => add_error(inputs, outputs),
        ComputeOp::Gemm => match gemm_check(inputs, outputs) {
            Ok(()) => None,
            Err(e) => e,
        },
        ComputeOp::MaxPool(pool) => maxpool_error(pool@, inputs, outputs),
        ComputeOp::Custom(_) => None,
    }
}

/// The partitions the operator splits the views into, or the error it
/// reports.
pub open spec fn op_partitions(
    op: ComputeOp,
    inputs: Seq<Option<ViewModel>>,
    outputs: Seq<Option<ViewModel>>,
    requested: nat,
) -> Result<Seq<PartitionModel>, ModelError> {
    match op_error(op, inputs, outputs) {
        Some(e) => Err(e),
        None => match op {
            ComputeOp::Add => add_partitions(inputs, outputs[0]->Some_0, requested),
            ComputeOp::Gemm => gemm_partitions(inputs, outputs[0]->Some_0, requested),
            ComputeOp::MaxPool(pool) => maxpool_partitions(pool@, inputs, outputs, requested),
            ComputeOp::Custom(_) => Ok(seq![PartitionModel { inputs, outputs }]),
        },
    }
}

/// The machine operations the operator performs on the views, or the error
/// it reports.
pub open spec fn op_machine_ops(op: ComputeOp, inputs: Seq<Option<ViewModel>>, outputs: Seq<Option<ViewModel>>) -> Result<MachineOpCounts, ModelError> {
    match op_error(op, inputs, outputs) {
        Some(e) => Err(e),
        None => match op {
            ComputeOp::Add => Ok(MachineOpCounts { adds: seq_product(outputs[0]->Some_0.dims) as usize, compares: 0, muls: 0 }),
            ComputeOp::Gemm => {
                let (muls, adds) = gemm_counts(inputs, outputs);
                Ok(MachineOpCounts { adds: adds as usize, compares: 0, muls: muls as usize })
            },
            ComputeOp::MaxPool(pool) => Ok(
                MachineOpCounts { adds: 0, compares: maxpool_view_comparisons(pool@, inputs, outputs) as usize, muls: 0 },
            ),
            ComputeOp::Custom(operator) => Ok(operator.machine_ops),
        },
    }
}

/// The operator's counts of machine operations fit in `usize`.
pub open spec fn op_counts_fit(op: ComputeOp, inputs: Seq<Option<ViewModel>>, outputs: Seq<Option<ViewModel>>) -> bool {
    match op {
        ComputeOp::Gemm => gemm_counts_fit(inputs, outputs),
        ComputeOp::MaxPool(pool) => maxpool_error(pool@, inputs, outputs) is None ==> maxpool_view_comparisons(
            pool@,
            inputs,
            outputs,
        ) <= usize::MAX,
        _ => true,
    }
}

/// The packed bytes of the views that are present.
pub open spec fn views_bytes(views: Seq<Option<ViewModel>>) -> nat
    decreases views.len(),
{
    if views.len() == 0 {
        0
    } else {
        views_bytes(views.drop_last()) + match views.last() {
            Some(v) => packed_bytes(seq_product(v.dims), bits_of(v.tensor.dtype)),
            None => 0,
        }
    }
}

/// The partitions a task needs so that each fits in the SRAM: its bytes
/// over the SRAM size, rounded up, and at least one; an SRAM of no bytes
/// counts as one byte.
pub open spec fn partitions_for(total_bytes: nat, sram_bytes: nat) -> nat {
    let sram = if sram_bytes == 0 { 1 } else { sram_bytes };
    let n = (total_bytes + sram - 1) / (sram as int);
    if n < 1 {
        1
    } else {
        n as nat
    }
}

/// The number of partitions a task of `total_bytes` needs on a processing
/// element with `sram_bytes` of SRAM.
pub fn partitions_needed(total_bytes: usize, sram_bytes: usize) -> (n: usize)
    ensures
        n == partitions_for(total_bytes as nat, sram_bytes as nat),
{
    let sram = if sram_bytes == 0 { 1 } else { sram_bytes };
    let whole = total_bytes / sram;
    let part = total_bytes % sram;
    proof {
        let t = total_bytes as int;
        let b = sram as int;
        assert(t == whole * b + part) by (nonlinear_arith)
            requires
                b >= 1,
                whole == t / b,
                part == t % b,
        ;
        if part == 0 {
            assert((t + b - 1) / b == whole) by (nonlinear_arith)
                requires
                    b >= 1,
                    t == whole * b,
                    whole >= 0,
            ;
        } else {
            assert((t + b - 1) / b == whole + 1) by (nonlinear_arith)
                requires
                    b >= 1,
                    t == whole * b + part,
                    1 <= part < b,
                    whole >= 0,
            ;
            assert(whole + 1 <= usize::MAX) by (nonlinear_arith)
                requires
                    t == whole * b + part,
                    1 <= part < b,
                    t <= usize::MAX,
                    whole >= 0,
            ;
        }
    }
    let n = if part == 0 { whole } else { whole + 1 };
    if n < 1 {
        1
    } else {
        n
    }
}

/// The packed bytes of the views that are present.
fn sum_view_bytes(views: &[Option<TensorView>]) -> (n: usize)
    requires
        views_bytes(view_models(views@)) <= usize::MAX,
    ensures
        n == views_bytes(view_models(views@)),
{
    let mut total: usize = 0;
    let mut i: usize = 0;
    while i < views.len()
        invariant
            i <= views@.len(),
            views_bytes(view_models(views@)) <= usize::MAX,
            total == views_bytes(view_models(views@).subrange(0, i as int)),
        decreases views@.len() - i,
    {
        proof {
            lemma_views_bytes_prefix(view_models(views@), i as int);
        }
        match &views[i] {
            Some(v) => {
                total = total + v.num_packed_bytes();
            },
            None => {},
        }
        i = i + 1;
    }
    proof {
        assert(view_models(views@).subrange(0, views@.len() as int) =~= view_models(views@));
    }
    total
}

/// The bytes of a prefix grow by the bytes of the next view, and never pass
/// those of the whole.
proof fn lemma_views_bytes_prefix(views: Seq<Option<ViewModel>>, i: int)
    requires
        0 <= i < views.len(),
    ensures
        views_bytes(views.subrange(0, i + 1)) == views_bytes(views.subrange(0, i)) + match views[i] {
            Some(v) => packed_bytes(seq_product(v.dims), bits_of(v.tensor.dtype)),
            None => 0,
        },
        views_bytes(views.subrange(0, i + 1)) <= views_bytes(views),
    decreases views.len() - i,
{
    assert(views.subrange(0, i + 1).drop_last() =~= views.subrange(0, i));
    if i + 1 == views.len() {
        assert(views.subrange(0, i + 1) =~= views);
    } else {
        lemma_views_bytes_prefix(views, i + 1);
    }
}

impl ComputeTaskConfig {
    /// The packed bytes of the task's input and output views.
    pub fn num_bytes(&self) -> (n: usize)
        requires
            views_bytes(view_models(self.inputs@)) + views_bytes(view_models(self.outputs@)) <= usize::MAX,
        ensures
            n == views_bytes(view_models(self.inputs@)) + views_bytes(view_models(self.outputs@)),
    {
        sum_view_bytes(self.inputs.as_slice()) + sum_view_bytes(self.outputs.as_slice())
    }

    /// The name a task is reported under: a named custom operator's name,
    /// else the task's id.
    pub fn activity_name(&self) -> (name: &str)
        ensures
            name@ == match self.op {
                ComputeOp::Custom(operator) => name_or(operator.name, self.id@),
                _ => self.id@,
            },
    {
        match &self.op {
            ComputeOp::Custom(operator) => match &operator.name {
                Some(name) => name.as_str(),
                None => self.id.as_str(),
            },
            _ => self.id.as_str(),
        }
    }
}

impl ComputeOp {
    /// The operator's name in traces.
    pub fn trace_name(&self) -> (name: &str)
        ensures
            name@ == match *self {
                ComputeOp::Add => "add"@,
                ComputeOp::Gemm => "gemm"@,
                ComputeOp::MaxPool(_) => "maxpool"@,
                ComputeOp::Custom(operator) => name_or(operator.name, "custom"@),
            },
    {
        match self {
            ComputeOp::Add => "add",
            ComputeOp::Gemm => "gemm",
            ComputeOp::MaxPool(_) => "maxpool",
            ComputeOp::Custom(operator) => match &operator.name {
                Some(name) => name.as_str(),
                None => "custom",
            },
        }
    }

    /// Check the views against the operator.
    pub fn validate(&self, input_views: &[Option<TensorView>], output_views: &[Option<TensorView>]) -> (result: Result<(), ModelError>)
        requires
            op_accepts(*self, view_models(input_views@), view_models(output_views@)),
        ensures
            match op_error(*self, view_models(input_views@), view_models(output_views@)) {
                Some(e) => result == Err::<(), ModelError>(e),
                None => result is Ok,
            },
    {
        match self {
            ComputeOp::Add => OperatorAdd {}.validate(input_views, output_views),
            ComputeOp::Gemm => OperatorGemm {}.validate(input_views, output_views),
            ComputeOp::MaxPool(operator) => operator.validate(input_views, output_views),
            ComputeOp::Custom(operator) => operator.validate(input_views, output_views),
        }
    }

    /// The shape of a Gemm's second input that pairs with `input` as its
    /// first.
    pub fn gemm_rhs_shape<T: HasShape>(input: &T) -> (result: Result<Shape, ModelError>)
        ensures
            match result {
                Ok(shape) => input.shape_dims().len() >= 2 && shape@ == rhs_dims(input.shape_dims()),
                Err(e) => input.shape_dims().len() < 2 && e == ModelError::RankBelowTwo,
            },
    {
        crate::operators::gemm::gemm_rhs_shape(input)
    }

    /// The machine operations the operator performs on the views.
    pub fn compute_machine_ops(&self, inputs: &[Option<TensorView>], outputs: &[Option<TensorView>]) -> (result: Result<
        MachineOpCounts,
        ModelError,
    >)
        requires
            op_accepts(*self, view_models(inputs@), view_models(outputs@)),
            op_counts_fit(*self, view_models(inputs@), view_models(outputs@)),
        ensures
            result == op_machine_ops(*self, view_models(inputs@), view_models(outputs@)),
    {
        match self {
            ComputeOp::Add => OperatorAdd {}.compute_machine_ops(inputs, outputs),
            ComputeOp::Gemm => OperatorGemm {}.compute_machine_ops(inputs, outputs),
            ComputeOp::MaxPool(operator) => operator.compute_machine_ops(inputs, outputs),
            ComputeOp::Custom(operator) => operator.compute_machine_ops(inputs, outputs),
        }
    }

    /// Split the views into at least `num_partitions` partitions where the
    /// operator allows.
    pub fn create_partitions(
        &self,
        input_views: &[Option<TensorView>],
        output_views: &[Option<TensorView>],
        num_partitions: usize,
    ) -> (result: Result<Vec<TensorPartition>, ModelError>)
        requires
            op_accepts(*self, view_models(input_views@), view_models(output_views@)),
        ensures
            match result {
                Ok(parts) => op_partitions(*self, view_models(input_views@), view_models(output_views@), num_partitions as nat)
                    == Ok::<Seq<PartitionModel>, ModelError>(partition_models(parts@)),
                Err(e) => op_partitions(*self, view_models(input_views@), view_models(output_views@), num_partitions as nat)
                    == Err::<Seq<PartitionModel>, ModelError>(e),
            },
    {
        match self {
            ComputeOp::Add => OperatorAdd {}.partition_views(input_views, output_views, num_partitions),
            ComputeOp::Gemm => OperatorGemm {}.partition_views(input_views, output_views, num_partitions),
            ComputeOp::MaxPool(operator) => operator.partition_views(input_views, output_views, num_partitions),
            ComputeOp::Custom(operator) => operator.partition_views(input_views, output_views, num_partitions),
        }
    }

    /// Split whole tensors into at least `num_partitions` partitions where
    /// the operator allows.
    pub fn create_tensor_partitions(
        &self,
        inputs: &[Option<Tensor>],
        outputs: &[Option<Tensor>],
        num_partitions: usize,
    ) -> (result: Result<Vec<TensorPartition>, ModelError>)
        requires
            op_accepts(*self, full_view_models(inputs@), full_view_models(outputs@)),
        ensures
            match result {
                Ok(parts) => op_partitions(*self, full_view_models(inputs@), full_view_models(outputs@), num_partitions as nat)
                    == Ok::<Seq<PartitionModel>, ModelError>(partition_models(parts@)),
                Err(e) => op_partitions(*self, full_view_models(inputs@), full_view_models(outputs@), num_partitions as nat)
                    == Err::<Seq<PartitionModel>, ModelError>(e),
            },
    {
        let input_views = full_views(inputs);
        let output_views = full_views(outputs);
        self.create_partitions(input_views.as_slice(), output_views.as_slice(), num_partitions)
    }
}

/// Where an Add, a Gemm or a MaxPool splits views it accepts into
/// partitions, the output views of the partitions tile the operator's output
/// view: there is at least one, each lies inside it, no two share an
/// element, and together they hold as many elements as it does.
pub proof fn lemma_partitions_tile_output(
    op: ComputeOp,
    inputs: Seq<Option<ViewModel>>,
    outputs: Seq<Option<ViewModel>>,
    requested: nat,
    ps: Seq<PartitionModel>,
)
    requires
        op is Add || op is Gemm || op is MaxPool,
        op_accepts(op, inputs, outputs),
        forall|i: int|
            0 <= i < outputs.len() && (#[trigger] outputs[i]) is Some ==> view_valid(outputs[i]->Some_0)
                && outputs[i]->Some_0.dims.len() <= usize::MAX,
        op_partitions(op, inputs, outputs, requested) == Ok::<Seq<PartitionModel>, ModelError>(ps),
    ensures
        outputs.len() >= 1,
        outputs[0] is Some,
        ps.len() >= 1,
        partitions_tile(ps, outputs[0]->Some_0),
        output_elements(ps, ps.len() as int) == seq_product(outputs[0]->Some_0.dims),
{
    assert(op_error(op, inputs, outputs) is None);
    match op {
        ComputeOp::Add => {
            let output = outputs[0]->Some_0;
            let dims = output.dims;
            lemma_partition_dims_valid(dims);
            let specs = plan_specs(plan(dims, partition_dims_for(dims), requested), dims);
            lemma_uniform_outputs(inputs, output, dims.len(), specs, ps);
            lemma_outputs_tile(output, partition_dims_for(dims), requested, ps);
            lemma_outputs_elements(output, partition_dims_for(dims), requested, ps);
        },
        ComputeOp::Gemm => {
            let output = outputs[0]->Some_0;
            let dims = output.dims;
            lemma_partition_dims_valid(dims);
            let specs = plan_specs(plan(dims, partition_dims_for(dims), requested), dims);
            let c = if inputs.len() > 2 { inputs[2] } else { None };
            lemma_gemm_outputs(inputs[0]->Some_0, inputs[1]->Some_0, c, output, specs, ps);
            lemma_outputs_tile(output, partition_dims_for(dims), requested, ps);
            lemma_outputs_elements(output, partition_dims_for(dims), requested, ps);
        },
        ComputeOp::MaxPool(pool) => {
            let output = outputs[0]->Some_0;
            let dims = output.dims;
            let params = pool_output(pool@, inputs[0]->Some_0.dims)->Ok_0.1;
            let candidates = pool_partition_dims(dims, spatial_partitionable(pool@, params), dims.len() as int);
            lemma_pool_partition_dims_valid(dims, spatial_partitionable(pool@, params), dims.len() as int);
            let specs = plan_specs(plan(dims, candidates, requested), dims);
            lemma_pool_outputs(inputs[0]->Some_0, params, outputs, dims.len(), specs, ps);
            lemma_outputs_tile(output, candidates, requested, ps);
            lemma_outputs_elements(output, candidates, requested, ps);
        },
        ComputeOp::Custom(_) => {},
    }
}

/// What one partition of a compute task does, in order: it reads its inputs,
/// performs its machine operations, and writes its outputs.
#[derive(Clone, Debug)]
pub struct PartitionSteps {
    pub reads: Vec<(u64, usize)>,
    pub machine_ops: MachineOpCounts,
    pub writes: Vec<(u64, usize)>,
}

/// The reads, machine operations and writes of a partition, or the first
/// error met in that order: an input's address, the operator's check, or an
/// output's address.
pub open spec fn steps_of(op: ComputeOp, inputs: Seq<Option<ViewModel>>, outputs: Seq<Option<ViewModel>>) -> Result<
    (Seq<(u64, usize)>, MachineOpCounts, Seq<(u64, usize)>),
    ModelError,
> {
    match accesses_of(inputs) {
        Err(e) => Err(e),
        Ok(reads) => match op_machine_ops(op, inputs, outputs) {
            Err(e) => Err(e),
            Ok(ops) => match accesses_of(outputs) {
                Err(e) => Err(e),
                Ok(writes) => Ok((reads, ops, writes)),
            },
        },
    }
}

impl ComputeOp {
    /// The steps one partition takes: the accesses that read its present
    /// inputs, the machine operations of its compute, and the accesses that
    /// write its present outputs.
    pub fn partition_steps(&self, partition: &TensorPartition) -> (result: Result<PartitionSteps, ModelError>)
        requires
            op_accepts(*self, view_models(partition.inputs@), view_models(partition.outputs@)),
            op_counts_fit(*self, view_models(partition.inputs@), view_models(partition.outputs@)),
        ensures
            match steps_of(*self, view_models(partition.inputs@), view_models(partition.outputs@)) {
                Ok((reads, ops, writes)) => result matches Ok(s) && s.reads@ == reads && s.machine_ops == ops && s.writes@
                    == writes,
                Err(e) => result == Err::<PartitionSteps, ModelError>(e),
            },
    {
        let reads = view_accesses(partition.inputs.as_slice())?;
        let machine_ops = self.compute_machine_ops(partition.inputs.as_slice(), partition.outputs.as_slice())?;
        let writes = view_accesses(partition.outputs.as_slice())?;
        Ok(PartitionSteps { reads, machine_ops, writes })
    }
}

} // verus!
