//! The elementwise Add operator, with broadcasting between its inputs.
use vstd::prelude::*;

use crate::error::ModelError;
use crate::machine_ops::MachineOpCounts;
use crate::operators::{
    PartitionModel, choose_partition_dims, full_view_models, full_views, partition_dims_for, partition_each,
    partition_models, partitioned, partitioned_all, plan_specs, planned_partitions, specs_view, view_models,
};
use crate::partition::{DimPartition, TensorPartition, plan};
use crate::dtype::result_dtype;
use crate::tensor::{Shape, Tensor, TensorModel, dims_valid, padded_dim, shape_error, tensor_error, tensor_valid};
use crate::tensor_view::{TensorView, ViewModel};
use crate::util::{seq_product, slices_equal};

verus! {

/// The broadcast of two extents, if they are compatible.
pub open spec fn add_dim(a: usize, b: usize) -> Option<usize> {
    if a == b {
        Some(a)
    } else if a == 1 {
        Some(b)
    } else if b == 1 {
        Some(a)
    } else {
        None
    }
}

/// The rank of the broadcast of two shapes.
pub open spec fn broadcast_rank(a: Seq<usize>, b: Seq<usize>) -> nat {
    if a.len() >= b.len() { a.len() } else { b.len() }
}

/// The broadcast of two shapes aligned at their innermost dimension, if
/// every pair of extents is compatible.
pub open spec fn add_broadcast(a: Seq<usize>, b: Seq<usize>) -> Option<Seq<usize>> {
    let rank = broadcast_rank(a, b);
    if forall|i: int| 0 <= i < rank ==> (#[trigger] add_dim(padded_dim(a, rank as int, i), padded_dim(b, rank as int, i))) is Some {
        Some(Seq::new(rank, |i: int| add_dim(padded_dim(a, rank as int, i), padded_dim(b, rank as int, i))->Some_0))
    } else {
        None
    }
}

/// The shape that broadcasting gives, or why there is none.
pub open spec fn add_broadcast_result(a: Seq<usize>, b: Seq<usize>) -> Result<Seq<usize>, ModelError> {
    match add_broadcast(a, b) {
        None => Err(ModelError::CannotBroadcast),
        Some(dims) => if dims_valid(dims) { Ok(dims) } else { Err(shape_error(dims)) },
    }
}

/// Why an Add with these inputs and outputs is invalid, if it is.
pub open spec fn add_error(inputs: Seq<Option<ViewModel>>, outputs: Seq<Option<ViewModel>>) -> Option<ModelError> {
    if inputs.len() != 2 {
        Some(ModelError::WrongInputCount { found: inputs.len() as usize })
    } else if inputs[0] is None {
        Some(ModelError::MissingInput { index: 0 })
    } else if inputs[1] is None {
        Some(ModelError::MissingInput { index: 1 })
    } else if outputs.len() != 1 {
        Some(ModelError::WrongOutputCount { found: outputs.len() as usize })
    } else if outputs[0] is None {
        Some(ModelError::MissingOutput { index: 0 })
    } else {
        match add_broadcast_result(inputs[0]->Some_0.dims, inputs[1]->Some_0.dims) {
            Err(e) => Some(e),
            Ok(dims) => if dims != outputs[0]->Some_0.dims { Some(ModelError::InvalidOutputShape) } else { None },
        }
    }
}

/// The partitions of an operator whose inputs all follow the output: each
/// output partition applied to the output and to every input, in order.
pub open spec fn uniform_partitions(
    inputs: Seq<Option<ViewModel>>,
    output: ViewModel,
    rank: nat,
    specs: Seq<Seq<DimPartition>>,
) -> Result<Seq<PartitionModel>, ModelError>
    decreases specs.len(),
{
    if specs.len() == 0 {
        Ok(Seq::empty())
    } else {
        match uniform_partitions(inputs, output, rank, specs.drop_last()) {
            Err(e) => Err(e),
            Ok(prefix) => {
                let spec = specs.last();
                match partitioned(output, rank, spec) {
                    Err(e) => Err(e),
                    Ok(out) => match partitioned_all(inputs, rank, spec) {
                        Err(e) => Err(e),
                        Ok(ins) => Ok(prefix.push(PartitionModel { inputs: ins, outputs: seq![Some(out)] })),
                    },
                }
            },
        }
    }
}

/// The partitions an Add makes of valid views.
pub open spec fn add_partitions(inputs: Seq<Option<ViewModel>>, output: ViewModel, requested: nat) -> Result<Seq<PartitionModel>, ModelError> {
    let dims = output.dims;
    uniform_partitions(inputs, output, dims.len(), plan_specs(plan(dims, partition_dims_for(dims), requested), dims))
}

/// Broadcast two shapes aligned at their innermost dimension.
pub fn broadcast_shapes(a: &Shape, b: &Shape) -> (result: Result<Shape, ModelError>)
    ensures
        match result {
            Ok(shape) => add_broadcast_result(a@, b@) == Ok::<Seq<usize>, ModelError>(shape@),
            Err(e) => add_broadcast_result(a@, b@) == Err::<Seq<usize>, ModelError>(e),
        },
{
    let rank_a = a.num_dims();
    let rank_b = b.num_dims();
    let rank = if rank_a >= rank_b { rank_a } else { rank_b };
    let ghost r = broadcast_rank(a@, b@);
    let mut dims: Vec<usize> = Vec::new();
    let mut i: usize = 0;
    while i < rank
        invariant
            rank == r,
            r == broadcast_rank(a@, b@),
            i <= rank,
            dims@.len() == i,
            forall|j: int| 0 <= j < i ==> (#[trigger] add_dim(padded_dim(a@, r as int, j), padded_dim(b@, r as int, j))) == Some(dims@[j]),
        decreases rank - i,
    {
        let a_dim = a.get_dim(rank, i);
        let b_dim = b.get_dim(rank, i);
        let dim = if a_dim == b_dim {
            a_dim
        } else if a_dim == 1 {
            b_dim
        } else if b_dim == 1 {
            a_dim
        } else {
            proof {
                lemma_broadcast_fails(a@, b@, i as int);
            }
            return Err(ModelError::CannotBroadcast);
        };
        dims.push(dim);
        i = i + 1;
    }
    proof {
        assert(dims@ =~= Seq::new(r, |j: int| add_dim(padded_dim(a@, r as int, j), padded_dim(b@, r as int, j))->Some_0));
    }
    Shape::new(dims.as_slice())
}

/// One incompatible pair of extents rules out broadcasting.
proof fn lemma_broadcast_fails(a: Seq<usize>, b: Seq<usize>, i: int)
    requires
        0 <= i < broadcast_rank(a, b),
        add_dim(padded_dim(a, broadcast_rank(a, b) as int, i), padded_dim(b, broadcast_rank(a, b) as int, i)) is None,
    ensures
        add_broadcast(a, b) is None,
{
}

/// The output an Add of two tensors gives: the broadcast of their shapes,
/// of the wider of their types, at address zero; or why there is none.
pub open spec fn add_output(inputs: Seq<Option<TensorModel>>) -> Result<TensorModel, ModelError> {
    if inputs.len() != 2 {
        Err(ModelError::WrongInputCount { found: inputs.len() as usize })
    } else if inputs[0] is None {
        Err(ModelError::MissingInput { index: 0 })
    } else if inputs[1] is None {
        Err(ModelError::MissingInput { index: 1 })
    } else {
        let a = inputs[0]->Some_0;
        let b = inputs[1]->Some_0;
        match add_broadcast_result(a.dims, b.dims) {
            Err(e) => Err(e),
            Ok(dims) => Ok(TensorModel { id: None, dtype: result_dtype(a.dtype, b.dtype), dims, addr: 0 }),
        }
    }
}

/// The tensors of optional tensors, by view.
pub open spec fn tensor_models(tensors: Seq<Option<Tensor>>) -> Seq<Option<TensorModel>> {
    tensors.map_values(|t: Option<Tensor>| match t {
        Some(x) => Some(x@),
        None => None,
    })
}

/// What creating outputs from an expected output tensor gives: that tensor
/// alone when it is valid, else the error its validation reports.
pub open spec fn created_output(expected: Result<TensorModel, ModelError>, result: Result<Vec<Option<Tensor>>, ModelError>) -> bool {
    match expected {
        Err(e) => result == Err::<Vec<Option<Tensor>>, ModelError>(e),
        Ok(t) => if tensor_valid(t) {
            &&& result matches Ok(outs)
            &&& outs@.len() == 1
            &&& outs@[0] matches Some(o)
            &&& o@ == t
        } else {
            result == Err::<Vec<Option<Tensor>>, ModelError>(tensor_error(t.dims, t.dtype, t.addr))
        },
    }
}

/// The Add operator.
#[derive(Clone, Copy, Debug)]
pub struct OperatorAdd {}

impl OperatorAdd {
    /// Check the inputs and output of an Add.
    pub fn validate(&self, inputs: &[Option<TensorView>], outputs: &[Option<TensorView>]) -> (result: Result<(), ModelError>)
        ensures
            match add_error(view_models(inputs@), view_models(outputs@)) {
                Some(e) => result == Err::<(), ModelError>(e),
                None => result is Ok,
            },
    {
        let ghost ins = view_models(inputs@);
        let ghost outs = view_models(outputs@);
        if inputs.len() != 2 {
            return Err(ModelError::WrongInputCount { found: inputs.len() });
        }
        let input_a = match &inputs[0] {
            Some(a) => a,
            None => return Err(ModelError::MissingInput { index: 0 }),
        };
        let input_b = match &inputs[1] {
            Some(b) => b,
            None => return Err(ModelError::MissingInput { index: 1 }),
        };
        if outputs.len() != 1 {
            return Err(ModelError::WrongOutputCount { found: outputs.len() });
        }
        let output = match &outputs[0] {
            Some(o) => o,
            None => return Err(ModelError::MissingOutput { index: 0 }),
        };
        assert(ins[0] == Some(input_a@) && ins[1] == Some(input_b@) && outs[0] == Some(output@));
        let expected = match broadcast_shapes(input_a.shape(), input_b.shape()) {
            Ok(s) => s,
            Err(e) => return Err(e),
        };
        if !slices_equal(expected.dims(), output.shape().dims()) {
            return Err(ModelError::InvalidOutputShape);
        }
        Ok(())
    }

    /// The output of an Add of two tensors.
    pub fn create_outputs(&self, inputs: &[Option<Tensor>]) -> (result: Result<Vec<Option<Tensor>>, ModelError>)
        ensures
            created_output(add_output(tensor_models(inputs@)), result),
    {
        if inputs.len() != 2 {
            return Err(ModelError::WrongInputCount { found: inputs.len() });
        }
        let input_a = match &inputs[0] {
            Some(a) => a,
            None => return Err(ModelError::MissingInput { index: 0 }),
        };
        let input_b = match &inputs[1] {
            Some(b) => b,
            None => return Err(ModelError::MissingInput { index: 1 }),
        };
        assert(tensor_models(inputs@)[0] == Some(input_a@) && tensor_models(inputs@)[1] == Some(input_b@));
        let shape = match broadcast_shapes(input_a.shape(), input_b.shape()) {
            Ok(s) => s,
            Err(e) => return Err(e),
        };
        let dtype = input_a.dtype().wider(input_b.dtype());
        let output = match Tensor::from_shape(shape, &dtype, 0) {
            Ok(t) => t,
            Err(e) => return Err(e),
        };
        let mut outputs: Vec<Option<Tensor>> = Vec::new();
        outputs.push(Some(output));
        Ok(outputs)
    }

    /// Check the inputs and output of an Add given as whole tensors.
    pub fn validate_tensors(&self, inputs: &[Option<Tensor>], outputs: &[Option<Tensor>]) -> (result: Result<(), ModelError>)
        ensures
            match add_error(full_view_models(inputs@), full_view_models(outputs@)) {
                Some(e) => result == Err::<(), ModelError>(e),
                None => result is Ok,
            },
    {
        let input_views = full_views(inputs);
        let output_views = full_views(outputs);
        self.validate(input_views.as_slice(), output_views.as_slice())
    }

    /// The number of floating-point operations: one add per output element.
    pub fn compute_flops(&self, inputs: &[Option<TensorView>], outputs: &[Option<TensorView>]) -> (result: Result<usize, ModelError>)
        ensures
            match add_error(view_models(inputs@), view_models(outputs@)) {
                Some(e) => result == Err::<usize, ModelError>(e),
                None => result == Ok::<usize, ModelError>(seq_product(view_models(outputs@)[0]->Some_0.dims) as usize),
            },
    {
        match self.validate(inputs, outputs) {
            Err(e) => Err(e),
            Ok(()) => {
                let output = match &outputs[0] {
                    Some(o) => o,
                    None => {
                        proof { assert(false); }
                        return Err(ModelError::MissingOutput { index: 0 });
                    },
                };
                Ok(output.num_elements())
            },
        }
    }

    /// The machine operations: one add per output element.
    pub fn compute_machine_ops(&self, inputs: &[Option<TensorView>], outputs: &[Option<TensorView>]) -> (result: Result<MachineOpCounts, ModelError>)
        ensures
            match add_error(view_models(inputs@), view_models(outputs@)) {
                Some(e) => result == Err::<MachineOpCounts, ModelError>(e),
                None => result == Ok::<MachineOpCounts, ModelError>(MachineOpCounts {
                    adds: seq_product(view_models(outputs@)[0]->Some_0.dims) as usize,
                    compares: 0,
                    muls: 0,
                }),
            },
    {
        match self.compute_flops(inputs, outputs) {
            Err(e) => Err(e),
            Ok(adds) => Ok(MachineOpCounts { adds, compares: 0, muls: 0 }),
        }
    }

    /// Split an Add into at least `num_partitions` partitions where the
    /// output allows: each output partition comes with the parts of both
    /// inputs that it reads.
    pub fn partition_views(
        &self,
        input_views: &[Option<TensorView>],
        output_views: &[Option<TensorView>],
        num_partitions: usize,
    ) -> (result: Result<Vec<TensorPartition>, ModelError>)
        requires
            output_views@.len() == 1 && output_views@[0] is Some ==> output_views@[0]->Some_0@.dims.len() >= 1,
        ensures
            match add_error(view_models(input_views@), view_models(output_views@)) {
                Some(e) => result == Err::<Vec<TensorPartition>, ModelError>(e),
                None => {
                    let expected = add_partitions(
                        view_models(input_views@),
                        view_models(output_views@)[0]->Some_0,
                        num_partitions as nat,
                    );
                    match result {
                        Ok(parts) => expected == Ok::<Seq<PartitionModel>, ModelError>(partition_models(parts@)),
                        Err(e) => expected == Err::<Seq<PartitionModel>, ModelError>(e),
                    }
                },
            },
    {
        match self.validate(input_views, output_views) {
            Err(e) => return Err(e),
            Ok(()) => {},
        }
        let output_view = match &output_views[0] {
            Some(o) => o,
            None => {
                proof { assert(false); }
                return Err(ModelError::MissingOutput { index: 0 });
            },
        };
        let ghost ins = view_models(input_views@);
        assert(view_models(output_views@)[0] == Some(output_view@));
        let output_dims = output_view.shape().dims();
        let rank = output_view.num_dims();
        let partition_dims = choose_partition_dims(output_dims);
        proof {
            crate::operators::lemma_partition_dims_valid(output_dims@);
        }
        let specs = planned_partitions(output_dims, partition_dims.as_slice(), num_partitions);
        let ghost all_specs = specs_view(specs@);
        let mut partitions: Vec<TensorPartition> = Vec::new();
        let mut k: usize = 0;
        proof {
            assert(all_specs.take(0) =~= Seq::<Seq<DimPartition>>::empty());
            assert(partition_models(partitions@) =~= Seq::<PartitionModel>::empty());
        }
        while k < specs.len()
            invariant
                k <= specs@.len(),
                all_specs == specs_view(specs@),
                all_specs == plan_specs(plan(output_view@.dims, partition_dims_for(output_view@.dims), num_partitions as nat), output_view@.dims),
                rank == output_view@.dims.len(),
                ins == view_models(input_views@),
                add_error(view_models(input_views@), view_models(output_views@)) is None,
                view_models(output_views@)[0] == Some(output_view@),
                uniform_partitions(ins, output_view@, rank as nat, all_specs.take(k as int))
                    == Ok::<Seq<PartitionModel>, ModelError>(partition_models(partitions@)),
            decreases specs@.len() - k,
        {
            let spec = specs[k].as_slice();
            proof {
                assert(all_specs.take(k + 1).drop_last() =~= all_specs.take(k as int));
                assert(all_specs.take(k + 1).last() == spec@);
            }
            let output_part = match TensorView::from_output_partitions_on_view(output_view, rank, spec) {
                Ok(v) => v,
                Err(e) => {
                    proof {
                        assert(partitioned(output_view@, rank as nat, spec@) == Err::<ViewModel, ModelError>(e));
                        assert(uniform_partitions(ins, output_view@, rank as nat, all_specs.take(k + 1)) == Err::<Seq<PartitionModel>, ModelError>(e));
                        lemma_uniform_partitions_error(ins, output_view@, rank as nat, all_specs, k as int);
                    }
                    return Err(e);
                },
            };
            let inputs = match partition_each(input_views, rank, spec) {
                Ok(v) => v,
                Err(e) => {
                    proof {
                        assert(partitioned(output_view@, rank as nat, spec@) == Ok::<ViewModel, ModelError>(output_part@));
                        assert(uniform_partitions(ins, output_view@, rank as nat, all_specs.take(k + 1)) == Err::<Seq<PartitionModel>, ModelError>(e));
                        lemma_uniform_partitions_error(ins, output_view@, rank as nat, all_specs, k as int);
                    }
                    return Err(e);
                },
            };
            let mut outputs: Vec<Option<TensorView>> = Vec::new();
            outputs.push(Some(output_part));
            let ghost before = partition_models(partitions@);
            let part = TensorPartition { inputs, outputs };
            proof {
                assert(view_models(part.outputs@) =~= seq![Some(output_part@)]);
            }
            partitions.push(part);
            proof {
                assert(partition_models(partitions@) =~= before.push(crate::operators::partition_model(part)));
            }
            k = k + 1;
        }
        assert(all_specs.take(specs@.len() as int) =~= all_specs);
        Ok(partitions)
    }
}

/// A failure at one output partition is the failure of the whole.
proof fn lemma_uniform_partitions_error(
    inputs: Seq<Option<ViewModel>>,
    output: ViewModel,
    rank: nat,
    specs: Seq<Seq<DimPartition>>,
    k: int,
)
    requires
        0 <= k < specs.len(),
        uniform_partitions(inputs, output, rank, specs.take(k + 1)) is Err,
    ensures
        uniform_partitions(inputs, output, rank, specs) == uniform_partitions(inputs, output, rank, specs.take(k + 1)),
    decreases specs.len() - k,
{
    if k + 1 < specs.len() {
        assert(specs.take(k + 2).drop_last() =~= specs.take(k + 1));
        lemma_uniform_partitions_error(inputs, output, rank, specs, k + 1);
    } else {
        assert(specs.take(k + 1) =~= specs);
    }
}

/// Each partition that an operator with uniform partitions makes writes the
/// output part of its output partition.
pub(crate) proof fn lemma_uniform_outputs(
    inputs: Seq<Option<ViewModel>>,
    output: ViewModel,
    rank: nat,
    specs: Seq<Seq<DimPartition>>,
    ps: Seq<PartitionModel>,
)
    requires
        uniform_partitions(inputs, output, rank, specs) == Ok::<Seq<PartitionModel>, ModelError>(ps),
    ensures
        ps.len() == specs.len(),
        forall|i: int|
            #![trigger ps[i]]
            0 <= i < ps.len() ==> ps[i].outputs.len() == 1 && ps[i].outputs[0] is Some && partitioned(output, rank, specs[i]) == Ok::<ViewModel, ModelError>(ps[i].outputs[0]->Some_0),
    decreases specs.len(),
{
    if specs.len() > 0 {
        let prefix = uniform_partitions(inputs, output, rank, specs.drop_last())->Ok_0;
        lemma_uniform_outputs(inputs, output, rank, specs.drop_last(), prefix);
        let spec = specs.last();
        let out = partitioned(output, rank, spec)->Ok_0;
        let ins = partitioned_all(inputs, rank, spec)->Ok_0;
        assert(ps == prefix.push(PartitionModel { inputs: ins, outputs: seq![Some(out)] }));
        assert forall|i: int| #![trigger ps[i]] 0 <= i < ps.len() implies ps[i].outputs.len() == 1 && ps[i].outputs[0] is Some && partitioned(output, rank, specs[i]) == Ok::<ViewModel, ModelError>(ps[i].outputs[0]->Some_0) by {
            if i < prefix.len() {
                assert(ps[i] == prefix[i]);
                assert(specs.drop_last()[i] == specs[i]);
            } else {
                assert(specs[i] == spec);
            }
        }
    } else {
        assert(ps.len() == 0);
    }
}

} // verus!
