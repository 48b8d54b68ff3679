//! The Gemm operator: batched matrix products `(M, K) x (K, N) -> (M, N)`
//! over the innermost two dimensions, with broadcasting over the outer ones
//! and an optional addend C.
use vstd::prelude::*;

use crate::error::ModelError;
use crate::machine_ops::MachineOpCounts;
use crate::dtype::result_dtype;
use crate::operators::add::{add_dim, broadcast_rank, created_output, tensor_models};
use crate::operators::{
    PartitionModel, choose_partition_dims, full_view_models, full_views, partition_dims_for, partition_models,
    partitioned, plan_specs, planned_partitions, specs_view, view_models,
};
use crate::partition::{DimPartition, TensorPartition, plan};
use crate::tensor::{HasShape, Shape, Tensor, TensorModel, dims_valid, padded_dim, shape_error};
use crate::tensor_view::{TensorView, ViewModel};
use crate::util::{all_positive, seq_product};

verus! {

/// Position of M in input A, counted from the innermost dimension.
pub const INPUT_A_OFFSET_M: usize = 2;
/// Position of K in input A, counted from the innermost dimension.
pub const INPUT_A_OFFSET_K: usize = 1;
/// Position of K in input B, counted from the innermost dimension.
pub const INPUT_B_OFFSET_K: usize = 2;
/// Position of N in input B, counted from the innermost dimension.
pub const INPUT_B_OFFSET_N: usize = 1;
/// Position of M in the output, counted from the innermost dimension.
pub const OUTPUT_OFFSET_M: usize = 2;
/// Position of N in the output, counted from the innermost dimension.
pub const OUTPUT_OFFSET_N: usize = 1;

/// Extent `i` counted from the innermost dimension (one-based), at least one.
pub open spec fn inner_dim(dims: Seq<usize>, i: int) -> usize {
    let d = dims[dims.len() - i];
    if d >= 1 { d } else { 1 }
}

/// The value of a dimension counted from the innermost one, starting at one.
pub fn get_inner_dim<T: HasShape>(has_shape: &T, i: usize) -> (dim: usize)
    requires
        1 <= i <= has_shape.shape_dims().len(),
    ensures
        dim == inner_dim(has_shape.shape_dims(), i as int),
{
    let rank = has_shape.num_dims();
    let dims = has_shape.shape().dims();
    let d = dims[rank - i];
    if d >= 1 { d } else { 1 }
}

/// The shape of an input B for a Gemm with input A of shape `a`: K and M
/// of A become B's K and N.
pub open spec fn rhs_dims(a: Seq<usize>) -> Seq<usize> {
    let rank = a.len() as int;
    a.update(rank - 2, inner_dim(a, 1)).update(rank - 1, inner_dim(a, 2))
}

/// Swapping the last two extents keeps the product.
proof fn lemma_swap_last_two(dims: Seq<usize>)
    requires
        dims.len() >= 2,
    ensures
        seq_product(dims.update(dims.len() - 2, dims[dims.len() - 1]).update(dims.len() - 1, dims[dims.len() - 2]))
            == seq_product(dims),
{
    let r = dims.len() as int;
    let s = dims.update(r - 2, dims[r - 1]).update(r - 1, dims[r - 2]);
    let p = dims.drop_last().drop_last();
    assert(s.drop_last().drop_last() =~= p);
    assert(s.drop_last().last() == dims[r - 1]);
    assert(dims.drop_last().last() == dims[r - 2]);
    let x = seq_product(p);
    let a = dims[r - 2] as nat;
    let b = dims[r - 1] as nat;
    assert(seq_product(s) == seq_product(s.drop_last()) * (s.last() as nat));
    assert(seq_product(s.drop_last()) == x * b);
    assert(seq_product(dims) == seq_product(dims.drop_last()) * b);
    assert(dims.drop_last().drop_last() =~= p);
    assert(seq_product(dims.drop_last()) == x * a);
    assert(s.last() == dims[r - 2]);
    assert(x * b * a == x * a * b) by (nonlinear_arith);
}

/// Construct an input B shape for a Gemm consuming `input_a` as input A.
pub fn gemm_rhs_shape<T: HasShape>(input_a: &T) -> (result: Result<Shape, ModelError>)
    ensures
        match result {
            Ok(shape) => input_a.shape_dims().len() >= 2 && shape@ == rhs_dims(input_a.shape_dims()),
            Err(e) => input_a.shape_dims().len() < 2 && e == ModelError::RankBelowTwo,
        },
{
    let rank = input_a.num_dims();
    if rank < 2 {
        return Err(ModelError::RankBelowTwo);
    }
    let k = get_inner_dim(input_a, INPUT_A_OFFSET_K);
    let m = get_inner_dim(input_a, INPUT_A_OFFSET_M);
    let shape = input_a.shape();
    let mut rhs = crate::util::copy_slice(shape.dims());
    rhs.set(rank - INPUT_B_OFFSET_K, k);
    rhs.set(rank - INPUT_B_OFFSET_N, m);
    proof {
        let a = input_a.shape_dims();
        assert(rhs@ =~= rhs_dims(a));
        lemma_swap_last_two(a);
        assert(rhs@ =~= a.update(a.len() - 2, a[a.len() - 1]).update(a.len() - 1, a[a.len() - 2]));
        assert(all_positive(rhs@)) by {
            assert forall|i: int| 0 <= i < rhs@.len() implies rhs@[i] > 0 by {
                if i < a.len() - 2 {
                    assert(rhs@[i] == a[i]);
                }
            }
        }
    }
    Shape::new(rhs.as_slice())
}

/// The extent of dimension `i` of the output of two Gemm operands of rank
/// `rank`: M comes from A, N from B, and outer extents broadcast.
pub open spec fn gemm_dim(a: usize, b: usize, rank: int, i: int) -> Option<usize> {
    if i == rank - 2 {
        Some(a)
    } else if i == rank - 1 {
        Some(b)
    } else {
        add_dim(a, b)
    }
}

/// The output shape of a Gemm of operands of shapes `a` and `b`, or why
/// there is none.
pub open spec fn gemm_broadcast(a: Seq<usize>, b: Seq<usize>) -> Result<Seq<usize>, ModelError> {
    let rank = broadcast_rank(a, b);
    if rank < 2 {
        Err(ModelError::OperandsBelowTwoDims)
    } else if forall|i: int| 0 <= i < rank ==> (#[trigger] gemm_dim(padded_dim(a, rank as int, i), padded_dim(b, rank as int, i), rank as int, i)) is Some {
        let dims = Seq::new(rank, |i: int| gemm_dim(padded_dim(a, rank as int, i), padded_dim(b, rank as int, i), rank as int, i)->Some_0);
        if dims_valid(dims) { Ok(dims) } else { Err(shape_error(dims)) }
    } else {
        Err(ModelError::CannotBroadcast)
    }
}

/// One incompatible pair of outer extents rules out broadcasting.
proof fn lemma_gemm_broadcast_fails(a: Seq<usize>, b: Seq<usize>, i: int)
    requires
        broadcast_rank(a, b) >= 2,
        0 <= i < broadcast_rank(a, b),
        gemm_dim(padded_dim(a, broadcast_rank(a, b) as int, i), padded_dim(b, broadcast_rank(a, b) as int, i), broadcast_rank(a, b) as int, i) is None,
    ensures
        gemm_broadcast(a, b) == Err::<Seq<usize>, ModelError>(ModelError::CannotBroadcast),
{
}

/// Broadcast the shapes of two Gemm operands.
pub fn broadcast_shapes(a: &Shape, b: &Shape) -> (result: Result<Shape, ModelError>)
    ensures
        match result {
            Ok(shape) => gemm_broadcast(a@, b@) == Ok::<Seq<usize>, ModelError>(shape@),
            Err(e) => gemm_broadcast(a@, b@) == Err::<Seq<usize>, ModelError>(e),
        },
{
    let rank_a = a.num_dims();
    let rank_b = b.num_dims();
    let rank = if rank_a >= rank_b { rank_a } else { rank_b };
    if rank < 2 {
        return Err(ModelError::OperandsBelowTwoDims);
    }
    let ghost r = broadcast_rank(a@, b@);
    let mut dims: Vec<usize> = Vec::new();
    let mut i: usize = 0;
    while i < rank
        invariant
            rank == r,
            r == broadcast_rank(a@, b@),
            r >= 2,
            i <= rank,
            dims@.len() == i,
            forall|j: int| 0 <= j < i ==> (#[trigger] gemm_dim(padded_dim(a@, r as int, j), padded_dim(b@, r as int, j), r as int, j)) == Some(dims@[j]),
        decreases rank - i,
    {
        let a_dim = a.get_dim(rank, i);
        let b_dim = b.get_dim(rank, i);
        let dim = if i == rank - OUTPUT_OFFSET_M {
            a_dim
        } else if i == rank - OUTPUT_OFFSET_N {
            b_dim
        } else if a_dim == b_dim {
            a_dim
        } else if a_dim == 1 {
            b_dim
        } else if b_dim == 1 {
            a_dim
        } else {
            proof {
                lemma_gemm_broadcast_fails(a@, b@, i as int);
            }
            return Err(ModelError::CannotBroadcast);
        };
        dims.push(dim);
        i = i + 1;
    }
    proof {
        assert(dims@ =~= Seq::new(r, |j: int| gemm_dim(padded_dim(a@, r as int, j), padded_dim(b@, r as int, j), r as int, j)->Some_0));
    }
    Shape::new(dims.as_slice())
}

/// The outcome of checking the inputs of a Gemm: `Err(None)` marks inputs
/// on which the check would index past the end of a shape.
pub open spec fn gemm_inputs_check(inputs: Seq<Option<ViewModel>>) -> Result<(), Option<ModelError>> {
    if inputs.len() < 2 {
        Err(None)
    } else if inputs[0] is None {
        Err(Some(ModelError::MissingInput { index: 0 }))
    } else if inputs[1] is None {
        Err(Some(ModelError::MissingInput { index: 1 }))
    } else {
        let a = inputs[0]->Some_0.dims;
        let b = inputs[1]->Some_0.dims;
        match gemm_broadcast(a, b) {
            Err(e) => Err(Some(e)),
            Ok(out) => if a.len() < 1 || b.len() < 2 {
                Err(None)
            } else if inner_dim(a, 1) != inner_dim(b, 2) {
                Err(Some(ModelError::IncompatibleK))
            } else if inputs.len() == 2 {
                Ok(())
            } else if inputs.len() == 3 && inputs[2] is Some {
                let c = inputs[2]->Some_0.dims;
                if c.len() < 2 {
                    Err(None)
                } else {
                    let c_m = inner_dim(c, 2);
                    let c_n = inner_dim(c, 1);
                    if (c_m != 1 && c_m != inner_dim(out, 2)) || (c_n != 1 && c_n != inner_dim(out, 1)) {
                        Err(Some(ModelError::IncompatibleInputC))
                    } else {
                        Ok(())
                    }
                }
            } else {
                Err(Some(ModelError::WrongInputCount { found: inputs.len() as usize }))
            },
        }
    }
}

/// Whether outer dimension `i` of the output disagrees with the inputs.
pub open spec fn outer_dim_mismatch(a: Seq<usize>, b: Seq<usize>, out: Seq<usize>, rank: int, i: int) -> bool {
    let dim_a = padded_dim(a, rank, i);
    let dim_b = padded_dim(b, rank, i);
    let dim_in = if dim_a == 1 { dim_b } else { dim_a };
    dim_in != 1 && padded_dim(out, rank, i) != dim_in
}

/// The first outer dimension below `k` where the output disagrees with the
/// inputs, if any.
pub open spec fn first_outer_mismatch(a: Seq<usize>, b: Seq<usize>, out: Seq<usize>, rank: int, k: int) -> Option<int>
    decreases k,
{
    if k <= 0 {
        None
    } else {
        match first_outer_mismatch(a, b, out, rank, k - 1) {
            Some(i) => Some(i),
            None => if outer_dim_mismatch(a, b, out, rank, k - 1) { Some(k - 1) } else { None },
        }
    }
}

/// The outcome of checking a Gemm's inputs and output: `Err(None)` marks
/// inputs on which the check would index past the end of a shape.
pub open spec fn gemm_check(inputs: Seq<Option<ViewModel>>, outputs: Seq<Option<ViewModel>>) -> Result<(), Option<ModelError>> {
    match gemm_inputs_check(inputs) {
        Err(e) => Err(e),
        Ok(()) => if outputs.len() != 1 {
            Err(Some(ModelError::WrongOutputCount { found: outputs.len() as usize }))
        } else if outputs[0] is None {
            Err(Some(ModelError::MissingOutput { index: 0 }))
        } else {
            let a = inputs[0]->Some_0.dims;
            let b = inputs[1]->Some_0.dims;
            let out = outputs[0]->Some_0.dims;
            let rank = broadcast_rank(a, b);
            if rank != out.len() {
                Err(Some(ModelError::IncompatibleRanks))
            } else {
                match first_outer_mismatch(a, b, out, rank as int, rank - 2) {
                    Some(i) => Err(Some(ModelError::InvalidOutputDimension { dimension: i as usize })),
                    None => if a.len() < 2 {
                        Err(None)
                    } else if inner_dim(a, 2) != inner_dim(out, 2) || inner_dim(b, 1) != inner_dim(out, 1) {
                        Err(Some(ModelError::InvalidMN))
                    } else {
                        Ok(())
                    },
                }
            }
        },
    }
}

/// The multiplications and additions of a valid Gemm: `M * N * K` products
/// and `M * N * (K - 1)` accumulations for each outer index, and one more
/// add per output element when there is an addend C.
pub open spec fn gemm_counts(inputs: Seq<Option<ViewModel>>, outputs: Seq<Option<ViewModel>>) -> (nat, nat) {
    let a = inputs[0]->Some_0.dims;
    let b = inputs[1]->Some_0.dims;
    let out = outputs[0]->Some_0.dims;
    let m = inner_dim(a, 2) as nat;
    let k = inner_dim(a, 1) as nat;
    let n = inner_dim(b, 1) as nat;
    let matmuls = seq_product(out.take(out.len() - 2));
    let muls = m * n * k * matmuls;
    let adds = m * n * ((k - 1) as nat) * matmuls + if inputs.len() == 3 { seq_product(out) } else { 0 };
    (muls, adds)
}

/// Whether the operation counts of a valid Gemm fit in `usize`.
pub open spec fn gemm_counts_fit(inputs: Seq<Option<ViewModel>>, outputs: Seq<Option<ViewModel>>) -> bool {
    gemm_check(inputs, outputs) is Ok ==> {
        let (muls, adds) = gemm_counts(inputs, outputs);
        muls + adds <= usize::MAX
    }
}

/// The Gemm operator.
#[derive(Clone, Copy, Debug)]
pub struct OperatorGemm {}

/// The first outer dimension where the output disagrees with the inputs.
fn find_outer_mismatch(a: &TensorView, b: &TensorView, output: &TensorView, rank: usize) -> (found: Option<usize>)
    requires
        rank >= 2,
        rank == broadcast_rank(a@.dims, b@.dims),
        rank == output@.dims.len(),
    ensures
        match found {
            Some(i) => first_outer_mismatch(a@.dims, b@.dims, output@.dims, rank as int, rank - 2) == Some(i as int),
            None => first_outer_mismatch(a@.dims, b@.dims, output@.dims, rank as int, rank - 2) is None,
        },
{
    let mut i: usize = 0;
    while i < rank - 2
        invariant
            rank >= 2,
            i <= rank - 2,
            first_outer_mismatch(a@.dims, b@.dims, output@.dims, rank as int, i as int) is None,
        decreases rank - 2 - i,
    {
        let dim_a = a.get_dim(rank, i);
        let dim_b = b.get_dim(rank, i);
        let dim_in = if dim_a == 1 { dim_b } else { dim_a };
        let dim_out = output.get_dim(rank, i);
        if dim_in != 1 && dim_out != dim_in {
            proof {
                lemma_first_mismatch_persists(a@.dims, b@.dims, output@.dims, rank as int, i as int + 1, rank - 2);
            }
            return Some(i);
        }
        i = i + 1;
    }
    None
}

/// A mismatch found below `k` stays the first one below any larger bound.
proof fn lemma_first_mismatch_persists(a: Seq<usize>, b: Seq<usize>, out: Seq<usize>, rank: int, k: int, j: int)
    requires
        0 <= k <= j,
        first_outer_mismatch(a, b, out, rank, k) is Some,
    ensures
        first_outer_mismatch(a, b, out, rank, j) == first_outer_mismatch(a, b, out, rank, k),
    decreases j - k,
{
    if j > k {
        lemma_first_mismatch_persists(a, b, out, rank, k, j - 1);
    }
}

/// The output a Gemm of these tensors gives: the broadcast of the operands'
/// shapes with M of A and N of B innermost, of the wider of their types, at
/// address zero; or why there is none.
pub open spec fn gemm_output(inputs: Seq<Option<TensorModel>>) -> Result<TensorModel, ModelError> {
    match gemm_inputs_check(full_view_models_of(inputs)) {
        Err(e) => Err(e->Some_0),
        Ok(()) => {
            let a = inputs[0]->Some_0;
            let b = inputs[1]->Some_0;
            match gemm_broadcast(a.dims, b.dims) {
                Err(e) => Err(e),
                Ok(dims) => Ok(TensorModel { id: None, dtype: result_dtype(a.dtype, b.dtype), dims, addr: 0 }),
            }
        },
    }
}

/// The full views of optional tensors given by their models.
pub open spec fn full_view_models_of(tensors: Seq<Option<TensorModel>>) -> Seq<Option<ViewModel>> {
    tensors.map_values(|t: Option<TensorModel>| match t {
        Some(x) => Some(ViewModel { tensor: x, dims: x.dims, offsets: Seq::new(x.dims.len(), |j: int| 0usize) }),
        None => None,
    })
}

impl OperatorGemm {
    /// The output of a Gemm of these tensors.
    pub fn create_outputs(&self, inputs: &[Option<Tensor>]) -> (result: Result<Vec<Option<Tensor>>, ModelError>)
        requires
            gemm_inputs_check(full_view_models(inputs@)) != Err::<(), Option<ModelError>>(None),
        ensures
            created_output(gemm_output(tensor_models(inputs@)), result),
    {
        proof {
            assert(full_view_models_of(tensor_models(inputs@)) =~= full_view_models(inputs@));
        }
        let views = full_views(inputs);
        match Self::validate_inputs(views.as_slice()) {
            Ok(()) => {},
            Err(e) => return Err(e),
        }
        let input_a = match &inputs[0] {
            Some(a) => a,
            None => {
                proof {
                    assert(false);
                }
                return Err(ModelError::MissingInput { index: 0 });
            },
        };
        let input_b = match &inputs[1] {
            Some(b) => b,
            None => {
                proof {
                    assert(false);
                }
                return Err(ModelError::MissingInput { index: 1 });
            },
        };
        assert(tensor_models(inputs@)[0] == Some(input_a@) && tensor_models(inputs@)[1] == Some(input_b@));
        let shape = match broadcast_shapes(input_a.shape(), input_b.shape()) {
            Ok(s) => s,
            Err(e) => return Err(e),
        };
        let dtype = input_a.dtype().wider(input_b.dtype());
        let output = match Tensor::from_shape(shape, &dtype, 0) {
            Ok(t) => t,
            Err(e) => return Err(e),
        };
        let mut outputs: Vec<Option<Tensor>> = Vec::new();
        outputs.push(Some(output));
        Ok(outputs)
    }

    /// Check the inputs of a Gemm against each other.
    fn validate_inputs(inputs: &[Option<TensorView>]) -> (result: Result<(), ModelError>)
        requires
            gemm_inputs_check(view_models(inputs@)) != Err::<(), Option<ModelError>>(None),
        ensures
            match gemm_inputs_check(view_models(inputs@)) {
                Ok(()) => result is Ok,
                Err(e) => result == Err::<(), ModelError>(e->Some_0),
            },
    {
        let ghost ins = view_models(inputs@);
        let input_a = match &inputs[0] {
            Some(a) => a,
            None => return Err(ModelError::MissingInput { index: 0 }),
        };
        let input_b = match &inputs[1] {
            Some(b) => b,
            None => return Err(ModelError::MissingInput { index: 1 }),
        };
        assert(ins[0] == Some(input_a@) && ins[1] == Some(input_b@));
        let output_shape = match broadcast_shapes(input_a.shape(), input_b.shape()) {
            Ok(s) => s,
            Err(e) => return Err(e),
        };
        let k_a = get_inner_dim(input_a, INPUT_A_OFFSET_K);
        let k_b = get_inner_dim(input_b, INPUT_B_OFFSET_K);
        if k_a != k_b {
            return Err(ModelError::IncompatibleK);
        }
        if inputs.len() == 2 {
            return Ok(());
        }
        if inputs.len() == 3 {
            match &inputs[2] {
                Some(input_c) => {
                    assert(ins[2] == Some(input_c@));
                    let out_m = get_inner_dim(&output_shape, OUTPUT_OFFSET_M);
                    let out_n = get_inner_dim(&output_shape, OUTPUT_OFFSET_N);
                    let c_m = get_inner_dim(input_c, OUTPUT_OFFSET_M);
                    let c_n = get_inner_dim(input_c, OUTPUT_OFFSET_N);
                    if (c_m != 1 && c_m != out_m) || (c_n != 1 && c_n != out_n) {
                        return Err(ModelError::IncompatibleInputC);
                    }
                    return Ok(());
                },
                None => {},
            }
        }
        Err(ModelError::WrongInputCount { found: inputs.len() })
    }

    /// Check the inputs and output of a Gemm.
    pub fn validate(&self, inputs: &[Option<TensorView>], outputs: &[Option<TensorView>]) -> (result: Result<(), ModelError>)
        requires
            gemm_check(view_models(inputs@), view_models(outputs@)) != Err::<(), Option<ModelError>>(None),
        ensures
            match gemm_check(view_models(inputs@), view_models(outputs@)) {
                Ok(()) => result is Ok,
                Err(e) => result == Err::<(), ModelError>(e->Some_0),
            },
    {
        let ghost ins = view_models(inputs@);
        let ghost outs = view_models(outputs@);
        match Self::validate_inputs(inputs) {
            Err(e) => return Err(e),
            Ok(()) => {},
        }
        if outputs.len() != 1 {
            return Err(ModelError::WrongOutputCount { found: outputs.len() });
        }
        let output = match &outputs[0] {
            Some(o) => o,
            None => return Err(ModelError::MissingOutput { index: 0 }),
        };
        let input_a = match &inputs[0] {
            Some(a) => a,
            None => {
                proof { assert(false); }
                return Err(ModelError::MissingInput { index: 0 });
            },
        };
        let input_b = match &inputs[1] {
            Some(b) => b,
            None => {
                proof { assert(false); }
                return Err(ModelError::MissingInput { index: 1 });
            },
        };
        assert(ins[0] == Some(input_a@) && ins[1] == Some(input_b@) && outs[0] == Some(output@));
        let rank_a = input_a.num_dims();
        let rank_b = input_b.num_dims();
        let rank_inputs = if rank_a >= rank_b { rank_a } else { rank_b };
        let rank_output = output.num_dims();
        if rank_inputs != rank_output {
            return Err(ModelError::IncompatibleRanks);
        }
        match find_outer_mismatch(input_a, input_b, output, rank_inputs) {
            Some(i) => return Err(ModelError::InvalidOutputDimension { dimension: i }),
            None => {},
        }
        let input_m = get_inner_dim(input_a, INPUT_A_OFFSET_M);
        let input_n = get_inner_dim(input_b, INPUT_B_OFFSET_N);
        let output_m = get_inner_dim(output, OUTPUT_OFFSET_M);
        let output_n = get_inner_dim(output, OUTPUT_OFFSET_N);
        if input_m != output_m || input_n != output_n {
            return Err(ModelError::InvalidMN);
        }
        Ok(())
    }

    /// Check the inputs and output of a Gemm given as whole tensors.
    pub fn validate_tensors(&self, inputs: &[Option<Tensor>], outputs: &[Option<Tensor>]) -> (result: Result<(), ModelError>)
        requires
            gemm_check(full_view_models(inputs@), full_view_models(outputs@)) != Err::<(), Option<ModelError>>(None),
        ensures
            match gemm_check(full_view_models(inputs@), full_view_models(outputs@)) {
                Ok(()) => result is Ok,
                Err(e) => result == Err::<(), ModelError>(e->Some_0),
            },
    {
        let input_views = full_views(inputs);
        let output_views = full_views(outputs);
        self.validate(input_views.as_slice(), output_views.as_slice())
    }

    /// The multiplications and additions of a Gemm.
    fn op_counts(&self, inputs: &[Option<TensorView>], outputs: &[Option<TensorView>]) -> (result: Result<(usize, usize), ModelError>)
        requires
            gemm_check(view_models(inputs@), view_models(outputs@)) != Err::<(), Option<ModelError>>(None),
            gemm_counts_fit(view_models(inputs@), view_models(outputs@)),
        ensures
            match gemm_check(view_models(inputs@), view_models(outputs@)) {
                Ok(()) => {
                    let (muls, adds) = gemm_counts(view_models(inputs@), view_models(outputs@));
                    result == Ok::<(usize, usize), ModelError>((muls as usize, adds as usize))
                },
                Err(e) => result == Err::<(usize, usize), ModelError>(e->Some_0),
            },
    {
        match self.validate(inputs, outputs) {
            Err(e) => return Err(e),
            Ok(()) => {},
        }
        let ghost ins = view_models(inputs@);
        let ghost outs = view_models(outputs@);
        let (input_a, input_b, output) = match (&inputs[0], &inputs[1], &outputs[0]) {
            (Some(a), Some(b), Some(o)) => (a, b, o),
            _ => {
                proof { assert(false); }
                return Err(ModelError::MissingOutput { index: 0 });
            },
        };
        assert(ins[0] == Some(input_a@) && ins[1] == Some(input_b@) && outs[0] == Some(output@));
        let m = get_inner_dim(input_a, INPUT_A_OFFSET_M);
        let k = get_inner_dim(input_a, INPUT_A_OFFSET_K);
        let n = get_inner_dim(input_b, INPUT_B_OFFSET_N);
        let out_dims = output.shape().dims();
        let rank = output.num_dims();
        let ghost out = output@.dims;
        proof {
            crate::util::lemma_product_suffix_le(out, rank - 2);
            crate::util::lemma_product_positive(out.take(rank - 2));
        }
        let mut matmuls: usize = 1;
        let mut i: usize = 0;
        assert(out.take(0) =~= Seq::<usize>::empty());
        while i < rank - 2
            invariant
                rank >= 2,
                out == out_dims@,
                rank == out.len(),
                dims_valid(out),
                i <= rank - 2,
                matmuls == seq_product(out.take(i as int)),
            decreases rank - 2 - i,
        {
            proof {
                crate::util::lemma_product_take_step(out, i as int);
                crate::util::lemma_product_prefix_le(out, i as int + 1);
            }
            matmuls = matmuls * out_dims[i];
            i = i + 1;
        }
        let ghost (muls, adds) = gemm_counts(ins, outs);
        proof {
            let mm = seq_product(out.take(rank - 2));
            assert(m * n * k * mm >= m * n && m * n * k * mm >= m * n * k) by (nonlinear_arith)
                requires m >= 1, n >= 1, k >= 1, mm >= 1;
            assert(m * n * ((k - 1) as nat) <= m * n * k) by (nonlinear_arith) requires k >= 1;
            assert(m * n * ((k - 1) as nat) * mm <= m * n * k * mm) by (nonlinear_arith)
                requires m * n * ((k - 1) as nat) <= m * n * k;
        }
        let num_muls = m * n * k * matmuls;
        let num_matmul_adds = m * n * (k - 1) * matmuls;
        let num_c_adds = if inputs.len() == 3 { output.num_elements() } else { 0 };
        Ok((num_muls, num_matmul_adds + num_c_adds))
    }

    /// The number of floating-point operations: products and additions.
    pub fn compute_flops(&self, inputs: &[Option<TensorView>], outputs: &[Option<TensorView>]) -> (result: Result<usize, ModelError>)
        requires
            gemm_check(view_models(inputs@), view_models(outputs@)) != Err::<(), Option<ModelError>>(None),
            gemm_counts_fit(view_models(inputs@), view_models(outputs@)),
        ensures
            match gemm_check(view_models(inputs@), view_models(outputs@)) {
                Ok(()) => {
                    let (muls, adds) = gemm_counts(view_models(inputs@), view_models(outputs@));
                    result == Ok::<usize, ModelError>((muls + adds) as usize)
                },
                Err(e) => result == Err::<usize, ModelError>(e->Some_0),
            },
    {
        match self.op_counts(inputs, outputs) {
            Err(e) => Err(e),
            Ok((muls, adds)) => Ok(muls + adds),
        }
    }

    /// The machine operations of a Gemm.
    pub fn compute_machine_ops(&self, inputs: &[Option<TensorView>], outputs: &[Option<TensorView>]) -> (result: Result<MachineOpCounts, ModelError>)
        requires
            gemm_check(view_models(inputs@), view_models(outputs@)) != Err::<(), Option<ModelError>>(None),
            gemm_counts_fit(view_models(inputs@), view_models(outputs@)),
        ensures
            match gemm_check(view_models(inputs@), view_models(outputs@)) {
                Ok(()) => {
                    let (muls, adds) = gemm_counts(view_models(inputs@), view_models(outputs@));
                    result == Ok::<MachineOpCounts, ModelError>(MachineOpCounts { adds: adds as usize, compares: 0, muls: muls as usize })
                },
                Err(e) => result == Err::<MachineOpCounts, ModelError>(e->Some_0),
            },
    {
        match self.op_counts(inputs, outputs) {
            Err(e) => Err(e),
            Ok((muls, adds)) => Ok(MachineOpCounts { adds, compares: 0, muls }),
        }
    }
}

/// An output partition without the entries for dimension `dim`.
pub open spec fn without_dim(spec: Seq<DimPartition>, dim: usize) -> Seq<DimPartition>
    decreases spec.len(),
{
    if spec.len() == 0 {
        Seq::empty()
    } else {
        let prefix = without_dim(spec.drop_last(), dim);
        if spec.last().dim != dim {
            prefix.push(spec.last())
        } else {
            prefix
        }
    }
}

/// Whether an output partition splits dimension `dim`.
pub open spec fn splits_dim(spec: Seq<DimPartition>, dim: usize) -> bool {
    exists|i: int| 0 <= i < spec.len() && (#[trigger] spec[i]).dim == dim
}

/// Whether an output partition splits a dimension other than M and N.
pub open spec fn splits_outer(spec: Seq<DimPartition>, m_dim: usize, n_dim: usize) -> bool {
    exists|i: int| 0 <= i < spec.len() && (#[trigger] spec[i]).dim != m_dim && spec[i].dim != n_dim
}

/// One partition of a Gemm: the output part, the rows of A and columns of
/// B it needs (all of them where M or N is not split), and the part of C.
pub open spec fn gemm_partition(
    a: ViewModel,
    b: ViewModel,
    c: Option<ViewModel>,
    output: ViewModel,
    spec: Seq<DimPartition>,
) -> Result<PartitionModel, ModelError> {
    let rank = output.dims.len();
    let m_dim = (if rank >= 2 { rank - 2 } else { 0 }) as usize;
    let n_dim = (if rank >= 1 { rank - 1 } else { 0 }) as usize;
    let outer = splits_outer(spec, m_dim, n_dim);
    match partitioned(output, rank, spec) {
        Err(e) => Err(e),
        Ok(out) => {
            let part_a = if outer || splits_dim(spec, m_dim) { partitioned(a, rank, without_dim(spec, n_dim)) } else { Ok(a) };
            match part_a {
                Err(e) => Err(e),
                Ok(pa) => {
                    let part_b = if outer || splits_dim(spec, n_dim) { partitioned(b, rank, without_dim(spec, m_dim)) } else { Ok(b) };
                    match part_b {
                        Err(e) => Err(e),
                        Ok(pb) => match c {
                            None => Ok(PartitionModel { inputs: seq![Some(pa), Some(pb)], outputs: seq![Some(out)] }),
                            Some(cv) => match partitioned(cv, rank, spec) {
                                Err(e) => Err(e),
                                Ok(pc) => Ok(PartitionModel { inputs: seq![Some(pa), Some(pb), Some(pc)], outputs: seq![Some(out)] }),
                            },
                        },
                    }
                },
            }
        },
    }
}

/// The partitions of a Gemm for each output partition, in order.
pub open spec fn gemm_partition_list(
    a: ViewModel,
    b: ViewModel,
    c: Option<ViewModel>,
    output: ViewModel,
    specs: Seq<Seq<DimPartition>>,
) -> Result<Seq<PartitionModel>, ModelError>
    decreases specs.len(),
{
    if specs.len() == 0 {
        Ok(Seq::empty())
    } else {
        match gemm_partition_list(a, b, c, output, specs.drop_last()) {
            Err(e) => Err(e),
            Ok(prefix) => match gemm_partition(a, b, c, output, specs.last()) {
                Err(e) => Err(e),
                Ok(p) => Ok(prefix.push(p)),
            },
        }
    }
}

/// The partitions a Gemm makes of valid views.
pub open spec fn gemm_partitions(inputs: Seq<Option<ViewModel>>, output: ViewModel, requested: nat) -> Result<Seq<PartitionModel>, ModelError> {
    let dims = output.dims;
    let c = if inputs.len() > 2 { inputs[2] } else { None };
    gemm_partition_list(
        inputs[0]->Some_0,
        inputs[1]->Some_0,
        c,
        output,
        plan_specs(plan(dims, partition_dims_for(dims), requested), dims),
    )
}

/// A failure at one output partition is the failure of the whole.
proof fn lemma_gemm_partition_list_error(
    a: ViewModel,
    b: ViewModel,
    c: Option<ViewModel>,
    output: ViewModel,
    specs: Seq<Seq<DimPartition>>,
    k: int,
)
    requires
        0 <= k < specs.len(),
        gemm_partition_list(a, b, c, output, specs.take(k + 1)) is Err,
    ensures
        gemm_partition_list(a, b, c, output, specs) == gemm_partition_list(a, b, c, output, specs.take(k + 1)),
    decreases specs.len() - k,
{
    if k + 1 < specs.len() {
        assert(specs.take(k + 2).drop_last() =~= specs.take(k + 1));
        lemma_gemm_partition_list_error(a, b, c, output, specs, k + 1);
    } else {
        assert(specs.take(k + 1) =~= specs);
    }
}

/// The entries of an output partition for dimensions other than `dim`.
fn partitions_without(spec: &[DimPartition], dim: usize) -> (kept: Vec<DimPartition>)
    ensures
        kept@ == without_dim(spec@, dim),
{
    let mut kept: Vec<DimPartition> = Vec::new();
    let mut i: usize = 0;
    while i < spec.len()
        invariant
            i <= spec@.len(),
            kept@ == without_dim(spec@.take(i as int), dim),
        decreases spec@.len() - i,
    {
        proof {
            assert(spec@.take(i + 1).drop_last() =~= spec@.take(i as int));
        }
        if spec[i].dim != dim {
            kept.push(spec[i]);
        }
        i = i + 1;
    }
    assert(spec@.take(spec@.len() as int) =~= spec@);
    kept
}

/// Whether an output partition splits dimension `dim`.
fn any_split_of(spec: &[DimPartition], dim: usize) -> (found: bool)
    ensures
        found == splits_dim(spec@, dim),
{
    let mut i: usize = 0;
    while i < spec.len()
        invariant
            i <= spec@.len(),
            forall|j: int| 0 <= j < i ==> (#[trigger] spec@[j]).dim != dim,
        decreases spec@.len() - i,
    {
        if spec[i].dim == dim {
            return true;
        }
        i = i + 1;
    }
    false
}

/// Whether an output partition splits a dimension other than M and N.
fn any_outer_split(spec: &[DimPartition], m_dim: usize, n_dim: usize) -> (found: bool)
    ensures
        found == splits_outer(spec@, m_dim, n_dim),
{
    let mut i: usize = 0;
    while i < spec.len()
        invariant
            i <= spec@.len(),
            forall|j: int| 0 <= j < i ==> (#[trigger] spec@[j]).dim == m_dim || spec@[j].dim == n_dim,
        decreases spec@.len() - i,
    {
        if spec[i].dim != m_dim && spec[i].dim != n_dim {
            return true;
        }
        i = i + 1;
    }
    false
}

impl OperatorGemm {
    /// One partition of a Gemm for output partition `spec`.
    fn partition_one(
        a: &TensorView,
        b: &TensorView,
        c: &Option<TensorView>,
        output: &TensorView,
        spec: &[DimPartition],
    ) -> (result: Result<TensorPartition, ModelError>)
        ensures
            match result {
                Ok(p) => gemm_partition(a@, b@, match *c { Some(v) => Some(v@), None => None }, output@, spec@)
                    == Ok::<PartitionModel, ModelError>(crate::operators::partition_model(p)),
                Err(e) => gemm_partition(a@, b@, match *c { Some(v) => Some(v@), None => None }, output@, spec@)
                    == Err::<PartitionModel, ModelError>(e),
            },
    {
        let rank = output.num_dims();
        let m_dim = rank.saturating_sub(OUTPUT_OFFSET_M);
        let n_dim = rank.saturating_sub(OUTPUT_OFFSET_N);
        let out = match TensorView::from_output_partitions_on_view(output, rank, spec) {
            Ok(v) => v,
            Err(e) => return Err(e),
        };
        let split_m = any_split_of(spec, m_dim);
        let split_n = any_split_of(spec, n_dim);
        let split_outer = any_outer_split(spec, m_dim, n_dim);
        let part_a = if split_outer || split_m {
            let a_spec = partitions_without(spec, n_dim);
            match TensorView::from_output_partitions_on_view(a, rank, a_spec.as_slice()) {
                Ok(v) => v,
                Err(e) => return Err(e),
            }
        } else {
            a.clone()
        };
        let part_b = if split_outer || split_n {
            let b_spec = partitions_without(spec, m_dim);
            match TensorView::from_output_partitions_on_view(b, rank, b_spec.as_slice()) {
                Ok(v) => v,
                Err(e) => return Err(e),
            }
        } else {
            b.clone()
        };
        let mut inputs: Vec<Option<TensorView>> = Vec::new();
        inputs.push(Some(part_a));
        inputs.push(Some(part_b));
        match c {
            Some(view) => {
                let part_c = match TensorView::from_output_partitions_on_view(view, rank, spec) {
                    Ok(v) => v,
                    Err(e) => return Err(e),
                };
                inputs.push(Some(part_c));
                assert(view_models(inputs@) =~= seq![Some(part_a@), Some(part_b@), Some(part_c@)]);
            },
            None => {
                assert(view_models(inputs@) =~= seq![Some(part_a@), Some(part_b@)]);
            },
        }
        let mut outputs: Vec<Option<TensorView>> = Vec::new();
        outputs.push(Some(out));
        assert(view_models(outputs@) =~= seq![Some(out@)]);
        Ok(TensorPartition { inputs, outputs })
    }

    /// Split a Gemm into at least `num_partitions` partitions where the
    /// output allows, outer dimensions first, then M, then N.
    pub fn partition_views(
        &self,
        input_views: &[Option<TensorView>],
        output_views: &[Option<TensorView>],
        num_partitions: usize,
    ) -> (result: Result<Vec<TensorPartition>, ModelError>)
        requires
            gemm_check(view_models(input_views@), view_models(output_views@)) != Err::<(), Option<ModelError>>(None),
        ensures
            match gemm_check(view_models(input_views@), view_models(output_views@)) {
                Err(e) => result == Err::<Vec<TensorPartition>, ModelError>(e->Some_0),
                Ok(()) => {
                    let expected = gemm_partitions(
                        view_models(input_views@),
                        view_models(output_views@)[0]->Some_0,
                        num_partitions as nat,
                    );
                    match result {
                        Ok(parts) => expected == Ok::<Seq<PartitionModel>, ModelError>(partition_models(parts@)),
                        Err(e) => expected == Err::<Seq<PartitionModel>, ModelError>(e),
                    }
                },
            },
    {
        match self.validate(input_views, output_views) {
            Err(e) => return Err(e),
            Ok(()) => {},
        }
        let ghost ins = view_models(input_views@);
        let ghost outs = view_models(output_views@);
        let (input_a, input_b, output_view) = match (&input_views[0], &input_views[1], &output_views[0]) {
            (Some(a), Some(b), Some(o)) => (a, b, o),
            _ => {
                proof { assert(false); }
                return Err(ModelError::MissingOutput { index: 0 });
            },
        };
        assert(ins[0] == Some(input_a@) && ins[1] == Some(input_b@) && outs[0] == Some(output_view@));
        let input_c = if input_views.len() > 2 { crate::operators::clone_view(&input_views[2]) } else { None };
        let ghost c_model: Option<ViewModel> = if ins.len() > 2 { ins[2] } else { None };
        assert(c_model == match input_c { Some(v) => Some(v@), None => None::<ViewModel> });
        let output_dims = output_view.shape().dims();
        let rank = output_view.num_dims();
        let partition_dims = choose_partition_dims(output_dims);
        proof {
            crate::operators::lemma_partition_dims_valid(output_dims@);
        }
        let specs = planned_partitions(output_dims, partition_dims.as_slice(), num_partitions);
        let ghost all_specs = specs_view(specs@);
        let mut partitions: Vec<TensorPartition> = Vec::new();
        let mut k: usize = 0;
        proof {
            assert(all_specs.take(0) =~= Seq::<Seq<DimPartition>>::empty());
            assert(partition_models(partitions@) =~= Seq::<PartitionModel>::empty());
        }
        while k < specs.len()
            invariant
                k <= specs@.len(),
                all_specs == specs_view(specs@),
                all_specs == plan_specs(plan(output_view@.dims, partition_dims_for(output_view@.dims), num_partitions as nat), output_view@.dims),
                ins == view_models(input_views@),
                outs == view_models(output_views@),
                gemm_check(ins, outs) is Ok,
                ins[0] == Some(input_a@),
                ins[1] == Some(input_b@),
                outs[0] == Some(output_view@),
                c_model == (if ins.len() > 2 { ins[2] } else { None }),
                c_model == match input_c { Some(v) => Some(v@), None => None::<ViewModel> },
                gemm_partition_list(input_a@, input_b@, c_model, output_view@, all_specs.take(k as int))
                    == Ok::<Seq<PartitionModel>, ModelError>(partition_models(partitions@)),
            decreases specs@.len() - k,
        {
            let spec = specs[k].as_slice();
            proof {
                assert(all_specs.take(k + 1).drop_last() =~= all_specs.take(k as int));
                assert(all_specs.take(k + 1).last() == spec@);
            }
            let part = match Self::partition_one(input_a, input_b, &input_c, output_view, spec) {
                Ok(p) => p,
                Err(e) => {
                    proof {
                        lemma_gemm_partition_list_error(input_a@, input_b@, c_model, output_view@, all_specs, k as int);
                    }
                    return Err(e);
                },
            };
            let ghost before = partition_models(partitions@);
            partitions.push(part);
            proof {
                assert(partition_models(partitions@) =~= before.push(crate::operators::partition_model(part)));
            }
            k = k + 1;
        }
        assert(all_specs.take(specs@.len() as int) =~= all_specs);
        Ok(partitions)
    }
}

/// Each partition of a Gemm writes the output part of its output partition.
pub(crate) proof fn lemma_gemm_outputs(
    a: ViewModel,
    b: ViewModel,
    c: Option<ViewModel>,
    output: ViewModel,
    specs: Seq<Seq<DimPartition>>,
    ps: Seq<PartitionModel>,
)
    requires
        gemm_partition_list(a, b, c, output, specs) == Ok::<Seq<PartitionModel>, ModelError>(ps),
    ensures
        ps.len() == specs.len(),
        forall|i: int|
            #![trigger ps[i]]
            0 <= i < ps.len() ==> ps[i].outputs.len() == 1 && ps[i].outputs[0] is Some && partitioned(output, output.dims.len(), specs[i]) == Ok::<ViewModel, ModelError>(ps[i].outputs[0]->Some_0),
    decreases specs.len(),
{
    if specs.len() > 0 {
        let prefix = gemm_partition_list(a, b, c, output, specs.drop_last())->Ok_0;
        lemma_gemm_outputs(a, b, c, output, specs.drop_last(), prefix);
        assert forall|i: int| #![trigger ps[i]] 0 <= i < ps.len() implies ps[i].outputs.len() == 1 && ps[i].outputs[0] is Some && partitioned(output, output.dims.len(), specs[i]) == Ok::<ViewModel, ModelError>(ps[i].outputs[0]->Some_0) by {
            if i < prefix.len() {
                assert(ps[i] == prefix[i]);
                assert(specs.drop_last()[i] == specs[i]);
            }
        }
    }
}

} // verus!
