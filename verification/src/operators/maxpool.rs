//! The MaxPool operator: the largest element of each pooling window over the
//! spatial dimensions (all but the batch and channel dimensions).
use vstd::prelude::*;

use crate::dtype::{DataType, bits_of};
use crate::error::{ModelError, PoolParamError};
use crate::machine_ops::MachineOpCounts;
use crate::operators::{
    PartitionModel, full_view_models, full_views, lemma_partitioned_all_ok, partition_each, partition_models, partitioned,
    partitioned_all, plan_specs, planned_partitions, specs_view, view_models,
};
use crate::partition::{DimPartition, TensorPartition, candidates_valid, plan};
use crate::tensor::{HasShape, Tensor, TensorModel, dims_valid, tensor_error, tensor_valid};
use crate::operators::ExpansionDirection;
use crate::tensor_view::{TensorView, ViewModel, view_error, view_valid};
use crate::util::{all_positive, seq_product, slices_equal};

verus! {

/// The index of the batch dimension.
pub const BATCH_DIM: usize = 0;
/// The index of the channel dimension.
pub const CHANNEL_DIM: usize = 1;
/// The index of the first spatial dimension.
pub const FIRST_SPATIAL_DIM: usize = 2;

/// How a MaxPool pads its input.
#[derive(Clone, Copy, Debug, PartialEq, Eq, Structural)]
pub enum AutoPad {
    /// Explicit pads, zero where none are given.
    NotSet,
    /// Pad so that the output has `ceil(input / stride)` elements, with the
    /// larger half of the padding at the end.
    SameUpper,
    /// As `SameUpper`, with the larger half at the beginning.
    SameLower,
    /// No padding.
    Valid,
}

impl Default for AutoPad {
    fn default() -> (pad: Self)
        ensures
            pad == AutoPad::NotSet,
    {
        AutoPad::NotSet
    }
}

/// The MaxPool operator and its attributes; an attribute left `None` takes
/// its default.
#[derive(Clone, Debug, PartialEq, Eq)]
pub struct OperatorMaxPool {
    pub auto_pad: Option<AutoPad>,
    pub ceil_mode: Option<bool>,
    pub dilations: Option<Vec<usize>>,
    pub kernel_shape: Vec<usize>,
    pub pads: Option<Vec<usize>>,
    pub storage_order: Option<usize>,
    pub strides: Option<Vec<usize>>,
}

/// The attributes of a MaxPool, with the defaults of those left unset: no
/// automatic padding, floor rounding, and empty lists.
pub struct MaxPoolModel {
    pub auto_pad: AutoPad,
    pub ceil_mode: bool,
    pub dilations: Seq<usize>,
    pub kernel_shape: Seq<usize>,
    pub pads: Seq<usize>,
    pub storage_order: nat,
    pub strides: Seq<usize>,
}

/// The values of an optional list, empty when it is absent.
pub open spec fn list_or_empty(values: Option<Vec<usize>>) -> Seq<usize> {
    match values {
        Some(v) => v@,
        None => Seq::empty(),
    }
}

impl View for OperatorMaxPool {
    type V = MaxPoolModel;

    open spec fn view(&self) -> MaxPoolModel {
        MaxPoolModel {
            auto_pad: match self.auto_pad {
                Some(p) => p,
                None => AutoPad::NotSet,
            },
            ceil_mode: match self.ceil_mode {
                Some(c) => c,
                None => false,
            },
            dilations: list_or_empty(self.dilations),
            kernel_shape: self.kernel_shape@,
            pads: list_or_empty(self.pads),
            storage_order: match self.storage_order {
                Some(o) => o as nat,
                None => 0,
            },
            strides: list_or_empty(self.strides),
        }
    }
}

/// The pooling parameters of each spatial axis.
#[derive(Clone, Debug)]
pub struct PoolParams {
    pub kernel_shape: Vec<usize>,
    pub strides: Vec<usize>,
    pub dilations: Vec<usize>,
    pub pads_begin: Vec<usize>,
    pub pads_end: Vec<usize>,
}

/// What pooling parameters are: per-axis kernel extents, strides,
/// dilations and pads.
pub struct PoolParamsModel {
    pub kernel_shape: Seq<usize>,
    pub strides: Seq<usize>,
    pub dilations: Seq<usize>,
    pub pads_begin: Seq<usize>,
    pub pads_end: Seq<usize>,
}

impl View for PoolParams {
    type V = PoolParamsModel;

    open spec fn view(&self) -> PoolParamsModel {
        PoolParamsModel {
            kernel_shape: self.kernel_shape@,
            strides: self.strides@,
            dilations: self.dilations@,
            pads_begin: self.pads_begin@,
            pads_end: self.pads_end@,
        }
    }
}

/// Some entry of the list is zero.
pub open spec fn has_zero(values: Seq<usize>) -> bool {
    exists|i: int| 0 <= i < values.len() && values[i] == 0
}

/// A per-axis list: the given values, or `default` on every axis when none
/// are given.
pub open spec fn axis_values(values: Seq<usize>, rank: nat, default: usize) -> Seq<usize> {
    if values.len() == 0 {
        Seq::new(rank, |i: int| default)
    } else {
        values
    }
}

/// Why the attributes do not fit `rank` spatial dimensions, if they do not.
pub open spec fn pool_param_error(op: MaxPoolModel, rank: nat) -> Option<PoolParamError> {
    if rank == 0 {
        Some(PoolParamError::NoSpatialDims)
    } else if op.kernel_shape.len() != rank {
        Some(PoolParamError::KernelRankMismatch)
    } else if has_zero(op.kernel_shape) {
        Some(PoolParamError::ZeroKernel)
    } else if op.storage_order > 1 {
        Some(PoolParamError::InvalidStorageOrder)
    } else if op.auto_pad != AutoPad::NotSet && op.pads.len() != 0 {
        Some(PoolParamError::PadsWithAutoPad)
    } else if op.strides.len() != 0 && op.strides.len() != rank {
        Some(PoolParamError::StridesRankMismatch)
    } else if op.dilations.len() != 0 && op.dilations.len() != rank {
        Some(PoolParamError::DilationsRankMismatch)
    } else if op.pads.len() != 0 && op.pads.len() != 2 * rank {
        Some(PoolParamError::PadsRankMismatch)
    } else if has_zero(op.strides) {
        Some(PoolParamError::ZeroStride)
    } else if has_zero(op.dilations) {
        Some(PoolParamError::ZeroDilation)
    } else {
        None
    }
}

/// The parameters of `rank` spatial axes: unset strides and dilations are
/// one, unset pads zero; the pads list holds the beginnings and then the
/// ends.
pub open spec fn normalized_params(op: MaxPoolModel, rank: nat) -> PoolParamsModel {
    let pads = axis_values(op.pads, 2 * rank, 0);
    PoolParamsModel {
        kernel_shape: op.kernel_shape,
        strides: axis_values(op.strides, rank, 1),
        dilations: axis_values(op.dilations, rank, 1),
        pads_begin: pads.take(rank as int),
        pads_end: pads.skip(rank as int),
    }
}

/// The extent of a kernel with holes of `dilation - 1` between its taps.
pub open spec fn dilated_kernel(kernel: int, dilation: int) -> int {
    dilation * (kernel - 1) + 1
}

/// Every axis's dilated kernel extent fits in `usize`.
pub open spec fn kernels_fit(op: MaxPoolModel, rank: nat) -> bool {
    pool_param_error(op, rank) is None ==> forall|a: int| 0 <= a < rank ==> dilated_kernel(
        op.kernel_shape[a] as int,
        normalized_params(op, rank).dilations[a] as int,
    ) <= usize::MAX
}

/// `n / d` rounded up, for positive `d`.
pub open spec fn ceil_div(n: int, d: int) -> int {
    if n >= 0 {
        (n + d - 1) / d
    } else {
        -((-n) / d)
    }
}

/// The output extent of an axis with explicit pads.
pub open spec fn explicit_output(input: int, kernel: int, stride: int, pad_begin: int, pad_end: int, ceil_mode: bool) -> int {
    let numerator = input + pad_begin + pad_end - kernel;
    let output = if ceil_mode {
        ceil_div(numerator, stride) + 1
    } else {
        numerator / stride + 1
    };
    // With ceil rounding the last window must still start inside the input
    // or its leading padding.
    if ceil_mode && output > 0 && (output - 1) * stride >= input + pad_begin {
        output - 1
    } else {
        output
    }
}

/// The output extent of an axis without padding.
pub open spec fn valid_output(input: int, kernel: int, stride: int, ceil_mode: bool) -> int {
    if ceil_mode {
        ceil_div(input - kernel + 1, stride)
    } else {
        (input - kernel) / stride + 1
    }
}

/// The output extent and the resolved pads of one axis, or why the axis
/// produces no output.
pub open spec fn axis_output(op: MaxPoolModel, params: PoolParamsModel, input: int, a: int) -> Result<(int, int, int), ModelError> {
    let kernel = dilated_kernel(params.kernel_shape[a] as int, params.dilations[a] as int);
    let stride = params.strides[a] as int;
    if input == 0 {
        Err(ModelError::InvalidPoolParameter { reason: PoolParamError::ZeroSpatialInput })
    } else {
        match op.auto_pad {
            AutoPad::NotSet => {
                let pad_begin = params.pads_begin[a] as int;
                let pad_end = params.pads_end[a] as int;
                let output = explicit_output(input, kernel, stride, pad_begin, pad_end, op.ceil_mode);
                if output <= 0 {
                    Err(ModelError::EmptyPoolOutput)
                } else {
                    Ok((output, pad_begin, pad_end))
                }
            },
            AutoPad::Valid => {
                let output = valid_output(input, kernel, stride, op.ceil_mode);
                if output <= 0 {
                    Err(ModelError::EmptyPoolOutput)
                } else {
                    Ok((output, 0, 0))
                }
            },
            AutoPad::SameUpper | AutoPad::SameLower => {
                let output = ceil_div(input, stride);
                let needed = (output - 1) * stride + kernel - input;
                let pad = if needed > 0 { needed } else { 0 };
                let smaller = pad / 2;
                let larger = pad - smaller;
                if op.auto_pad == AutoPad::SameUpper {
                    Ok((output, smaller, larger))
                } else {
                    Ok((output, larger, smaller))
                }
            },
        }
    }
}

/// The output extents and resolved pads of the first `k` spatial axes of an
/// input of extents `dims`, or the error of the first axis that fails.
pub open spec fn pool_axes(op: MaxPoolModel, params: PoolParamsModel, dims: Seq<usize>, k: nat) -> Result<(Seq<usize>, Seq<usize>, Seq<usize>), ModelError>
    decreases k,
{
    if k == 0 {
        Ok((Seq::empty(), Seq::empty(), Seq::empty()))
    } else {
        match pool_axes(op, params, dims, (k - 1) as nat) {
            Err(e) => Err(e),
            Ok((outputs, begins, ends)) => match axis_output(op, params, dims[2 + k - 1] as int, k - 1) {
                Err(e) => Err(e),
                Ok((output, pad_begin, pad_end)) => Ok(
                    (outputs.push(output as usize), begins.push(pad_begin as usize), ends.push(pad_end as usize)),
                ),
            },
        }
    }
}

/// The output extents of a MaxPool of an input of extents `dims`, with the
/// pads it resolves, or why the attributes do not fit the input.
pub open spec fn pool_output(op: MaxPoolModel, dims: Seq<usize>) -> Result<(Seq<usize>, PoolParamsModel), ModelError> {
    if dims.len() < 3 {
        Err(ModelError::InvalidPoolParameter { reason: PoolParamError::InputRankBelowThree })
    } else {
        let rank = (dims.len() - 2) as nat;
        match pool_param_error(op, rank) {
            Some(reason) => Err(ModelError::InvalidPoolParameter { reason }),
            None => {
                let params = normalized_params(op, rank);
                match pool_axes(op, params, dims, rank) {
                    Err(e) => Err(e),
                    Ok((outputs, begins, ends)) => Ok(
                        (
                            seq![dims[0], dims[1]] + outputs,
                            PoolParamsModel { pads_begin: begins, pads_end: ends, ..params },
                        ),
                    ),
                }
            },
        }
    }
}

/// The per-axis values, or `default` on each of `rank` axes when none are
/// given.
fn normalize_axis_values(values: &[usize], spatial_rank: usize, default: usize) -> (result: Option<Vec<usize>>)
    ensures
        match result {
            Some(v) => (values@.len() == 0 || values@.len() == spatial_rank) && v@ == axis_values(values@, spatial_rank as nat, default),
            None => values@.len() != 0 && values@.len() != spatial_rank,
        },
{
    if values.len() == 0 {
        let mut v: Vec<usize> = Vec::new();
        let mut i: usize = 0;
        while i < spatial_rank
            invariant
                i <= spatial_rank,
                v@ == Seq::new(i as nat, |j: int| default),
            decreases spatial_rank - i,
        {
            v.push(default);
            i = i + 1;
            assert(v@ =~= Seq::new(i as nat, |j: int| default));
        }
        Some(v)
    } else if values.len() == spatial_rank {
        Some(crate::util::copy_slice(values))
    } else {
        None
    }
}

/// Whether some entry of the list is zero.
fn contains_zero(values: &[usize]) -> (found: bool)
    ensures
        found == has_zero(values@),
{
    let mut i: usize = 0;
    while i < values.len()
        invariant
            i <= values@.len(),
            forall|j: int| 0 <= j < i ==> values@[j] != 0,
        decreases values@.len() - i,
    {
        if values[i] == 0 {
            return true;
        }
        i = i + 1;
    }
    false
}

/// The values of an optional list as a slice, empty when it is absent.
fn list_slice(values: &Option<Vec<usize>>) -> (slice: &[usize])
    ensures
        slice@ == list_or_empty(*values),
{
    match values {
        Some(v) => v.as_slice(),
        None => &[],
    }
}

impl OperatorMaxPool {
    /// A MaxPool with the given kernel and every other attribute unset.
    pub fn new(kernel_shape: &[usize]) -> (op: Self)
        ensures
            op.kernel_shape@ == kernel_shape@,
            op.auto_pad is None,
            op.ceil_mode is None,
            op.dilations is None,
            op.pads is None,
            op.storage_order is None,
            op.strides is None,
    {
        OperatorMaxPool {
            auto_pad: None,
            ceil_mode: None,
            dilations: None,
            kernel_shape: crate::util::copy_slice(kernel_shape),
            pads: None,
            storage_order: None,
            strides: None,
        }
    }

    /// The automatic padding mode, `NotSet` when unset.
    fn auto_pad(&self) -> (pad: AutoPad)
        ensures
            pad == self@.auto_pad,
    {
        match self.auto_pad {
            Some(p) => p,
            None => AutoPad::NotSet,
        }
    }

    /// Whether output extents round up, `false` when unset.
    fn ceil_mode(&self) -> (ceil: bool)
        ensures
            ceil == self@.ceil_mode,
    {
        match self.ceil_mode {
            Some(c) => c,
            None => false,
        }
    }

    /// The pooling parameters for `spatial_rank` spatial dimensions.
    pub fn normalize_params(&self, spatial_rank: usize) -> (result: Result<PoolParams, ModelError>)
        ensures
            match pool_param_error(self@, spatial_rank as nat) {
                Some(reason) => result == Err::<PoolParams, ModelError>(ModelError::InvalidPoolParameter { reason }),
                None => result matches Ok(params) && params@ == normalized_params(self@, spatial_rank as nat),
            },
    {
        let op = self;
        if spatial_rank == 0 {
            return Err(ModelError::InvalidPoolParameter { reason: PoolParamError::NoSpatialDims });
        }
        if op.kernel_shape.len() != spatial_rank {
            return Err(ModelError::InvalidPoolParameter { reason: PoolParamError::KernelRankMismatch });
        }
        if contains_zero(op.kernel_shape.as_slice()) {
            return Err(ModelError::InvalidPoolParameter { reason: PoolParamError::ZeroKernel });
        }
        let auto_pad = op.auto_pad();
        let storage_order = match op.storage_order {
            Some(o) => o,
            None => 0,
        };
        let pads = list_slice(&op.pads);
        if storage_order > 1 {
            return Err(ModelError::InvalidPoolParameter { reason: PoolParamError::InvalidStorageOrder });
        }
        if auto_pad != AutoPad::NotSet && pads.len() != 0 {
            return Err(ModelError::InvalidPoolParameter { reason: PoolParamError::PadsWithAutoPad });
        }
        let strides = match normalize_axis_values(list_slice(&op.strides), spatial_rank, 1) {
            Some(v) => v,
            None => return Err(ModelError::InvalidPoolParameter { reason: PoolParamError::StridesRankMismatch }),
        };
        let dilations = match normalize_axis_values(list_slice(&op.dilations), spatial_rank, 1) {
            Some(v) => v,
            None => return Err(ModelError::InvalidPoolParameter { reason: PoolParamError::DilationsRankMismatch }),
        };
        let mut pads_begin: Vec<usize> = Vec::new();
        let mut pads_end: Vec<usize> = Vec::new();
        if pads.len() == 0 {
            let mut i: usize = 0;
            while i < spatial_rank
                invariant
                    i <= spatial_rank,
                    pads_begin@ == Seq::new(i as nat, |j: int| 0usize),
                    pads_end@ == Seq::new(i as nat, |j: int| 0usize),
                decreases spatial_rank - i,
            {
                pads_begin.push(0);
                pads_end.push(0);
                i = i + 1;
                assert(pads_begin@ =~= Seq::new(i as nat, |j: int| 0usize));
                assert(pads_end@ =~= Seq::new(i as nat, |j: int| 0usize));
            }
            proof {
                let all = Seq::new(2 * spatial_rank as nat, |j: int| 0usize);
                assert(all.take(spatial_rank as int) =~= pads_begin@);
                assert(all.skip(spatial_rank as int) =~= pads_end@);
            }
        } else if pads.len() / 2 == spatial_rank && pads.len() % 2 == 0 {
            let mut i: usize = 0;
            while i < spatial_rank
                invariant
                    i <= spatial_rank,
                    pads@.len() == 2 * spatial_rank,
                    pads_begin@ == pads@.take(i as int),
                    pads_end@ == pads@.subrange(spatial_rank as int, spatial_rank + i),
                decreases spatial_rank - i,
            {
                pads_begin.push(pads[i]);
                pads_end.push(pads[spatial_rank + i]);
                i = i + 1;
                assert(pads_begin@ =~= pads@.take(i as int));
                assert(pads_end@ =~= pads@.subrange(spatial_rank as int, spatial_rank + i));
            }
            assert(pads_end@ =~= pads@.skip(spatial_rank as int));
        } else {
            return Err(ModelError::InvalidPoolParameter { reason: PoolParamError::PadsRankMismatch });
        }
        if contains_zero(strides.as_slice()) {
            proof {
                if op@.strides.len() == 0 {
                    let i = choose|i: int| 0 <= i < strides@.len() && strides@[i] == 0;
                    assert(strides@[i] == 1);
                }
            }
            return Err(ModelError::InvalidPoolParameter { reason: PoolParamError::ZeroStride });
        }
        if contains_zero(dilations.as_slice()) {
            proof {
                if op@.dilations.len() == 0 {
                    let i = choose|i: int| 0 <= i < dilations@.len() && dilations@[i] == 0;
                    assert(dilations@[i] == 1);
                }
            }
            return Err(ModelError::InvalidPoolParameter { reason: PoolParamError::ZeroDilation });
        }
        proof {
            if op@.strides.len() != 0 {
                assert(!has_zero(op@.strides));
            }
            if op@.dilations.len() != 0 {
                assert(!has_zero(op@.dilations));
            }
            if op@.strides.len() == 0 {
                assert forall|i: int| 0 <= i < op@.strides.len() implies op@.strides[i] != 0 by {}
            }
        }
        Ok(PoolParams {
            kernel_shape: crate::util::copy_slice(op.kernel_shape.as_slice()),
            strides,
            dilations,
            pads_begin,
            pads_end,
        })
    }
}

/// The extent of a kernel with holes of `dilation - 1` between its taps.
fn effective_kernel(kernel: usize, dilation: usize) -> (extent: usize)
    requires
        kernel >= 1,
        dilated_kernel(kernel as int, dilation as int) <= usize::MAX,
    ensures
        extent == dilated_kernel(kernel as int, dilation as int),
{
    dilation * (kernel - 1) + 1
}

/// `numerator / denominator` rounded up.
fn ceil_div_i128(numerator: i128, denominator: i128) -> (quotient: i128)
    requires
        denominator > 0,
        -0x1_0000_0000_0000_0000_0000_0000 <= numerator <= 0x1_0000_0000_0000_0000_0000_0000,
        denominator <= 0x1_0000_0000_0000_0000,
    ensures
        quotient == ceil_div(numerator as int, denominator as int),
        -0x2_0000_0000_0000_0000_0000_0000 <= quotient <= 0x2_0000_0000_0000_0000_0000_0000,
{
    if numerator >= 0 {
        let q = (numerator as u128 + denominator as u128 - 1) / (denominator as u128);
        proof {
            vstd::arithmetic::div_mod::lemma_div_is_ordered_by_denominator((numerator + denominator - 1) as int, 1, denominator as int);
        }
        q as i128
    } else {
        let q = ((-numerator) as u128) / (denominator as u128);
        proof {
            vstd::arithmetic::div_mod::lemma_div_is_ordered_by_denominator((-numerator) as int, 1, denominator as int);
        }
        -(q as i128)
    }
}

/// `numerator / denominator` rounded down.
fn floor_div_i128(numerator: i128, denominator: i128) -> (quotient: i128)
    requires
        denominator > 0,
        -0x1_0000_0000_0000_0000_0000_0000 <= numerator <= 0x1_0000_0000_0000_0000_0000_0000,
        denominator <= 0x1_0000_0000_0000_0000,
    ensures
        quotient == numerator as int / denominator as int,
        -0x2_0000_0000_0000_0000_0000_0000 <= quotient <= 0x2_0000_0000_0000_0000_0000_0000,
{
    if numerator >= 0 {
        let q = (numerator as u128) / (denominator as u128);
        proof {
            vstd::arithmetic::div_mod::lemma_div_is_ordered_by_denominator(numerator as int, 1, denominator as int);
        }
        q as i128
    } else {
        let m = (-numerator) as u128;
        let q = (m + denominator as u128 - 1) / (denominator as u128);
        proof {
            vstd::arithmetic::div_mod::lemma_div_is_ordered_by_denominator((m + denominator - 1) as int, 1, denominator as int);
            lemma_floor_of_negative(numerator as int, denominator as int);
        }
        -(q as i128)
    }
}

/// Rounding a negative quotient down is rounding its negation up.
proof fn lemma_floor_of_negative(n: int, d: int)
    requires
        n < 0,
        d > 0,
    ensures
        n / d == -((-n + d - 1) / d),
{
    vstd::arithmetic::div_mod::lemma_fundamental_div_mod(n, d);
    let q = n / d;
    let r = n % d;
    if r == 0 {
        assert(-n + d - 1 == d * (-q) + (d - 1)) by (nonlinear_arith) requires n == d * q + r, r == 0;
        vstd::arithmetic::div_mod::lemma_fundamental_div_mod_converse(-n + d - 1, d, -q, d - 1);
    } else {
        assert(-n + d - 1 == d * (-q - 1) + (d - r - 1) + d) by (nonlinear_arith) requires n == d * q + r;
        assert(-n + d - 1 == d * (-q) + (d - r - 1)) by (nonlinear_arith) requires n == d * q + r;
        vstd::arithmetic::div_mod::lemma_fundamental_div_mod_converse(-n + d - 1, d, -q, d - r - 1);
    }
}

/// A quotient rounded up, times the divisor, is less than the dividend plus
/// the divisor.
proof fn lemma_ceil_div_bound(n: int, d: int)
    requires
        d > 0,
    ensures
        ceil_div(n, d) * d < n + d,
        ceil_div(n, d) * d >= n,
{
    if n >= 0 {
        vstd::arithmetic::div_mod::lemma_fundamental_div_mod(n + d - 1, d);
        let q = (n + d - 1) / d;
        assert(q * d <= n + d - 1 && q * d > n - 1) by (nonlinear_arith)
            requires n + d - 1 == d * q + (n + d - 1) % d, 0 <= (n + d - 1) % d < d;
    } else {
        vstd::arithmetic::div_mod::lemma_fundamental_div_mod(-n, d);
        let q = (-n) / d;
        assert(-q * d < n + d && -q * d >= n) by (nonlinear_arith)
            requires -n == d * q + (-n) % d, 0 <= (-n) % d < d;
    }
}

/// The output extent of an axis with explicit pads.
fn explicit_output_dim(
    input_dim: usize,
    effective_kernel: usize,
    stride: usize,
    pad_begin: usize,
    pad_end: usize,
    ceil_mode: bool,
) -> (result: Result<usize, ModelError>)
    requires
        stride > 0,
    ensures
        explicit_output(input_dim as int, effective_kernel as int, stride as int, pad_begin as int, pad_end as int, ceil_mode) <= 0
            ==> result == Err::<usize, ModelError>(ModelError::EmptyPoolOutput),
        explicit_output(input_dim as int, effective_kernel as int, stride as int, pad_begin as int, pad_end as int, ceil_mode) > 0
            ==> result == Ok::<usize, ModelError>(
            explicit_output(input_dim as int, effective_kernel as int, stride as int, pad_begin as int, pad_end as int, ceil_mode) as usize,
        ),
{
    let numerator = input_dim as i128 + pad_begin as i128 + pad_end as i128 - effective_kernel as i128;
    let stride = stride as i128;
    let mut output_dim = if ceil_mode {
        ceil_div_i128(numerator, stride) + 1
    } else {
        floor_div_i128(numerator, stride) + 1
    };
    proof {
        lemma_ceil_div_bound(numerator as int, stride as int);
        vstd::arithmetic::div_mod::lemma_fundamental_div_mod(numerator as int, stride as int);
    }
    if ceil_mode && output_dim > 0 {
        proof {
            assert((output_dim - 1) * stride < numerator + stride);
            assert((output_dim - 1) * stride >= 0) by (nonlinear_arith) requires output_dim >= 1, stride > 0;
        }
        if (output_dim - 1) * stride >= input_dim as i128 + pad_begin as i128 {
            output_dim = output_dim - 1;
        }
    }
    if output_dim <= 0 {
        return Err(ModelError::EmptyPoolOutput);
    }
    Ok(output_dim as usize)
}

/// The output extent of an axis without padding.
fn valid_output_dim(input_dim: usize, effective_kernel: usize, stride: usize, ceil_mode: bool) -> (result: Result<usize, ModelError>)
    requires
        stride > 0,
    ensures
        valid_output(input_dim as int, effective_kernel as int, stride as int, ceil_mode) <= 0 ==> result == Err::<usize, ModelError>(
            ModelError::EmptyPoolOutput,
        ),
        valid_output(input_dim as int, effective_kernel as int, stride as int, ceil_mode) > 0 ==> result == Ok::<usize, ModelError>(
            valid_output(input_dim as int, effective_kernel as int, stride as int, ceil_mode) as usize,
        ),
{
    let output_dim = if ceil_mode {
        ceil_div_i128(input_dim as i128 - effective_kernel as i128 + 1, stride as i128)
    } else {
        floor_div_i128(input_dim as i128 - effective_kernel as i128, stride as i128) + 1
    };
    if output_dim <= 0 {
        return Err(ModelError::EmptyPoolOutput);
    }
    Ok(output_dim as usize)
}

/// The output extent and resolved pads of spatial axis `axis`.
fn resolve_axis(
    op: &OperatorMaxPool,
    params: &PoolParams,
    input_dim: usize,
    axis: usize,
) -> (result: Result<(usize, usize, usize), ModelError>)
    requires
        axis < params@.kernel_shape.len(),
        params@.kernel_shape.len() == params@.strides.len(),
        params@.kernel_shape.len() == params@.dilations.len(),
        params@.kernel_shape.len() == params@.pads_begin.len(),
        params@.kernel_shape.len() == params@.pads_end.len(),
        params@.kernel_shape[axis as int] >= 1,
        params@.strides[axis as int] >= 1,
        dilated_kernel(params@.kernel_shape[axis as int] as int, params@.dilations[axis as int] as int) <= usize::MAX,
    ensures
        match axis_output(op@, params@, input_dim as int, axis as int) {
            Err(e) => result == Err::<(usize, usize, usize), ModelError>(e),
            Ok((output, pad_begin, pad_end)) => result == Ok::<(usize, usize, usize), ModelError>(
                (output as usize, pad_begin as usize, pad_end as usize),
            ),
        },
{
    if input_dim == 0 {
        return Err(ModelError::InvalidPoolParameter { reason: PoolParamError::ZeroSpatialInput });
    }
    let effective_kernel = effective_kernel(params.kernel_shape[axis], params.dilations[axis]);
    let stride = params.strides[axis];
    let ceil_mode = op.ceil_mode();
    match op.auto_pad() {
        AutoPad::NotSet => {
            let pad_begin = params.pads_begin[axis];
            let pad_end = params.pads_end[axis];
            match explicit_output_dim(input_dim, effective_kernel, stride, pad_begin, pad_end, ceil_mode) {
                Ok(output) => Ok((output, pad_begin, pad_end)),
                Err(e) => Err(e),
            }
        },
        AutoPad::Valid => match valid_output_dim(input_dim, effective_kernel, stride, ceil_mode) {
            Ok(output) => Ok((output, 0, 0)),
            Err(e) => Err(e),
        },
        AutoPad::SameUpper | AutoPad::SameLower => {
            proof {
                vstd::arithmetic::div_mod::lemma_fundamental_div_mod(input_dim as int, stride as int);
                if input_dim % stride != 0 {
                    assert(stride >= 2);
                    assert(input_dim / stride < usize::MAX) by (nonlinear_arith)
                        requires input_dim == stride * (input_dim / stride) + input_dim % stride, stride >= 2, input_dim % stride >= 0,
                            input_dim <= usize::MAX;
                }
            }
            let output_dim = input_dim / stride + if input_dim % stride == 0 { 0 } else { 1 };
            proof {
                lemma_ceil_div_bound(input_dim as int, stride as int);
                assert(output_dim == ceil_div(input_dim as int, stride as int)) by {
                    vstd::arithmetic::div_mod::lemma_fundamental_div_mod(input_dim as int, stride as int);
                    let q = input_dim / stride;
                    let r = input_dim % stride;
                    if r == 0 {
                        assert(input_dim + stride - 1 == q * stride + (stride - 1)) by (nonlinear_arith)
                            requires input_dim == stride * q + r, r == 0;
                        vstd::arithmetic::div_mod::lemma_fundamental_div_mod_converse(input_dim + stride - 1, stride as int, q as int, stride - 1);
                    } else {
                        assert(input_dim + stride - 1 == (q + 1) * stride + (r - 1)) by (nonlinear_arith)
                            requires input_dim == stride * q + r;
                        vstd::arithmetic::div_mod::lemma_fundamental_div_mod_converse(input_dim + stride - 1, stride as int, q + 1, r - 1);
                    }
                }
                assert(output_dim >= 1) by (nonlinear_arith)
                    requires output_dim * stride >= input_dim, input_dim >= 1, stride >= 1;
                assert((output_dim - 1) * stride <= input_dim) by (nonlinear_arith)
                    requires output_dim * stride < input_dim + stride, output_dim >= 1;
            }
            let reach = ((output_dim - 1) as u128) * (stride as u128) + effective_kernel as u128;
            let pad_shape = if reach > input_dim as u128 { (reach - input_dim as u128) as usize } else { 0 };
            let smaller_side = pad_shape / 2;
            let larger_side = pad_shape - smaller_side;
            if op.auto_pad() == AutoPad::SameUpper {
                Ok((output_dim, smaller_side, larger_side))
            } else {
                Ok((output_dim, larger_side, smaller_side))
            }
        },
    }
}

impl OperatorMaxPool {
    /// The output extents of a MaxPool of `input`, with the pooling
    /// parameters and the pads it resolves.
    pub fn output_shape_and_resolved_params<T: HasShape>(&self, input: &T) -> (result: Result<(Vec<usize>, PoolParams), ModelError>)
        requires
            input.shape_dims().len() >= 3 ==> kernels_fit(self@, (input.shape_dims().len() - 2) as nat),
        ensures
            match pool_output(self@, input.shape_dims()) {
                Err(e) => result == Err::<(Vec<usize>, PoolParams), ModelError>(e),
                Ok((dims, params)) => result matches Ok((d, p)) && d@ == dims && p@ == params,
            },
    {
        let rank = input.num_dims();
        if rank < 3 {
            return Err(ModelError::InvalidPoolParameter { reason: PoolParamError::InputRankBelowThree });
        }
        let input_dims = input.shape().dims();
        let spatial_rank = rank - FIRST_SPATIAL_DIM;
        let mut params = match self.normalize_params(spatial_rank) {
            Ok(p) => p,
            Err(e) => return Err(e),
        };
        let ghost op = self@;
        let ghost normalized = params@;
        let ghost dims = input.shape_dims();
        let mut output_dims: Vec<usize> = Vec::new();
        output_dims.push(input_dims[BATCH_DIM]);
        output_dims.push(input_dims[CHANNEL_DIM]);
        let mut pads_begin: Vec<usize> = Vec::new();
        let mut pads_end: Vec<usize> = Vec::new();
        let mut axis: usize = 0;
        assert(output_dims@.skip(2) =~= Seq::<usize>::empty());
        while axis < spatial_rank
            invariant
                spatial_rank == rank - 2,
                rank == dims.len(),
                dims == input.shape_dims(),
                input_dims@ == dims,
                op == self@,
                params@ == normalized,
                normalized == normalized_params(op, spatial_rank as nat),
                pool_param_error(op, spatial_rank as nat) is None,
                kernels_fit(op, spatial_rank as nat),
                axis <= spatial_rank,
                pool_axes(op, normalized, dims, axis as nat) == Ok::<(Seq<usize>, Seq<usize>, Seq<usize>), ModelError>(
                    (output_dims@.skip(2), pads_begin@, pads_end@),
                ),
                output_dims@.len() == axis + 2,
                output_dims@[0] == dims[0],
                output_dims@[1] == dims[1],
            decreases spatial_rank - axis,
        {
            proof {
                assert(normalized.kernel_shape[axis as int] >= 1) by {
                    if normalized.kernel_shape[axis as int] == 0 {
                        assert(has_zero(op.kernel_shape));
                    }
                }
                assert(normalized.strides[axis as int] >= 1) by {
                    if normalized.strides[axis as int] == 0 {
                        assert(op.strides.len() != 0);
                        assert(has_zero(op.strides));
                    }
                }
            }
            let resolved = resolve_axis(self, &params, input_dims[FIRST_SPATIAL_DIM + axis], axis);
            match resolved {
                Err(e) => {
                    proof {
                        assert(pool_axes(op, normalized, dims, (axis + 1) as nat) == Err::<(Seq<usize>, Seq<usize>, Seq<usize>), ModelError>(e));
                        lemma_pool_axes_error(op, normalized, dims, (axis + 1) as nat, spatial_rank as nat);
                        assert(pool_axes(op, normalized, dims, spatial_rank as nat) == Err::<(Seq<usize>, Seq<usize>, Seq<usize>), ModelError>(e));
                        assert((dims.len() - 2) as nat == spatial_rank as nat);
                        assert(pool_output(op, dims) == Err::<(Seq<usize>, PoolParamsModel), ModelError>(e));
                        assert(pool_output(self@, input.shape_dims()) == Err::<(Seq<usize>, PoolParamsModel), ModelError>(e));
                    }
                    return Err(e);
                },
                Ok((output, pad_begin, pad_end)) => {
                    let ghost before = output_dims@;
                    output_dims.push(output);
                    pads_begin.push(pad_begin);
                    pads_end.push(pad_end);
                    proof {
                        assert(output_dims@.skip(2) =~= before.skip(2).push(output));
                    }
                },
            }
            axis = axis + 1;
        }
        params.pads_begin = pads_begin;
        params.pads_end = pads_end;
        proof {
            assert(output_dims@ =~= seq![dims[0], dims[1]] + output_dims@.skip(2));
        }
        Ok((output_dims, params))
    }
}

/// An axis that fails fails the whole.
proof fn lemma_pool_axes_error(op: MaxPoolModel, params: PoolParamsModel, dims: Seq<usize>, k: nat, n: nat)
    requires
        k <= n,
        pool_axes(op, params, dims, k) is Err,
    ensures
        pool_axes(op, params, dims, n) == pool_axes(op, params, dims, k),
    decreases n - k,
{
    if k < n {
        lemma_pool_axes_error(op, params, dims, k + 1, n);
    }
}

/// The attributes fit the input of a MaxPool, where it has one of rank at
/// least three.
pub open spec fn kernels_fit_input(op: MaxPoolModel, inputs: Seq<Option<ViewModel>>) -> bool {
    inputs.len() == 1 && inputs[0] is Some && inputs[0]->Some_0.dims.len() >= 3 ==> kernels_fit(
        op,
        (inputs[0]->Some_0.dims.len() - 2) as nat,
    )
}

/// Why a MaxPool rejects these inputs and outputs, if it does: one input;
/// one output, or two with the second, the indices, of the first's shape;
/// and the first output of the shape the pooling computes.
pub open spec fn maxpool_error(op: MaxPoolModel, inputs: Seq<Option<ViewModel>>, outputs: Seq<Option<ViewModel>>) -> Option<ModelError> {
    if inputs.len() != 1 {
        Some(ModelError::WrongInputCount { found: inputs.len() as usize })
    } else if inputs[0] is None {
        Some(ModelError::MissingInput { index: 0 })
    } else if outputs.len() < 1 || outputs.len() > 2 {
        Some(ModelError::WrongOutputCount { found: outputs.len() as usize })
    } else if outputs[0] is None {
        Some(ModelError::MissingOutput { index: 0 })
    } else if outputs.len() == 2 && outputs[1] is Some && outputs[1]->Some_0.dims != outputs[0]->Some_0.dims {
        Some(ModelError::InvalidIndicesShape)
    } else {
        match pool_output(op, inputs[0]->Some_0.dims) {
            Err(e) => Some(e),
            Ok((dims, _)) => if dims != outputs[0]->Some_0.dims {
                Some(ModelError::InvalidOutputShape)
            } else {
                None
            },
        }
    }
}

/// Why a MaxPool rejects the element types of valid inputs and outputs, if
/// it does: the output keeps the input's type, and the indices are 64-bit
/// integers.
pub open spec fn maxpool_dtype_error(inputs: Seq<Option<ViewModel>>, outputs: Seq<Option<ViewModel>>) -> Option<ModelError> {
    if inputs[0]->Some_0.tensor.dtype != outputs[0]->Some_0.tensor.dtype {
        Some(ModelError::PoolDtypeMismatch)
    } else if outputs.len() == 2 && outputs[1] is Some && outputs[1]->Some_0.tensor.dtype != DataType::Int64 {
        Some(ModelError::InvalidIndicesDtype)
    } else {
        None
    }
}

/// The number of the first `k` taps of a window, starting at `start`, `dil`
/// apart, that fall inside an input of `input` elements.
pub open spec fn taps_inside(start: int, dil: int, input: int, k: nat) -> nat
    decreases k,
{
    if k == 0 {
        0
    } else {
        taps_inside(start, dil, input, (k - 1) as nat) + if 0 <= start + (k - 1) * dil < input {
            1nat
        } else {
            0nat
        }
    }
}

/// The number of input elements, padding excluded, in the window of the
/// output at `coord` over the first `a` spatial axes.
pub open spec fn window_elements(coord: Seq<usize>, inputs: Seq<usize>, params: PoolParamsModel, a: nat) -> nat
    decreases a,
{
    if a == 0 {
        1
    } else {
        let axis = a - 1;
        window_elements(coord, inputs, params, (a - 1) as nat) * taps_inside(
            coord[axis] * params.strides[axis] - params.pads_begin[axis],
            params.dilations[axis] as int,
            inputs[axis] as int,
            params.kernel_shape[axis] as nat,
        )
    }
}

/// The coordinates of element `l` of a row-major shape.
pub open spec fn unravel(l: nat, dims: Seq<usize>) -> Seq<usize>
    decreases dims.len(),
{
    if dims.len() == 0 {
        Seq::empty()
    } else {
        let last = dims.last() as nat;
        unravel(l / last, dims.drop_last()).push((l % last) as usize)
    }
}

/// The comparisons of the first `n` outputs of one batch and channel: one
/// fewer than the input elements of each window.
pub open spec fn window_comparisons(n: nat, outputs: Seq<usize>, inputs: Seq<usize>, params: PoolParamsModel) -> nat
    decreases n,
{
    if n == 0 {
        0
    } else {
        let count = window_elements(unravel((n - 1) as nat, outputs), inputs, params, outputs.len());
        window_comparisons((n - 1) as nat, outputs, inputs, params) + if count >= 1 {
            (count - 1) as nat
        } else {
            0nat
        }
    }
}

/// The comparisons of a MaxPool of an input of extents `input` into an
/// output of extents `output` with these parameters.
pub open spec fn maxpool_comparisons_count(input: Seq<usize>, output: Seq<usize>, params: PoolParamsModel) -> nat {
    let out_spatial = output.skip(2);
    (output[0] as nat) * (output[1] as nat) * window_comparisons(seq_product(out_spatial), out_spatial, input.skip(2), params)
}

/// The comparisons of a MaxPool that accepts its views.
pub open spec fn maxpool_view_comparisons(op: MaxPoolModel, inputs: Seq<Option<ViewModel>>, outputs: Seq<Option<ViewModel>>) -> nat {
    let input = inputs[0]->Some_0.dims;
    maxpool_comparisons_count(input, outputs[0]->Some_0.dims, pool_output(op, input)->Ok_0.1)
}

/// The taps of one window axis that fall inside the input.
pub open spec fn axis_taps(coord: Seq<usize>, inputs: Seq<usize>, params: PoolParamsModel, axis: int) -> nat {
    taps_inside(
        coord[axis] * params.strides[axis] - params.pads_begin[axis],
        params.dilations[axis] as int,
        inputs[axis] as int,
        params.kernel_shape[axis] as nat,
    )
}

/// The number of in-bounds taps of one window axis.
fn count_taps(output_index: usize, stride: usize, pad_begin: usize, kernel: usize, dilation: usize, input_dim: usize) -> (count: usize)
    requires
        kernel >= 1,
        dilated_kernel(kernel as int, dilation as int) <= usize::MAX,
    ensures
        count == taps_inside(output_index * stride - pad_begin, dilation as int, input_dim as int, kernel as nat),
{
    proof {
        assert(output_index * stride <= u64::MAX * u64::MAX) by (nonlinear_arith)
            requires output_index <= u64::MAX, stride <= u64::MAX;
        assert(u64::MAX * u64::MAX == 0xFFFF_FFFF_FFFF_FFFE_0000_0000_0000_0001);
    }
    let base = output_index as u128 * stride as u128;
    let mut count: usize = 0;
    let mut k: usize = 0;
    let ghost start = output_index * stride - pad_begin;
    while k < kernel
        invariant
            k <= kernel,
            kernel >= 1,
            dilated_kernel(kernel as int, dilation as int) <= usize::MAX,
            base == output_index * stride,
            base <= 0xFFFF_FFFF_FFFF_FFFE_0000_0000_0000_0001,
            start == output_index * stride - pad_begin,
            count == taps_inside(start, dilation as int, input_dim as int, k as nat),
            count <= k,
        decreases kernel - k,
    {
        proof {
            assert(k * dilation <= (kernel - 1) * dilation) by (nonlinear_arith) requires k <= kernel - 1;
        }
        let position = base + (k * dilation) as u128;
        if position >= pad_begin as u128 && position < input_dim as u128 + pad_begin as u128 {
            count = count + 1;
        }
        k = k + 1;
    }
    count
}

/// A window with an axis of no taps inside has no elements; otherwise the
/// elements over the first axes are at most those over all of them.
proof fn lemma_window_prefix(coord: Seq<usize>, inputs: Seq<usize>, params: PoolParamsModel, a: nat, n: nat)
    requires
        a <= n,
        forall|b: int| 0 <= b < n ==> #[trigger] axis_taps(coord, inputs, params, b) >= 1,
    ensures
        window_elements(coord, inputs, params, a) <= window_elements(coord, inputs, params, n),
        window_elements(coord, inputs, params, a) >= 1,
    decreases n,
{
    if n > 0 {
        let t = axis_taps(coord, inputs, params, n - 1);
        assert(window_elements(coord, inputs, params, n) == window_elements(coord, inputs, params, (n - 1) as nat) * t);
        if a < n {
            lemma_window_prefix(coord, inputs, params, a, (n - 1) as nat);
        } else {
            lemma_window_prefix(coord, inputs, params, (n - 1) as nat, (n - 1) as nat);
        }
        let w = window_elements(coord, inputs, params, (n - 1) as nat);
        assert(w <= w * t) by (nonlinear_arith) requires t >= 1, w >= 1;
        assert(w * t >= 1) by (nonlinear_arith) requires t >= 1, w >= 1;
    }
}

proof fn lemma_window_zero(coord: Seq<usize>, inputs: Seq<usize>, params: PoolParamsModel, z: int, n: nat)
    requires
        0 <= z < n,
        axis_taps(coord, inputs, params, z) == 0,
    ensures
        window_elements(coord, inputs, params, n) == 0,
    decreases n,
{
    let t = axis_taps(coord, inputs, params, n - 1);
    if z < n - 1 {
        lemma_window_zero(coord, inputs, params, z, (n - 1) as nat);
    }
    let w = window_elements(coord, inputs, params, (n - 1) as nat);
    assert(w * t == 0) by (nonlinear_arith) requires w == 0 || t == 0;
}

/// The number of input elements, padding excluded, in the window of the
/// output at `output_coordinate`.
fn window_valid_element_count(output_coordinate: &[usize], input_spatial_dims: &[usize], params: &PoolParams) -> (count: u128)
    requires
        output_coordinate@.len() == input_spatial_dims@.len(),
        output_coordinate@.len() == params@.kernel_shape.len(),
        params@.kernel_shape.len() == params@.strides.len(),
        params@.kernel_shape.len() == params@.dilations.len(),
        params@.kernel_shape.len() == params@.pads_begin.len(),
        forall|a: int| 0 <= a < params@.kernel_shape.len() ==> #[trigger] params@.kernel_shape[a] >= 1,
        forall|a: int| 0 <= a < params@.kernel_shape.len() ==> dilated_kernel(
            #[trigger] params@.kernel_shape[a] as int,
            params@.dilations[a] as int,
        ) <= usize::MAX,
        window_elements(output_coordinate@, input_spatial_dims@, params@, output_coordinate@.len()) <= u64::MAX + 1,
    ensures
        count == window_elements(output_coordinate@, input_spatial_dims@, params@, output_coordinate@.len()),
{
    let ghost coord = output_coordinate@;
    let ghost inputs = input_spatial_dims@;
    let ghost p = params@;
    let n = output_coordinate.len();
    let mut counts: Vec<usize> = Vec::new();
    let mut axis: usize = 0;
    while axis < n
        invariant
            axis <= n,
            n == coord.len(),
            coord == output_coordinate@,
            inputs == input_spatial_dims@,
            p == params@,
            coord.len() == inputs.len(),
            coord.len() == p.kernel_shape.len(),
            p.kernel_shape.len() == p.strides.len(),
            p.kernel_shape.len() == p.dilations.len(),
            p.kernel_shape.len() == p.pads_begin.len(),
            forall|a: int| 0 <= a < p.kernel_shape.len() ==> #[trigger] p.kernel_shape[a] >= 1,
            forall|a: int| 0 <= a < p.kernel_shape.len() ==> dilated_kernel(#[trigger] p.kernel_shape[a] as int, p.dilations[a] as int) <= usize::MAX,
            counts@.len() == axis,
            forall|b: int| 0 <= b < axis ==> counts@[b] == axis_taps(coord, inputs, p, b),
        decreases n - axis,
    {
        let c = count_taps(
            output_coordinate[axis],
            params.strides[axis],
            params.pads_begin[axis],
            params.kernel_shape[axis],
            params.dilations[axis],
            input_spatial_dims[axis],
        );
        counts.push(c);
        axis = axis + 1;
    }
    let mut axis: usize = 0;
    while axis < n
        invariant
            axis <= n,
            n == coord.len(),
            coord == output_coordinate@,
            inputs == input_spatial_dims@,
            p == params@,
            counts@.len() == n,
            forall|b: int| 0 <= b < n ==> counts@[b] == axis_taps(coord, inputs, p, b),
            forall|b: int| 0 <= b < axis ==> counts@[b] != 0,
        decreases n - axis,
    {
        if counts[axis] == 0 {
            proof {
                lemma_window_zero(coord, inputs, p, axis as int, n as nat);
            }
            return 0;
        }
        axis = axis + 1;
    }
    let mut product: u128 = 1;
    let mut axis: usize = 0;
    proof {
        assert forall|b: int| 0 <= b < n implies #[trigger] axis_taps(coord, inputs, p, b) >= 1 by {
            assert(counts@[b] != 0);
        }
    }
    while axis < n
        invariant
            axis <= n,
            n == coord.len(),
            counts@.len() == n,
            forall|b: int| 0 <= b < n ==> counts@[b] == axis_taps(coord, inputs, p, b),
            forall|b: int| 0 <= b < n ==> #[trigger] axis_taps(coord, inputs, p, b) >= 1,
            product == window_elements(coord, inputs, p, axis as nat),
            window_elements(coord, inputs, p, n as nat) <= u64::MAX + 1,
        decreases n - axis,
    {
        proof {
            lemma_window_prefix(coord, inputs, p, (axis + 1) as nat, n as nat);
        }
        product = product * counts[axis] as u128;
        axis = axis + 1;
    }
    product
}

/// The coordinates of element `linear_idx` of a row-major shape.
fn unravel_index(linear_idx: usize, dims: &[usize]) -> (coordinate: Vec<usize>)
    requires
        all_positive(dims@),
    ensures
        coordinate@ == unravel(linear_idx as nat, dims@),
        coordinate@.len() == dims@.len(),
{
    let mut reversed: Vec<usize> = Vec::new();
    let mut rest = linear_idx;
    let mut a = dims.len();
    assert(dims@.take(a as int) =~= dims@);
    assert(reversed@.reverse() =~= Seq::<usize>::empty());
    while a > 0
        invariant
            a <= dims@.len(),
            all_positive(dims@),
            unravel(linear_idx as nat, dims@) == unravel(rest as nat, dims@.take(a as int)) + reversed@.reverse(),
            reversed@.len() == dims@.len() - a,
        decreases a,
    {
        let d = dims[a - 1];
        proof {
            let t = dims@.take(a as int);
            assert(t.drop_last() =~= dims@.take(a - 1));
            assert(t.last() == d);
            assert(unravel(rest as nat, t) == unravel((rest / d) as nat, dims@.take(a - 1)).push((rest % d) as usize));
            assert(reversed@.push(rest % d).reverse() =~= seq![rest % d] + reversed@.reverse());
            assert(unravel((rest / d) as nat, dims@.take(a - 1)).push((rest % d) as usize) + reversed@.reverse()
                =~= unravel((rest / d) as nat, dims@.take(a - 1)) + (seq![rest % d] + reversed@.reverse()));
        }
        reversed.push(rest % d);
        rest = rest / d;
        a = a - 1;
    }
    assert(dims@.take(0) =~= Seq::<usize>::empty());
    assert(unravel(linear_idx as nat, dims@) =~= reversed@.reverse());
    let n = reversed.len();
    let mut coordinate: Vec<usize> = Vec::new();
    let mut i: usize = 0;
    while i < n
        invariant
            n == reversed@.len(),
            i <= n,
            coordinate@ =~= reversed@.reverse().take(i as int),
        decreases n - i,
    {
        coordinate.push(reversed[n - 1 - i]);
        i = i + 1;
        assert(coordinate@ =~= reversed@.reverse().take(i as int));
    }
    assert(reversed@.reverse().take(n as int) =~= reversed@.reverse());
    coordinate
}

/// The comparisons of a prefix of outputs are at most those of a longer
/// one, and each output's comparisons are at most the whole.
proof fn lemma_window_comparisons_monotone(n: nat, m: nat, outputs: Seq<usize>, inputs: Seq<usize>, params: PoolParamsModel)
    requires
        n <= m,
    ensures
        window_comparisons(n, outputs, inputs, params) <= window_comparisons(m, outputs, inputs, params),
    decreases m,
{
    if n < m {
        lemma_window_comparisons_monotone(n, (m - 1) as nat, outputs, inputs, params);
    }
}

/// The shape of an output of the operator and its parameters agree on the
/// spatial rank.
pub open spec fn params_fit(params: PoolParamsModel, rank: nat) -> bool {
    &&& params.kernel_shape.len() == rank
    &&& params.strides.len() == rank
    &&& params.dilations.len() == rank
    &&& params.pads_begin.len() == rank
    &&& params.pads_end.len() == rank
    &&& forall|a: int| 0 <= a < rank ==> #[trigger] params.kernel_shape[a] >= 1
    &&& forall|a: int| 0 <= a < rank ==> dilated_kernel(#[trigger] params.kernel_shape[a] as int, params.dilations[a] as int) <= usize::MAX
}

/// The comparisons of a MaxPool between an input and output of these
/// extents.
fn count_comparisons(input_dims: &[usize], output_dims: &[usize], params: &PoolParams) -> (comparisons: usize)
    requires
        input_dims@.len() == output_dims@.len(),
        output_dims@.len() >= 3,
        dims_valid(output_dims@),
        params_fit(params@, (output_dims@.len() - 2) as nat),
        maxpool_comparisons_count(input_dims@, output_dims@, params@) <= usize::MAX,
    ensures
        comparisons == maxpool_comparisons_count(input_dims@, output_dims@, params@),
{
    let rank = output_dims.len();
    let mut spatial_out: Vec<usize> = Vec::new();
    let mut spatial_in: Vec<usize> = Vec::new();
    let mut d: usize = FIRST_SPATIAL_DIM;
    while d < rank
        invariant
            2 <= d <= rank,
            rank == output_dims@.len(),
            rank == input_dims@.len(),
            spatial_out@ == output_dims@.subrange(2, d as int),
            spatial_in@ == input_dims@.subrange(2, d as int),
        decreases rank - d,
    {
        spatial_out.push(output_dims[d]);
        spatial_in.push(input_dims[d]);
        d = d + 1;
        assert(spatial_out@ =~= output_dims@.subrange(2, d as int));
        assert(spatial_in@ =~= input_dims@.subrange(2, d as int));
    }
    assert(spatial_out@ =~= output_dims@.skip(2));
    assert(spatial_in@ =~= input_dims@.skip(2));
    let ghost outs = spatial_out@;
    let ghost ins = spatial_in@;
    let ghost p = params@;
    proof {
        assert(all_positive(outs)) by {
            assert forall|i: int| 0 <= i < outs.len() implies outs[i] > 0 by {
                assert(outs[i] == output_dims@[i + 2]);
            }
        }
        crate::util::lemma_product_suffix_le(output_dims@, 2);
    }
    let num_outputs = crate::util::suffix_product(output_dims, FIRST_SPATIAL_DIM);
    let batch = output_dims[BATCH_DIM];
    let channels = output_dims[CHANNEL_DIM];
    let ghost total = window_comparisons(num_outputs as nat, outs, ins, p);
    proof {
        assert(output_dims@.skip(2) == outs);
        assert(total <= (batch as nat) * (channels as nat) * total) by (nonlinear_arith)
            requires batch >= 1, channels >= 1;
    }
    let mut sum: usize = 0;
    let mut l: usize = 0;
    while l < num_outputs
        invariant
            l <= num_outputs,
            num_outputs == seq_product(outs),
            all_positive(outs),
            outs.len() == rank - 2,
            ins.len() == rank - 2,
            outs == spatial_out@,
            ins == spatial_in@,
            p == params@,
            params_fit(p, (rank - 2) as nat),
            total == window_comparisons(num_outputs as nat, outs, ins, p),
            total <= usize::MAX,
            sum == window_comparisons(l as nat, outs, ins, p),
        decreases num_outputs - l,
    {
        let coordinate = unravel_index(l, spatial_out.as_slice());
        proof {
            lemma_window_comparisons_monotone((l + 1) as nat, num_outputs as nat, outs, ins, p);
        }
        let count = window_valid_element_count(coordinate.as_slice(), spatial_in.as_slice(), params);
        if count >= 1 {
            sum = sum + (count - 1) as usize;
        }
        l = l + 1;
    }
    if sum == 0 {
        proof {
            assert((batch as nat) * (channels as nat) * 0 == 0) by (nonlinear_arith);
        }
        return 0;
    }
    proof {
        assert(batch * channels <= (batch as nat) * (channels as nat) * total) by (nonlinear_arith)
            requires total >= 1;
    }
    batch * channels * sum
}

proof fn lemma_pool_axes_lengths(op: MaxPoolModel, params: PoolParamsModel, dims: Seq<usize>, k: nat)
    requires
        pool_axes(op, params, dims, k) is Ok,
    ensures
        pool_axes(op, params, dims, k)->Ok_0.0.len() == k,
        pool_axes(op, params, dims, k)->Ok_0.1.len() == k,
        pool_axes(op, params, dims, k)->Ok_0.2.len() == k,
    decreases k,
{
    if k > 0 {
        lemma_pool_axes_lengths(op, params, dims, (k - 1) as nat);
    }
}

/// A successful pooling keeps the batch and channel extents, has one
/// output extent per input extent, and parameters for every spatial axis.
proof fn lemma_pool_output_shape(op: MaxPoolModel, dims: Seq<usize>)
    requires
        pool_output(op, dims) is Ok,
        dims.len() >= 3 ==> kernels_fit(op, (dims.len() - 2) as nat),
    ensures
        dims.len() >= 3,
        pool_output(op, dims)->Ok_0.0.len() == dims.len(),
        pool_output(op, dims)->Ok_0.0[0] == dims[0],
        pool_output(op, dims)->Ok_0.0[1] == dims[1],
        params_fit(pool_output(op, dims)->Ok_0.1, (dims.len() - 2) as nat),
{
    let rank = (dims.len() - 2) as nat;
    let params = normalized_params(op, rank);
    lemma_pool_axes_lengths(op, params, dims, rank);
    assert forall|a: int| 0 <= a < rank implies #[trigger] op.kernel_shape[a] >= 1 by {
        if op.kernel_shape[a] == 0 {
            assert(has_zero(op.kernel_shape));
        }
    }
}

impl OperatorMaxPool {
    /// Check the inputs and outputs of a MaxPool.
    pub fn validate(&self, inputs: &[Option<TensorView>], outputs: &[Option<TensorView>]) -> (result: Result<(), ModelError>)
        requires
            kernels_fit_input(self@, view_models(inputs@)),
        ensures
            match maxpool_error(self@, view_models(inputs@), view_models(outputs@)) {
                Some(e) => result == Err::<(), ModelError>(e),
                None => result is Ok,
            },
    {
        let ghost ins = view_models(inputs@);
        let ghost outs = view_models(outputs@);
        if inputs.len() != 1 {
            return Err(ModelError::WrongInputCount { found: inputs.len() });
        }
        let input = match &inputs[0] {
            Some(v) => v,
            None => return Err(ModelError::MissingInput { index: 0 }),
        };
        if outputs.len() < 1 || outputs.len() > 2 {
            return Err(ModelError::WrongOutputCount { found: outputs.len() });
        }
        let output = match &outputs[0] {
            Some(v) => v,
            None => return Err(ModelError::MissingOutput { index: 0 }),
        };
        assert(ins[0] == Some(input@) && outs[0] == Some(output@));
        if outputs.len() == 2 {
            match &outputs[1] {
                Some(indices) => {
                    assert(outs[1] == Some(indices@));
                    if !slices_equal(indices.shape().dims(), output.shape().dims()) {
                        return Err(ModelError::InvalidIndicesShape);
                    }
                },
                None => {},
            }
        }
        match self.output_shape_and_resolved_params(input) {
            Err(e) => Err(e),
            Ok((expected, _)) => {
                if !slices_equal(expected.as_slice(), output.shape().dims()) {
                    Err(ModelError::InvalidOutputShape)
                } else {
                    Ok(())
                }
            },
        }
    }

    /// Check the inputs and outputs of a MaxPool given as whole tensors,
    /// element types included.
    pub fn validate_tensors(&self, inputs: &[Option<Tensor>], outputs: &[Option<Tensor>]) -> (result: Result<(), ModelError>)
        requires
            kernels_fit_input(self@, full_view_models(inputs@)),
        ensures
            match maxpool_error(self@, full_view_models(inputs@), full_view_models(outputs@)) {
                Some(e) => result == Err::<(), ModelError>(e),
                None => match maxpool_dtype_error(full_view_models(inputs@), full_view_models(outputs@)) {
                    Some(e) => result == Err::<(), ModelError>(e),
                    None => result is Ok,
                },
            },
    {
        let input_views = full_views(inputs);
        let output_views = full_views(outputs);
        match self.validate(input_views.as_slice(), output_views.as_slice()) {
            Err(e) => return Err(e),
            Ok(()) => {},
        }
        let ghost ins = full_view_models(inputs@);
        let ghost outs = full_view_models(outputs@);
        let input = match &input_views[0] {
            Some(v) => v,
            None => {
                proof { assert(false); }
                return Err(ModelError::MissingInput { index: 0 });
            },
        };
        let output = match &output_views[0] {
            Some(v) => v,
            None => {
                proof { assert(false); }
                return Err(ModelError::MissingOutput { index: 0 });
            },
        };
        assert(ins[0] == Some(input@) && outs[0] == Some(output@));
        if *input.dtype() != *output.dtype() {
            return Err(ModelError::PoolDtypeMismatch);
        }
        if output_views.len() == 2 {
            match &output_views[1] {
                Some(indices) => {
                    assert(outs[1] == Some(indices@));
                    if *indices.dtype() != DataType::Int64 {
                        return Err(ModelError::InvalidIndicesDtype);
                    }
                },
                None => {},
            }
        }
        Ok(())
    }

    /// The machine operations: one comparison fewer than the input
    /// elements, padding excluded, of each output's window.
    pub fn compute_machine_ops(&self, inputs: &[Option<TensorView>], outputs: &[Option<TensorView>]) -> (result: Result<MachineOpCounts, ModelError>)
        requires
            kernels_fit_input(self@, view_models(inputs@)),
            maxpool_error(self@, view_models(inputs@), view_models(outputs@)) is None ==> maxpool_view_comparisons(
                self@,
                view_models(inputs@),
                view_models(outputs@),
            ) <= usize::MAX,
        ensures
            match maxpool_error(self@, view_models(inputs@), view_models(outputs@)) {
                Some(e) => result == Err::<MachineOpCounts, ModelError>(e),
                None => result == Ok::<MachineOpCounts, ModelError>(MachineOpCounts {
                    adds: 0,
                    compares: maxpool_view_comparisons(self@, view_models(inputs@), view_models(outputs@)) as usize,
                    muls: 0,
                }),
            },
    {
        match self.validate(inputs, outputs) {
            Err(e) => return Err(e),
            Ok(()) => {},
        }
        let ghost ins = view_models(inputs@);
        let ghost outs = view_models(outputs@);
        let input = match &inputs[0] {
            Some(v) => v,
            None => {
                proof { assert(false); }
                return Err(ModelError::MissingInput { index: 0 });
            },
        };
        let output = match &outputs[0] {
            Some(v) => v,
            None => {
                proof { assert(false); }
                return Err(ModelError::MissingOutput { index: 0 });
            },
        };
        assert(ins[0] == Some(input@) && outs[0] == Some(output@));
        let (_, params) = match self.output_shape_and_resolved_params(input) {
            Ok(r) => r,
            Err(e) => {
                proof { assert(false); }
                return Err(e);
            },
        };
        let _ = output.check_valid();
        proof {
            lemma_pool_output_shape(self@, input@.dims);
        }
        let compares = count_comparisons(input.shape().dims(), output.shape().dims(), &params);
        Ok(MachineOpCounts { adds: 0, compares, muls: 0 })
    }
}

/// `v` limited to `0..=limit`.
pub open spec fn clamp_to(v: int, limit: int) -> int {
    if v < 0 {
        0
    } else if v > limit {
        limit
    } else {
        v
    }
}

/// The input extents and offsets that one output partition reads, applied
/// to the extents and offsets read so far: batch and channel follow the
/// output, and a spatial axis spans the windows of the partition's outputs,
/// limited to the input.
pub open spec fn pool_input_step(dims: Seq<usize>, offsets: Seq<usize>, params: PoolParamsModel, p: DimPartition) -> Result<(Seq<usize>, Seq<usize>), ModelError> {
    let d = p.dim as int;
    if d >= dims.len() || dims[d] <= 1 {
        Ok((dims, offsets))
    } else if d < 2 {
        if offsets[d] + p.offset > usize::MAX {
            Err(ModelError::PartitionOffsetOverflow)
        } else {
            Ok((dims.update(d, p.num_elements), offsets.update(d, (offsets[d] + p.offset) as usize)))
        }
    } else {
        let axis = d - 2;
        let kernel = dilated_kernel(params.kernel_shape[axis] as int, params.dilations[axis] as int);
        let stride = params.strides[axis] as int;
        let pad = params.pads_begin[axis] as int;
        let first = p.offset as int;
        let last = p.offset + p.num_elements - 1;
        let start = clamp_to(first * stride - pad, dims[d] as int);
        let end = clamp_to(last * stride - pad + kernel, dims[d] as int);
        if start >= end {
            Err(ModelError::EmptyPoolPartition)
        } else if offsets[d] + start > usize::MAX {
            Err(ModelError::PartitionOffsetOverflow)
        } else {
            Ok((dims.update(d, (end - start) as usize), offsets.update(d, (offsets[d] + start) as usize)))
        }
    }
}

/// The input extents and offsets after the first `k` partitions.
pub open spec fn pool_input_steps(dims: Seq<usize>, offsets: Seq<usize>, params: PoolParamsModel, parts: Seq<DimPartition>, k: nat) -> Result<(Seq<usize>, Seq<usize>), ModelError>
    decreases k,
{
    if k == 0 {
        Ok((dims, offsets))
    } else {
        match pool_input_steps(dims, offsets, params, parts, (k - 1) as nat) {
            Err(e) => Err(e),
            Ok((d, o)) => pool_input_step(d, o, params, parts[k - 1]),
        }
    }
}

/// The part of the input view that an output partition reads.
pub open spec fn pool_input_view(input: ViewModel, params: PoolParamsModel, parts: Seq<DimPartition>) -> Result<ViewModel, ModelError> {
    match pool_input_steps(input.dims, input.offsets, params, parts, parts.len()) {
        Err(e) => Err(e),
        Ok((dims, offsets)) => {
            let model = ViewModel { tensor: input.tensor, dims, offsets };
            if view_valid(model) {
                Ok(model)
            } else {
                Err(view_error(input.tensor, dims, offsets))
            }
        },
    }
}

/// The partitions of a MaxPool for the first `k` output partitions.
pub open spec fn pool_partitions(
    input: ViewModel,
    params: PoolParamsModel,
    outputs: Seq<Option<ViewModel>>,
    rank: nat,
    specs: Seq<Seq<DimPartition>>,
) -> Result<Seq<PartitionModel>, ModelError>
    decreases specs.len(),
{
    if specs.len() == 0 {
        Ok(Seq::empty())
    } else {
        match pool_partitions(input, params, outputs, rank, specs.drop_last()) {
            Err(e) => Err(e),
            Ok(prefix) => match pool_input_view(input, params, specs.last()) {
                Err(e) => Err(e),
                Ok(view) => match partitioned_all(outputs, rank, specs.last()) {
                    Err(e) => Err(e),
                    Ok(outs) => Ok(prefix.push(PartitionModel { inputs: seq![Some(view)], outputs: outs })),
                },
            },
        }
    }
}

/// The dimensions of indices among the first `k` with extent above one, and
/// spatial only where `allow_spatial`.
pub open spec fn pool_partition_dims(dims: Seq<usize>, allow_spatial: bool, k: int) -> Seq<usize>
    decreases k,
{
    if k <= 0 {
        Seq::empty()
    } else {
        let before = pool_partition_dims(dims, allow_spatial, k - 1);
        if dims[k - 1] > 1 && (allow_spatial || k - 1 < 2) {
            before.push((k - 1) as usize)
        } else {
            before
        }
    }
}

/// Spatial dimensions can be partitioned only without padding.
pub open spec fn spatial_partitionable(op: MaxPoolModel, params: PoolParamsModel) -> bool {
    &&& op.auto_pad == AutoPad::NotSet
    &&& forall|a: int| 0 <= a < params.pads_begin.len() ==> params.pads_begin[a] == 0
    &&& forall|a: int| 0 <= a < params.pads_end.len() ==> params.pads_end[a] == 0
}

/// The partitions a MaxPool makes of views it accepts.
pub open spec fn maxpool_partitions(op: MaxPoolModel, inputs: Seq<Option<ViewModel>>, outputs: Seq<Option<ViewModel>>, requested: nat) -> Result<Seq<PartitionModel>, ModelError> {
    let input = inputs[0]->Some_0;
    let output = outputs[0]->Some_0;
    let params = pool_output(op, input.dims)->Ok_0.1;
    let dims = output.dims;
    let candidates = pool_partition_dims(dims, spatial_partitionable(op, params), dims.len() as int);
    pool_partitions(input, params, outputs, dims.len(), plan_specs(plan(dims, candidates, requested), dims))
}

/// One end of the input range that a window edge reaches: `x * stride +
/// extra - pad`, limited to `0..=limit`, for `x` of at least minus one.
fn window_edge(x_plus_one: u128, stride: usize, extra: usize, pad: usize, limit: usize) -> (edge: usize)
    requires
        x_plus_one <= 0x4_0000_0000_0000_0000,
    ensures
        edge == clamp_to((x_plus_one - 1) * stride + extra - pad, limit as int),
{
    if x_plus_one == 0 {
        // The window before the first: `-stride + extra - pad`.
        if extra as u128 > stride as u128 + pad as u128 {
            let v = extra as u128 - stride as u128 - pad as u128;
            return if v > limit as u128 { limit } else { v as usize };
        }
        return 0;
    }
    let x = x_plus_one - 1;
    let product = match x.checked_mul(stride as u128) {
        Some(p) => p,
        None => {
            proof {
                assert(x * stride + extra - pad >= x * stride - pad);
            }
            return limit;
        },
    };
    let reach = match product.checked_add(extra as u128) {
        Some(r) => r,
        None => return limit,
    };
    if reach <= pad as u128 {
        return 0;
    }
    let v = reach - pad as u128;
    if v > limit as u128 {
        limit
    } else {
        v as usize
    }
}

/// The part of the input view that an output partition reads.
fn input_partition_for_output_partition(input_view: &TensorView, partitions: &[DimPartition], params: &PoolParams) -> (result: Result<TensorView, ModelError>)
    requires
        input_view@.dims.len() >= 3,
        params_fit(params@, (input_view@.dims.len() - 2) as nat),
    ensures
        match pool_input_view(input_view@, params@, partitions@) {
            Ok(v) => result matches Ok(view) && view@ == v,
            Err(e) => result == Err::<TensorView, ModelError>(e),
        },
{
    let mut input_shape = crate::util::copy_slice(input_view.shape().dims());
    let mut input_offsets = crate::util::copy_slice(input_view.offsets());
    let ghost p = params@;
    let ghost v = input_view@;
    let rank = input_shape.len();
    let mut k: usize = 0;
    while k < partitions.len()
        invariant
            k <= partitions@.len(),
            v == input_view@,
            rank == v.dims.len(),
            rank >= 3,
            p == params@,
            params_fit(p, (rank - 2) as nat),
            input_shape@.len() == rank,
            input_offsets@.len() == rank,
            pool_input_steps(v.dims, v.offsets, p, partitions@, k as nat) == Ok::<(Seq<usize>, Seq<usize>), ModelError>(
                (input_shape@, input_offsets@),
            ),
        decreases partitions@.len() - k,
    {
        let partition = partitions[k];
        let d = partition.dim;
        let ghost before = (input_shape@, input_offsets@);
        assert(pool_input_steps(v.dims, v.offsets, p, partitions@, (k + 1) as nat) == pool_input_step(before.0, before.1, p, partition));
        if d >= rank || input_shape[d] <= 1 {
            k = k + 1;
        } else if d < FIRST_SPATIAL_DIM {
            let offset = match input_offsets[d].checked_add(partition.offset) {
                Some(o) => o,
                None => {
                    proof {
                        assert(pool_input_step(before.0, before.1, p, partition) == Err::<(Seq<usize>, Seq<usize>), ModelError>(ModelError::PartitionOffsetOverflow));
                        lemma_pool_input_steps_error(v.dims, v.offsets, p, partitions@, (k + 1) as nat, partitions@.len());
                        assert(pool_input_view(v, p, partitions@) == Err::<ViewModel, ModelError>(ModelError::PartitionOffsetOverflow));
                    }
                    return Err(ModelError::PartitionOffsetOverflow);
                },
            };
            input_offsets.set(d, offset);
            input_shape.set(d, partition.num_elements);
            k = k + 1;
        } else {
            let axis = d - FIRST_SPATIAL_DIM;
            let kernel = effective_kernel(params.kernel_shape[axis], params.dilations[axis]);
            let stride = params.strides[axis];
            let pad = params.pads_begin[axis];
            let limit = input_shape[d];
            let start = window_edge(partition.offset as u128 + 1, stride, 0, pad, limit);
            let end = window_edge(partition.offset as u128 + partition.num_elements as u128, stride, kernel, pad, limit);
            if start >= end {
                proof {
                    assert(pool_input_step(before.0, before.1, p, partition) == Err::<(Seq<usize>, Seq<usize>), ModelError>(ModelError::EmptyPoolPartition));
                    lemma_pool_input_steps_error(v.dims, v.offsets, p, partitions@, (k + 1) as nat, partitions@.len());
                    assert(pool_input_view(v, p, partitions@) == Err::<ViewModel, ModelError>(ModelError::EmptyPoolPartition));
                }
                return Err(ModelError::EmptyPoolPartition);
            }
            let offset = match input_offsets[d].checked_add(start) {
                Some(o) => o,
                None => {
                    proof {
                        assert(pool_input_step(before.0, before.1, p, partition) == Err::<(Seq<usize>, Seq<usize>), ModelError>(ModelError::PartitionOffsetOverflow));
                        lemma_pool_input_steps_error(v.dims, v.offsets, p, partitions@, (k + 1) as nat, partitions@.len());
                        assert(pool_input_view(v, p, partitions@) == Err::<ViewModel, ModelError>(ModelError::PartitionOffsetOverflow));
                    }
                    return Err(ModelError::PartitionOffsetOverflow);
                },
            };
            input_offsets.set(d, offset);
            input_shape.set(d, end - start);
            k = k + 1;
        }
    }
    TensorView::new(input_view.tensor().clone(), input_shape.as_slice(), input_offsets.as_slice())
}

/// A failing partition step fails the whole.
proof fn lemma_pool_input_steps_error(dims: Seq<usize>, offsets: Seq<usize>, params: PoolParamsModel, parts: Seq<DimPartition>, k: nat, n: nat)
    requires
        k <= n,
        pool_input_steps(dims, offsets, params, parts, k) is Err,
    ensures
        pool_input_steps(dims, offsets, params, parts, n) == pool_input_steps(dims, offsets, params, parts, k),
    decreases n - k,
{
    if k < n {
        lemma_pool_input_steps_error(dims, offsets, params, parts, k + 1, n);
    }
}

/// The dimensions to split a MaxPool output along.
fn choose_pool_partition_dims(dims: &[usize], allow_spatial: bool) -> (candidates: Vec<usize>)
    ensures
        candidates@ == pool_partition_dims(dims@, allow_spatial, dims@.len() as int),
        candidates_valid(dims@, candidates@),
{
    let mut candidates: Vec<usize> = Vec::new();
    let mut d: usize = 0;
    while d < dims.len()
        invariant
            d <= dims@.len(),
            candidates@ == pool_partition_dims(dims@, allow_spatial, d as int),
            forall|i: int| 0 <= i < candidates@.len() ==> candidates@[i] < d,
            forall|i: int, j: int| 0 <= i < j < candidates@.len() ==> candidates@[i] < candidates@[j],
        decreases dims@.len() - d,
    {
        if dims[d] > 1 && (allow_spatial || d < FIRST_SPATIAL_DIM) {
            candidates.push(d);
        }
        d = d + 1;
    }
    candidates
}

/// A failure at one output partition is the failure of the whole.
proof fn lemma_pool_partitions_error(
    input: ViewModel,
    params: PoolParamsModel,
    outputs: Seq<Option<ViewModel>>,
    rank: nat,
    specs: Seq<Seq<DimPartition>>,
    k: int,
)
    requires
        0 <= k < specs.len(),
        pool_partitions(input, params, outputs, rank, specs.take(k + 1)) is Err,
    ensures
        pool_partitions(input, params, outputs, rank, specs) == pool_partitions(input, params, outputs, rank, specs.take(k + 1)),
    decreases specs.len() - k,
{
    if k + 1 < specs.len() {
        assert(specs.take(k + 2).drop_last() =~= specs.take(k + 1));
        lemma_pool_partitions_error(input, params, outputs, rank, specs, k + 1);
    } else {
        assert(specs.take(k + 1) =~= specs);
    }
}

impl OperatorMaxPool {
    /// Whether spatial dimensions can be partitioned: only without padding.
    fn can_partition_spatial(&self, params: &PoolParams) -> (allowed: bool)
        ensures
            allowed == spatial_partitionable(self@, params@),
    {
        if self.auto_pad() != AutoPad::NotSet {
            return false;
        }
        let mut a: usize = 0;
        while a < params.pads_begin.len()
            invariant
                a <= params.pads_begin@.len(),
                forall|b: int| 0 <= b < a ==> params.pads_begin@[b] == 0,
            decreases params.pads_begin@.len() - a,
        {
            if params.pads_begin[a] != 0 {
                assert(params@.pads_begin[a as int] != 0);
                return false;
            }
            a = a + 1;
        }
        let mut a: usize = 0;
        while a < params.pads_end.len()
            invariant
                a <= params.pads_end@.len(),
                forall|b: int| 0 <= b < params.pads_begin@.len() ==> params.pads_begin@[b] == 0,
                forall|b: int| 0 <= b < a ==> params.pads_end@[b] == 0,
            decreases params.pads_end@.len() - a,
        {
            if params.pads_end[a] != 0 {
                assert(params@.pads_end[a as int] != 0);
                return false;
            }
            a = a + 1;
        }
        true
    }

    /// Split a MaxPool into at least `num_partitions` partitions where the
    /// output allows: each output partition, of both outputs where there are
    /// two, comes with the part of the input that its windows read.
    pub fn partition_views(
        &self,
        input_views: &[Option<TensorView>],
        output_views: &[Option<TensorView>],
        num_partitions: usize,
    ) -> (result: Result<Vec<TensorPartition>, ModelError>)
        requires
            kernels_fit_input(self@, view_models(input_views@)),
        ensures
            match maxpool_error(self@, view_models(input_views@), view_models(output_views@)) {
                Some(e) => result == Err::<Vec<TensorPartition>, ModelError>(e),
                None => {
                    let expected = maxpool_partitions(self@, view_models(input_views@), view_models(output_views@), num_partitions as nat);
                    match result {
                        Ok(parts) => expected == Ok::<Seq<PartitionModel>, ModelError>(partition_models(parts@)),
                        Err(e) => expected == Err::<Seq<PartitionModel>, ModelError>(e),
                    }
                },
            },
    {
        match self.validate(input_views, output_views) {
            Err(e) => return Err(e),
            Ok(()) => {},
        }
        let ghost ins = view_models(input_views@);
        let ghost outs = view_models(output_views@);
        let input_view = match &input_views[0] {
            Some(v) => v,
            None => {
                proof { assert(false); }
                return Err(ModelError::MissingInput { index: 0 });
            },
        };
        let output_view = match &output_views[0] {
            Some(v) => v,
            None => {
                proof { assert(false); }
                return Err(ModelError::MissingOutput { index: 0 });
            },
        };
        assert(ins[0] == Some(input_view@) && outs[0] == Some(output_view@));
        let (_, params) = match self.output_shape_and_resolved_params(input_view) {
            Ok(r) => r,
            Err(e) => {
                proof { assert(false); }
                return Err(e);
            },
        };
        let _ = output_view.check_valid();
        proof {
            lemma_pool_output_shape(self@, input_view@.dims);
        }
        let allow_spatial = self.can_partition_spatial(&params);
        let output_dims = output_view.shape().dims();
        let rank = output_view.num_dims();
        let candidates = choose_pool_partition_dims(output_dims, allow_spatial);
        let specs = planned_partitions(output_dims, candidates.as_slice(), num_partitions);
        let ghost all_specs = specs_view(specs@);
        let ghost p = params@;
        let mut partitions: Vec<TensorPartition> = Vec::new();
        let mut k: usize = 0;
        proof {
            assert(all_specs.take(0) =~= Seq::<Seq<DimPartition>>::empty());
            assert(partition_models(partitions@) =~= Seq::<PartitionModel>::empty());
            assert(maxpool_partitions(self@, ins, outs, num_partitions as nat) == pool_partitions(input_view@, p, outs, rank as nat, all_specs));
        }
        while k < specs.len()
            invariant
                k <= specs@.len(),
                maxpool_partitions(self@, ins, outs, num_partitions as nat) == pool_partitions(input_view@, p, outs, rank as nat, all_specs),
                ins == view_models(input_views@),
                maxpool_error(self@, ins, outs) is None,
                ins.len() == 1,
                outs.len() >= 1,
                all_specs == specs_view(specs@),
                all_specs == plan_specs(
                    plan(output_view@.dims, pool_partition_dims(output_view@.dims, spatial_partitionable(self@, p), output_view@.dims.len() as int), num_partitions as nat),
                    output_view@.dims,
                ),
                p == params@,
                p == pool_output(self@, input_view@.dims)->Ok_0.1,
                params_fit(p, (input_view@.dims.len() - 2) as nat),
                input_view@.dims.len() >= 3,
                rank == output_view@.dims.len(),
                outs == view_models(output_views@),
                ins[0] == Some(input_view@),
                outs[0] == Some(output_view@),
                pool_partitions(input_view@, p, outs, rank as nat, all_specs.take(k as int))
                    == Ok::<Seq<PartitionModel>, ModelError>(partition_models(partitions@)),
            decreases specs@.len() - k,
        {
            let spec = specs[k].as_slice();
            proof {
                assert(all_specs.take(k + 1).drop_last() =~= all_specs.take(k as int));
                assert(all_specs.take(k + 1).last() == spec@);
            }
            let input_part = match input_partition_for_output_partition(input_view, spec, &params) {
                Ok(v) => v,
                Err(e) => {
                    proof {
                        assert(pool_partitions(input_view@, p, outs, rank as nat, all_specs.take(k + 1)) == Err::<Seq<PartitionModel>, ModelError>(e));
                        lemma_pool_partitions_error(input_view@, p, outs, rank as nat, all_specs, k as int);
                    }
                    return Err(e);
                },
            };
            let outputs = match partition_each(output_views, rank, spec) {
                Ok(v) => v,
                Err(e) => {
                    proof {
                        assert(pool_partitions(input_view@, p, outs, rank as nat, all_specs.take(k + 1)) == Err::<Seq<PartitionModel>, ModelError>(e));
                        lemma_pool_partitions_error(input_view@, p, outs, rank as nat, all_specs, k as int);
                    }
                    return Err(e);
                },
            };
            let mut inputs: Vec<Option<TensorView>> = Vec::new();
            inputs.push(Some(input_part));
            let ghost before = partition_models(partitions@);
            let part = TensorPartition { inputs, outputs };
            proof {
                assert(view_models(part.inputs@) =~= seq![Some(input_part@)]);
            }
            partitions.push(part);
            proof {
                assert(partition_models(partitions@) =~= before.push(crate::operators::partition_model(part)));
            }
            k = k + 1;
        }
        assert(all_specs.take(specs@.len() as int) =~= all_specs);
        Ok(partitions)
    }
}

impl Default for OperatorMaxPool {
    fn default() -> (op: Self)
        ensures
            op.kernel_shape@ == seq![2usize, 2usize],
            op.auto_pad is None,
            op.ceil_mode is None,
            op.dilations is None,
            op.pads is None,
            op.storage_order is None,
            op.strides is None,
    {
        let kernel: [usize; 2] = [2, 2];
        let op = OperatorMaxPool::new(&kernel);
        assert(kernel@ =~= seq![2usize, 2usize]);
        op
    }
}

/// The input extent of an axis that pools into `output` outputs: the extent
/// the windows span, less the pads, at least one; with automatic padding,
/// one stride per output.
pub open spec fn inferred_input_dim(op: MaxPoolModel, params: PoolParamsModel, output: int, a: int) -> int {
    let kernel = dilated_kernel(params.kernel_shape[a] as int, params.dilations[a] as int);
    let stride = params.strides[a] as int;
    match op.auto_pad {
        AutoPad::SameUpper | AutoPad::SameLower => (output - 1) * stride + 1,
        _ => {
            let spanned = (output - 1) * stride + kernel - (params.pads_begin[a] + params.pads_end[a]);
            if spanned > 1 { spanned } else { 1 }
        },
    }
}

/// The inferred input extents of the first `k` spatial axes of an output of
/// extents `dims`, or the error of the first axis that fails.
pub open spec fn infer_axes(op: MaxPoolModel, params: PoolParamsModel, dims: Seq<usize>, k: nat) -> Result<Seq<usize>, ModelError>
    decreases k,
{
    if k == 0 {
        Ok(Seq::empty())
    } else {
        match infer_axes(op, params, dims, (k - 1) as nat) {
            Err(e) => Err(e),
            Ok(inputs) => if dims[2 + k - 1] == 0 {
                Err(ModelError::InvalidPoolParameter { reason: PoolParamError::ZeroSpatialOutput })
            } else {
                Ok(inputs.push(inferred_input_dim(op, params, dims[2 + k - 1] as int, k - 1) as usize))
            },
        }
    }
}

/// The input extents a MaxPool needs for an output of extents `dims`.
pub open spec fn pool_input_dims(op: MaxPoolModel, dims: Seq<usize>) -> Result<Seq<usize>, ModelError> {
    if dims.len() < 3 {
        Err(ModelError::InvalidPoolParameter { reason: PoolParamError::OutputRankBelowThree })
    } else {
        let rank = (dims.len() - 2) as nat;
        match pool_param_error(op, rank) {
            Some(reason) => Err(ModelError::InvalidPoolParameter { reason }),
            None => match infer_axes(op, normalized_params(op, rank), dims, rank) {
                Err(e) => Err(e),
                Ok(inputs) => Ok(seq![dims[0], dims[1]] + inputs),
            },
        }
    }
}

/// The windows of an output of extents `dims` span a number of input
/// elements that fits in `usize` on every axis.
pub open spec fn inference_fits(op: MaxPoolModel, dims: Seq<usize>) -> bool {
    dims.len() >= 3 && pool_param_error(op, (dims.len() - 2) as nat) is None ==> {
        let rank = (dims.len() - 2) as nat;
        let params = normalized_params(op, rank);
        &&& kernels_fit(op, rank)
        &&& forall|a: int| 0 <= a < rank ==> (dims[2 + a] - 1) * params.strides[a] + dilated_kernel(
            #[trigger] params.kernel_shape[a] as int,
            params.dilations[a] as int,
        ) <= usize::MAX
        &&& forall|a: int| 0 <= a < rank ==> #[trigger] params.pads_begin[a] + params.pads_end[a] <= usize::MAX
    }
}

impl OperatorMaxPool {
    /// The input extents that pool into an output of the shape of `output`.
    pub fn infer_input_shape<T: HasShape>(&self, output: &T) -> (result: Result<Vec<usize>, ModelError>)
        requires
            inference_fits(self@, output.shape_dims()),
        ensures
            match pool_input_dims(self@, output.shape_dims()) {
                Err(e) => result == Err::<Vec<usize>, ModelError>(e),
                Ok(dims) => result matches Ok(d) && d@ == dims,
            },
    {
        let rank = output.num_dims();
        if rank < 3 {
            return Err(ModelError::InvalidPoolParameter { reason: PoolParamError::OutputRankBelowThree });
        }
        let output_dims = output.shape().dims();
        let spatial_rank = rank - FIRST_SPATIAL_DIM;
        let params = match self.normalize_params(spatial_rank) {
            Ok(p) => p,
            Err(e) => return Err(e),
        };
        let ghost op = self@;
        let ghost p = params@;
        let ghost dims = output.shape_dims();
        let auto_pad = self.auto_pad();
        let mut input_dims: Vec<usize> = Vec::new();
        input_dims.push(output_dims[BATCH_DIM]);
        input_dims.push(output_dims[CHANNEL_DIM]);
        assert(input_dims@.skip(2) =~= Seq::<usize>::empty());
        let mut axis: usize = 0;
        while axis < spatial_rank
            invariant
                spatial_rank == rank - 2,
                rank == dims.len(),
                dims == output.shape_dims(),
                output_dims@ == dims,
                op == self@,
                auto_pad == op.auto_pad,
                p == params@,
                p == normalized_params(op, spatial_rank as nat),
                pool_param_error(op, spatial_rank as nat) is None,
                inference_fits(op, dims),
                axis <= spatial_rank,
                infer_axes(op, p, dims, axis as nat) == Ok::<Seq<usize>, ModelError>(input_dims@.skip(2)),
                input_dims@.len() == axis + 2,
                input_dims@[0] == dims[0],
                input_dims@[1] == dims[1],
            decreases spatial_rank - axis,
        {
            let output_dim = output_dims[FIRST_SPATIAL_DIM + axis];
            if output_dim == 0 {
                proof {
                    assert(infer_axes(op, p, dims, (axis + 1) as nat) is Err);
                    lemma_infer_axes_error(op, p, dims, (axis + 1) as nat, spatial_rank as nat);
                }
                return Err(ModelError::InvalidPoolParameter { reason: PoolParamError::ZeroSpatialOutput });
            }
            proof {
                assert(p.kernel_shape[axis as int] >= 1) by {
                    if p.kernel_shape[axis as int] == 0 {
                        assert(has_zero(op.kernel_shape));
                    }
                }
                assert(p.strides[axis as int] >= 1) by {
                    if p.strides[axis as int] == 0 {
                        assert(has_zero(op.strides));
                    }
                }
                assert((dims[2 + axis] - 1) * p.strides[axis as int] + dilated_kernel(p.kernel_shape[axis as int] as int, p.dilations[axis as int] as int) <= usize::MAX);
                assert(p.pads_begin[axis as int] + p.pads_end[axis as int] <= usize::MAX);
                assert((output_dim - 1) * params.strides@[axis as int] >= 0) by (nonlinear_arith)
                    requires output_dim >= 1, params.strides@[axis as int] >= 1;
            }
            let kernel = effective_kernel(params.kernel_shape[axis], params.dilations[axis]);
            let stride = params.strides[axis];
            let input_dim = match auto_pad {
                AutoPad::SameUpper | AutoPad::SameLower => (output_dim - 1) * stride + 1,
                AutoPad::NotSet | AutoPad::Valid => {
                    let spanned = (output_dim - 1) * stride + kernel;
                    let pads = params.pads_begin[axis] + params.pads_end[axis];
                    let shrunk = if spanned > pads { spanned - pads } else { 0 };
                    if shrunk > 1 { shrunk } else { 1 }
                },
            };
            let ghost before = input_dims@;
            input_dims.push(input_dim);
            proof {
                assert(input_dims@.skip(2) =~= before.skip(2).push(input_dim));
            }
            axis = axis + 1;
        }
        proof {
            assert(input_dims@ =~= seq![dims[0], dims[1]] + input_dims@.skip(2));
        }
        Ok(input_dims)
    }
}

/// A failing axis fails the whole.
proof fn lemma_infer_axes_error(op: MaxPoolModel, params: PoolParamsModel, dims: Seq<usize>, k: nat, n: nat)
    requires
        k <= n,
        infer_axes(op, params, dims, k) is Err,
    ensures
        infer_axes(op, params, dims, n) == infer_axes(op, params, dims, k),
    decreases n - k,
{
    if k < n {
        lemma_infer_axes_error(op, params, dims, k + 1, n);
    }
}

/// Split padding into its two halves, the larger at the end.
pub fn split_padding(total_padding: usize) -> (pads: (usize, usize))
    ensures
        pads.0 == total_padding / 2,
        pads.0 + pads.1 == total_padding,
{
    let pad_begin = total_padding / 2;
    let pad_end = total_padding - pad_begin;
    (pad_begin, pad_end)
}

/// The kernel extent and pads of one axis of a generated MaxPool that turns
/// an extent of `dim_size` into one of `target_dim_size` in the given
/// direction: a larger kernel shrinks the output, padding grows it.
pub fn maxpool_axis_params(dim_size: usize, target_dim_size: usize, direction: ExpansionDirection) -> (params: (usize, usize, usize))
    requires
        dim_size >= 1,
        target_dim_size >= 1,
    ensures
        direction == ExpansionDirection::Forward && target_dim_size <= dim_size ==> params == (
            (dim_size - target_dim_size + 1) as usize,
            0usize,
            0usize,
        ),
        direction == ExpansionDirection::Forward && target_dim_size > dim_size ==> params.0 == 1 && params.1 == (target_dim_size
            - dim_size) / 2 && params.1 + params.2 == target_dim_size - dim_size,
        direction == ExpansionDirection::Backward && target_dim_size >= dim_size ==> params == (
            (target_dim_size - dim_size + 1) as usize,
            0usize,
            0usize,
        ),
        direction == ExpansionDirection::Backward && target_dim_size < dim_size ==> params.0 == 1 && params.1 == (dim_size
            - target_dim_size) / 2 && params.1 + params.2 == dim_size - target_dim_size,
{
    match direction {
        ExpansionDirection::Forward => {
            if target_dim_size <= dim_size {
                (dim_size - target_dim_size + 1, 0, 0)
            } else {
                let (pad_begin, pad_end) = split_padding(target_dim_size - dim_size);
                (1, pad_begin, pad_end)
            }
        },
        ExpansionDirection::Backward => {
            if target_dim_size >= dim_size {
                (target_dim_size - dim_size + 1, 0, 0)
            } else {
                let (pad_begin, pad_end) = split_padding(dim_size - target_dim_size);
                (1, pad_begin, pad_end)
            }
        },
    }
}

/// A generated MaxPool that turns the spatial extents of `tensor` into the
/// target extents in the given direction; pads are given only where some
/// axis needs them.
pub fn create_maxpool_op<T: HasShape>(tensor: &T, direction: ExpansionDirection, target_dims: &[usize]) -> (result: Result<OperatorMaxPool, ModelError>)
    requires
        forall|a: int| 0 <= a < target_dims@.len() ==> #[trigger] target_dims@[a] >= 1,
    ensures
        tensor.shape_dims().len() < 3 ==> result == Err::<OperatorMaxPool, ModelError>(
            ModelError::InvalidPoolParameter { reason: PoolParamError::InputRankBelowThree },
        ),
        tensor.shape_dims().len() >= 3 && target_dims@.len() != tensor.shape_dims().len() - 2 ==> result
            == Err::<OperatorMaxPool, ModelError>(ModelError::InvalidPoolParameter { reason: PoolParamError::KernelRankMismatch }),
        result matches Ok(op) ==> {
            let rank = (tensor.shape_dims().len() - 2) as int;
            &&& tensor.shape_dims().len() >= 3
            &&& op.kernel_shape@.len() == rank
            &&& forall|a: int| 0 <= a < rank ==> (op.kernel_shape@[a], if op.pads is Some { op.pads->Some_0@[a] } else { 0usize },
                if op.pads is Some { op.pads->Some_0@[rank + a] } else { 0usize }) == #[trigger] axis_params_spec(
                tensor.shape_dims()[2 + a],
                target_dims@[a],
                direction,
            )
            &&& op.pads is Some <==> exists|a: int| 0 <= a < rank && (#[trigger] axis_params_spec(tensor.shape_dims()[2 + a], target_dims@[a], direction).1 > 0
                || axis_params_spec(tensor.shape_dims()[2 + a], target_dims@[a], direction).2 > 0)
            &&& op.pads is Some ==> op.pads->Some_0@.len() == 2 * rank
            &&& op.auto_pad is None && op.ceil_mode is None && op.dilations is None && op.storage_order is None && op.strides is None
        },
        tensor.shape_dims().len() >= 3 && target_dims@.len() == tensor.shape_dims().len() - 2 ==> result is Ok,
{
    let rank = tensor.num_dims();
    if rank < FIRST_SPATIAL_DIM + 1 {
        return Err(ModelError::InvalidPoolParameter { reason: PoolParamError::InputRankBelowThree });
    }
    let dims = tensor.shape().dims();
    let spatial = rank - FIRST_SPATIAL_DIM;
    if target_dims.len() != spatial {
        return Err(ModelError::InvalidPoolParameter { reason: PoolParamError::KernelRankMismatch });
    }
    let ghost d = tensor.shape_dims();
    let mut kernel_shape: Vec<usize> = Vec::new();
    let mut pads_begin: Vec<usize> = Vec::new();
    let mut pads_end: Vec<usize> = Vec::new();
    let mut any_pad = false;
    let mut a: usize = 0;
    while a < spatial
        invariant
            spatial == rank - 2,
            rank == d.len(),
            dims@ == d,
            dims_valid(d),
            forall|b: int| 0 <= b < target_dims@.len() ==> #[trigger] target_dims@[b] >= 1,
            target_dims@.len() == spatial,
            a <= spatial,
            kernel_shape@.len() == a,
            pads_begin@.len() == a,
            pads_end@.len() == a,
            forall|b: int| 0 <= b < a ==> (kernel_shape@[b], pads_begin@[b], pads_end@[b]) == #[trigger] axis_params_spec(d[2 + b], target_dims@[b], direction),
            any_pad <==> exists|b: int| 0 <= b < a && (#[trigger] axis_params_spec(d[2 + b], target_dims@[b], direction).1 > 0
                || axis_params_spec(d[2 + b], target_dims@[b], direction).2 > 0),
        decreases spatial - a,
    {
        let (kernel, pad_begin, pad_end) = maxpool_axis_params(dims[FIRST_SPATIAL_DIM + a], target_dims[a], direction);
        kernel_shape.push(kernel);
        pads_begin.push(pad_begin);
        pads_end.push(pad_end);
        proof {
            assert(axis_params_spec(d[2 + a], target_dims@[a as int], direction) == (kernel, pad_begin, pad_end));
        }
        if pad_begin > 0 || pad_end > 0 {
            any_pad = true;
        }
        a = a + 1;
    }
    let ghost ks = kernel_shape@;
    let ghost pb = pads_begin@;
    let ghost pe = pads_end@;
    let mut op = OperatorMaxPool::new(kernel_shape.as_slice());
    if any_pad {
        let mut pads = pads_begin;
        let mut b: usize = 0;
        let ghost begins = pads@;
        while b < spatial
            invariant
                b <= spatial,
                pads_end@.len() == spatial,
                begins.len() == spatial,
                pads@ == begins + pads_end@.take(b as int),
            decreases spatial - b,
        {
            pads.push(pads_end[b]);
            b = b + 1;
            assert(pads@ =~= begins + pads_end@.take(b as int));
        }
        assert(pads_end@.take(spatial as int) =~= pads_end@);
        op.pads = Some(pads);
        assert(op.pads->Some_0@ == pb + pe);
    }
    proof {
        let r = spatial as int;
        assert(d.len() - 2 == r);
        assert forall|b: int| 0 <= b < r implies (op.kernel_shape@[b], if op.pads is Some { op.pads->Some_0@[b] } else { 0usize },
            if op.pads is Some { op.pads->Some_0@[r + b] } else { 0usize }) == #[trigger] axis_params_spec(
            d[2 + b],
            target_dims@[b],
            direction,
        ) by {
            assert((ks[b], pb[b], pe[b]) == axis_params_spec(d[2 + b], target_dims@[b], direction));
            if any_pad {
                assert((pb + pe)[b] == pb[b]);
                assert((pb + pe)[r + b] == pe[b]);
            } else {
                assert(!(axis_params_spec(d[2 + b], target_dims@[b], direction).1 > 0 || axis_params_spec(
                    d[2 + b],
                    target_dims@[b],
                    direction,
                ).2 > 0));
            }
        }
        assert(op.pads is Some ==> op.pads->Some_0@.len() == 2 * r);
        assert(op.kernel_shape@.len() == r);
        assert(op.pads is Some <==> exists|b: int| 0 <= b < r && (#[trigger] axis_params_spec(d[2 + b], target_dims@[b], direction).1 > 0
            || axis_params_spec(d[2 + b], target_dims@[b], direction).2 > 0));
        assert(op.auto_pad is None && op.ceil_mode is None && op.dilations is None && op.storage_order is None && op.strides is None);
        assert(tensor.shape_dims() == d);
    }
    Ok(op)
}

/// The kernel extent and pads of one axis of a generated MaxPool.
pub open spec fn axis_params_spec(dim_size: usize, target_dim_size: usize, direction: ExpansionDirection) -> (usize, usize, usize) {
    match direction {
        ExpansionDirection::Forward => if target_dim_size <= dim_size {
            ((dim_size - target_dim_size + 1) as usize, 0usize, 0usize)
        } else {
            let total = (target_dim_size - dim_size) as usize;
            (1usize, (total / 2) as usize, (total - total / 2) as usize)
        },
        ExpansionDirection::Backward => if target_dim_size >= dim_size {
            ((target_dim_size - dim_size + 1) as usize, 0usize, 0usize)
        } else {
            let total = (dim_size - target_dim_size) as usize;
            (1usize, (total / 2) as usize, (total - total / 2) as usize)
        },
    }
}

/// The model of a tensor of these extents and element type at address
/// zero.
pub open spec fn tensor_at_zero(dims: Seq<usize>, dtype: DataType) -> TensorModel {
    TensorModel { id: None, dtype, dims, addr: 0 }
}

/// The tensors of a list, by their models.
pub open spec fn tensor_models(tensors: Seq<Option<Tensor>>) -> Seq<Option<TensorModel>> {
    tensors.map_values(|t: Option<Tensor>| match t {
        Some(x) => Some(x@),
        None => None,
    })
}

/// Add an indices output of the first output's shape when asked to and
/// there is none yet; tell whether one was added.
pub fn maybe_add_indices_output(outputs: &mut Vec<Option<Tensor>>, add_indices: bool) -> (result: Result<bool, ModelError>)
    ensures
        old(outputs)@.len() >= 2 || !add_indices ==> result == Ok::<bool, ModelError>(false) && final(outputs)@ == old(outputs)@,
        old(outputs)@.len() < 2 && add_indices && (old(outputs)@.len() == 0 || old(outputs)@[0] is None) ==> result
            == Err::<bool, ModelError>(ModelError::MissingOutput { index: 0 }) && final(outputs)@ == old(outputs)@,
        old(outputs)@.len() < 2 && add_indices && old(outputs)@.len() >= 1 && old(outputs)@[0] is Some ==> {
            let dims = old(outputs)@[0]->Some_0@.dims;
            let indices = tensor_at_zero(dims, DataType::Int64);
            &&& tensor_valid(indices) ==> result == Ok::<bool, ModelError>(true) && tensor_models(final(outputs)@) == tensor_models(
                old(outputs)@,
            ).push(Some(indices))
            &&& !tensor_valid(indices) ==> result == Err::<bool, ModelError>(tensor_error(dims, DataType::Int64, 0)) && final(outputs)@
                == old(outputs)@
        },
{
    if outputs.len() >= 2 || !add_indices {
        return Ok(false);
    }
    if outputs.len() == 0 {
        return Err(ModelError::MissingOutput { index: 0 });
    }
    let indices = match &outputs[0] {
        Some(output) => match Tensor::new(output.shape().dims(), &DataType::Int64, 0) {
            Ok(t) => t,
            Err(e) => return Err(e),
        },
        None => return Err(ModelError::MissingOutput { index: 0 }),
    };
    let ghost before = outputs@;
    outputs.push(Some(indices));
    proof {
        assert(tensor_models(outputs@) =~= tensor_models(before).push(Some(indices@)));
    }
    Ok(true)
}

impl OperatorMaxPool {
    /// The outputs of a MaxPool of the given input: the pooled values, and
    /// an indices output where `add_indices` asks for one.
    pub fn create_outputs(&self, inputs: &[Option<Tensor>], add_indices: bool) -> (result: Result<Vec<Option<Tensor>>, ModelError>)
        requires
            inputs@.len() == 1 && inputs@[0] is Some && inputs@[0]->Some_0@.dims.len() >= 3 ==> kernels_fit(
                self@,
                (inputs@[0]->Some_0@.dims.len() - 2) as nat,
            ),
        ensures
            inputs@.len() != 1 ==> result == Err::<Vec<Option<Tensor>>, ModelError>(ModelError::WrongInputCount { found: inputs@.len() as usize }),
            inputs@.len() == 1 && inputs@[0] is None ==> result == Err::<Vec<Option<Tensor>>, ModelError>(ModelError::MissingInput { index: 0 }),
            inputs@.len() == 1 && inputs@[0] is Some ==> {
                let input = inputs@[0]->Some_0@;
                match pool_output(self@, input.dims) {
                    Err(e) => result == Err::<Vec<Option<Tensor>>, ModelError>(e),
                    Ok((dims, _)) => {
                        let values = tensor_at_zero(dims, input.dtype);
                        let indices = tensor_at_zero(dims, DataType::Int64);
                        if !tensor_valid(values) {
                            result == Err::<Vec<Option<Tensor>>, ModelError>(tensor_error(dims, input.dtype, 0))
                        } else if add_indices && !tensor_valid(indices) {
                            result == Err::<Vec<Option<Tensor>>, ModelError>(tensor_error(dims, DataType::Int64, 0))
                        } else if add_indices {
                            result matches Ok(outs) && tensor_models(outs@) == seq![Some(values), Some(indices)]
                        } else {
                            result matches Ok(outs) && tensor_models(outs@) == seq![Some(values)]
                        }
                    },
                }
            },
    {
        if inputs.len() != 1 {
            return Err(ModelError::WrongInputCount { found: inputs.len() });
        }
        let input = match &inputs[0] {
            Some(t) => t,
            None => return Err(ModelError::MissingInput { index: 0 }),
        };
        let (dims, _) = match self.output_shape_and_resolved_params(input) {
            Ok(r) => r,
            Err(e) => return Err(e),
        };
        let values = match Tensor::new(dims.as_slice(), input.dtype(), 0) {
            Ok(t) => t,
            Err(e) => return Err(e),
        };
        let mut outputs: Vec<Option<Tensor>> = Vec::new();
        outputs.push(Some(values));
        proof {
            assert(tensor_models(outputs@) =~= seq![Some(values@)]);
        }
        match maybe_add_indices_output(&mut outputs, add_indices) {
            Ok(_) => {},
            Err(e) => return Err(e),
        }
        proof {
            if add_indices {
                assert(tensor_models(outputs@) =~= seq![Some(values@), Some(tensor_at_zero(dims@, DataType::Int64))]);
            }
        }
        Ok(outputs)
    }

    /// The input of a MaxPool that pools into the given outputs.
    pub fn create_inputs(&self, outputs: &[Option<Tensor>]) -> (result: Result<Vec<Option<Tensor>>, ModelError>)
        requires
            outputs@.len() >= 1 && outputs@[0] is Some ==> inference_fits(self@, outputs@[0]->Some_0@.dims),
        ensures
            outputs@.len() < 1 || outputs@.len() > 2 ==> result == Err::<Vec<Option<Tensor>>, ModelError>(
                ModelError::WrongOutputCount { found: outputs@.len() as usize },
            ),
            1 <= outputs@.len() <= 2 && outputs@[0] is None ==> result == Err::<Vec<Option<Tensor>>, ModelError>(
                ModelError::MissingOutput { index: 0 },
            ),
            1 <= outputs@.len() <= 2 && outputs@[0] is Some ==> {
                let output = outputs@[0]->Some_0@;
                let indices = if outputs@.len() == 2 { outputs@[1] } else { None };
                if indices is Some && indices->Some_0@.dims != output.dims {
                    result == Err::<Vec<Option<Tensor>>, ModelError>(ModelError::InvalidIndicesShape)
                } else if indices is Some && indices->Some_0@.dtype != DataType::Int64 {
                    result == Err::<Vec<Option<Tensor>>, ModelError>(ModelError::InvalidIndicesDtype)
                } else {
                    match pool_input_dims(self@, output.dims) {
                        Err(e) => result == Err::<Vec<Option<Tensor>>, ModelError>(e),
                        Ok(dims) => if tensor_valid(tensor_at_zero(dims, output.dtype)) {
                            result matches Ok(ins) && tensor_models(ins@) == seq![Some(tensor_at_zero(dims, output.dtype))]
                        } else {
                            result == Err::<Vec<Option<Tensor>>, ModelError>(tensor_error(dims, output.dtype, 0))
                        },
                    }
                }
            },
    {
        if outputs.len() < 1 || outputs.len() > 2 {
            return Err(ModelError::WrongOutputCount { found: outputs.len() });
        }
        let output = match &outputs[0] {
            Some(t) => t,
            None => return Err(ModelError::MissingOutput { index: 0 }),
        };
        if outputs.len() == 2 {
            match &outputs[1] {
                Some(indices) => {
                    if !slices_equal(indices.shape().dims(), output.shape().dims()) {
                        return Err(ModelError::InvalidIndicesShape);
                    }
                    if *indices.dtype() != DataType::Int64 {
                        return Err(ModelError::InvalidIndicesDtype);
                    }
                },
                None => {},
            }
        }
        let dims = match self.infer_input_shape(output) {
            Ok(d) => d,
            Err(e) => return Err(e),
        };
        let input = match Tensor::new(dims.as_slice(), output.dtype(), 0) {
            Ok(t) => t,
            Err(e) => return Err(e),
        };
        let mut inputs: Vec<Option<Tensor>> = Vec::new();
        inputs.push(Some(input));
        proof {
            assert(tensor_models(inputs@) =~= seq![Some(input@)]);
        }
        Ok(inputs)
    }
}

/// Each partition of a MaxPool writes, first, the output part of its output
/// partition.
pub(crate) proof fn lemma_pool_outputs(
    input: ViewModel,
    params: PoolParamsModel,
    outputs: Seq<Option<ViewModel>>,
    rank: nat,
    specs: Seq<Seq<DimPartition>>,
    ps: Seq<PartitionModel>,
)
    requires
        pool_partitions(input, params, outputs, rank, specs) == Ok::<Seq<PartitionModel>, ModelError>(ps),
        outputs.len() >= 1,
        outputs[0] is Some,
    ensures
        ps.len() == specs.len(),
        forall|i: int|
            #![trigger ps[i]]
            0 <= i < ps.len() ==> ps[i].outputs.len() >= 1 && ps[i].outputs[0] is Some && partitioned(outputs[0]->Some_0, rank, specs[i]) == Ok::<ViewModel, ModelError>(ps[i].outputs[0]->Some_0),
    decreases specs.len(),
{
    if specs.len() > 0 {
        let prefix = pool_partitions(input, params, outputs, rank, specs.drop_last())->Ok_0;
        lemma_pool_outputs(input, params, outputs, rank, specs.drop_last(), prefix);
        lemma_partitioned_all_ok(outputs, rank, specs.last());
        assert forall|i: int| #![trigger ps[i]] 0 <= i < ps.len() implies ps[i].outputs.len() >= 1 && ps[i].outputs[0] is Some && partitioned(outputs[0]->Some_0, rank, specs[i]) == Ok::<ViewModel, ModelError>(ps[i].outputs[0]->Some_0) by {
            if i < prefix.len() {
                assert(ps[i] == prefix[i]);
                assert(specs.drop_last()[i] == specs[i]);
            }
        }
    }
}

/// The dimensions a MaxPool splits along are valid split candidates.
pub(crate) proof fn lemma_pool_partition_dims_valid(dims: Seq<usize>, allow_spatial: bool, k: int)
    requires
        0 <= k <= dims.len(),
        dims.len() <= usize::MAX,
    ensures
        candidates_valid(dims, pool_partition_dims(dims, allow_spatial, k)),
        forall|i: int| 0 <= i < pool_partition_dims(dims, allow_spatial, k).len() ==> #[trigger] pool_partition_dims(dims, allow_spatial, k)[i] < k,
    decreases k,
{
    if k > 0 {
        lemma_pool_partition_dims_valid(dims, allow_spatial, k - 1);
        let prefix = pool_partition_dims(dims, allow_spatial, k - 1);
        let w = pool_partition_dims(dims, allow_spatial, k);
        if dims[k - 1] > 1 && (allow_spatial || k - 1 < 2) {
            assert forall|i: int| 0 <= i < w.len() implies #[trigger] w[i] < k by {
                if i < prefix.len() {
                    assert(w[i] == prefix[i]);
                }
            }
            assert forall|i: int, j: int| 0 <= i < j < w.len() implies w[i] < w[j] by {
                assert(w[i] == prefix[i]);
                assert(prefix[i] < k - 1);
                if j < prefix.len() {
                    assert(w[j] == prefix[j]);
                }
            }
        }
    }
}

/// With SAME padding an axis of a non-empty input gives as many outputs as
/// strides start inside the input, and pads it by just enough for the last
/// window to fit, split as evenly as possible: SAME_UPPER puts the larger
/// half at the end, SAME_LOWER at the beginning.
pub proof fn lemma_same_padding_split(op: MaxPoolModel, params: PoolParamsModel, input: int, a: int)
    requires
        op.auto_pad == AutoPad::SameUpper || op.auto_pad == AutoPad::SameLower,
        input >= 1,
        0 <= a < params.kernel_shape.len(),
        a < params.strides.len(),
        a < params.dilations.len(),
        params.strides[a] >= 1,
        params.kernel_shape[a] >= 1,
    ensures
        axis_output(op, params, input, a) matches Ok((output, pad_begin, pad_end)) && {
            let stride = params.strides[a] as int;
            let kernel = dilated_kernel(params.kernel_shape[a] as int, params.dilations[a] as int);
            &&& (output - 1) * stride < input <= output * stride
            &&& pad_begin >= 0 && pad_end >= 0
            &&& pad_begin + pad_end == if (output - 1) * stride + kernel > input {
                (output - 1) * stride + kernel - input
            } else {
                0
            }
            &&& op.auto_pad == AutoPad::SameUpper ==> pad_begin <= pad_end <= pad_begin + 1
            &&& op.auto_pad == AutoPad::SameLower ==> pad_end <= pad_begin <= pad_end + 1
        },
{
    let stride = params.strides[a] as int;
    let output = ceil_div(input, stride);
    vstd::arithmetic::div_mod::lemma_fundamental_div_mod(input + stride - 1, stride);
    vstd::arithmetic::div_mod::lemma_mod_bound(input + stride - 1, stride);
    let q = (input + stride - 1) / stride;
    let r = (input + stride - 1) % stride;
    assert((output - 1) * stride < input <= output * stride) by (nonlinear_arith)
        requires
            output == q,
            input + stride - 1 == stride * q + r,
            0 <= r < stride,
            stride >= 1,
    ;
}

/// Without ceil rounding, an axis with explicit or no padding gives as many
/// outputs as windows fit in the padded input: the last window fits and one
/// more would not. Explicit pads are kept as given; VALID pads nothing.
pub proof fn lemma_floor_windows_fit(op: MaxPoolModel, params: PoolParamsModel, input: int, a: int)
    requires
        op.auto_pad == AutoPad::NotSet || op.auto_pad == AutoPad::Valid,
        !op.ceil_mode,
        input >= 1,
        0 <= a < params.kernel_shape.len(),
        a < params.strides.len(),
        a < params.dilations.len(),
        a < params.pads_begin.len(),
        a < params.pads_end.len(),
        params.strides[a] >= 1,
    ensures
        axis_output(op, params, input, a) matches Ok((output, pad_begin, pad_end)) ==> {
            let stride = params.strides[a] as int;
            let kernel = dilated_kernel(params.kernel_shape[a] as int, params.dilations[a] as int);
            &&& op.auto_pad == AutoPad::NotSet ==> pad_begin == params.pads_begin[a] && pad_end == params.pads_end[a]
            &&& op.auto_pad == AutoPad::Valid ==> pad_begin == 0 && pad_end == 0
            &&& output >= 1
            &&& (output - 1) * stride + kernel <= input + pad_begin + pad_end < output * stride + kernel
        },
{
    let stride = params.strides[a] as int;
    let kernel = dilated_kernel(params.kernel_shape[a] as int, params.dilations[a] as int);
    let (pb, pe) = if op.auto_pad == AutoPad::NotSet {
        (params.pads_begin[a] as int, params.pads_end[a] as int)
    } else {
        (0int, 0int)
    };
    let n = input + pb + pe - kernel;
    vstd::arithmetic::div_mod::lemma_fundamental_div_mod(n, stride);
    vstd::arithmetic::div_mod::lemma_mod_bound(n, stride);
    let q = n / stride;
    let r = n % stride;
    if q + 1 >= 1 {
        assert(q * stride + kernel <= input + pb + pe < (q + 1) * stride + kernel) by (nonlinear_arith)
            requires
                n == stride * q + r,
                0 <= r < stride,
                n == input + pb + pe - kernel,
        ;
    }
    if op.auto_pad == AutoPad::Valid {
        assert(n == input - kernel);
    }
}

} // verus!
