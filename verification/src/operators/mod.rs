//! Tensor operators: validation, operation counts and partitioning.
//!
//! An operator partitions its output into pieces; each piece of the output,
//! together with the parts of the inputs it reads, forms one
//! [`TensorPartition`].
use vstd::prelude::*;

use crate::error::ModelError;
use crate::partition::{
    DimPartition, PlanModel, TensorPartition, candidates_valid, full_partition, lemma_plan_partition_inside,
    lemma_plan_partition_sizes, lemma_plan_partitions_apart, lemma_plan_splits_follow, lemma_splits_count_positive,
    partition_across_dimensions, partition_at, partition_size, partition_sizes, plan, split_extents, splits_count,
    splits_follow,
};
use crate::tensor::{Tensor, dims_valid};
use crate::tensor_view::{TensorView, ViewModel, apply_partitions, partition_step, view_error, view_valid};
use crate::util::{all_positive, seq_product};

pub mod add;
pub mod custom;
pub mod gemm;
pub mod maxpool;

verus! {

/// Which way a generated tensor grows from the tensors it is built from.
#[derive(Clone, Copy, Debug, PartialEq, Eq, Structural)]
pub enum ExpansionDirection {
    Backward,
    Forward,
}

/// The views that a list of optional views stands for.
pub open spec fn view_models(views: Seq<Option<TensorView>>) -> Seq<Option<ViewModel>> {
    views.map_values(|v: Option<TensorView>| match v {
        Some(view) => Some(view@),
        None => None,
    })
}

/// The part of `base` that an output partition reads, where the base view's
/// dimensions align with the innermost of `rank` output dimensions.
pub open spec fn partitioned(base: ViewModel, rank: nat, spec: Seq<DimPartition>) -> Result<ViewModel, ModelError> {
    let pad: int = if rank >= base.dims.len() { rank - base.dims.len() } else { 0 };
    match apply_partitions(base.dims, base.offsets, pad, spec) {
        Err(e) => Err(e),
        Ok((dims, offsets)) => {
            let model = ViewModel { tensor: base.tensor, dims, offsets };
            if view_valid(model) {
                Ok(model)
            } else {
                Err(view_error(base.tensor, dims, offsets))
            }
        },
    }
}

/// Each view partitioned by the same output partition, in order; the first
/// failure is the result.
pub open spec fn partitioned_all(views: Seq<Option<ViewModel>>, rank: nat, spec: Seq<DimPartition>) -> Result<Seq<Option<ViewModel>>, ModelError>
    decreases views.len(),
{
    if views.len() == 0 {
        Ok(Seq::empty())
    } else {
        match partitioned_all(views.drop_last(), rank, spec) {
            Err(e) => Err(e),
            Ok(prefix) => match views.last() {
                None => Ok(prefix.push(None)),
                Some(base) => match partitioned(base, rank, spec) {
                    Err(e) => Err(e),
                    Ok(view) => Ok(prefix.push(Some(view))),
                },
            },
        }
    }
}

/// What a partition is: the views of its inputs and outputs.
pub struct PartitionModel {
    pub inputs: Seq<Option<ViewModel>>,
    pub outputs: Seq<Option<ViewModel>>,
}

/// The views of a partition.
pub open spec fn partition_model(p: TensorPartition) -> PartitionModel {
    PartitionModel { inputs: view_models(p.inputs@), outputs: view_models(p.outputs@) }
}

/// The views of a list of partitions.
pub open spec fn partition_models(ps: Seq<TensorPartition>) -> Seq<PartitionModel> {
    ps.map_values(|p: TensorPartition| partition_model(p))
}

/// The output partitions of a plan, in order.
pub open spec fn plan_specs(p: PlanModel, dims: Seq<usize>) -> Seq<Seq<DimPartition>> {
    if p.full {
        seq![full_partition(dims)]
    } else {
        Seq::new(splits_count(p.splits), |k: int| partition_at(p.splits, k as nat))
    }
}

/// The partitions of a list of output partitions as sequences.
pub open spec fn specs_view(specs: Seq<Vec<DimPartition>>) -> Seq<Seq<DimPartition>> {
    specs.map_values(|s: Vec<DimPartition>| s@)
}

/// The indices of the extents greater than one among the first `k`.
pub open spec fn wide_dims(dims: Seq<usize>, k: int) -> Seq<usize>
    decreases k,
{
    if k <= 0 {
        Seq::empty()
    } else {
        let prefix = wide_dims(dims, k - 1);
        if dims[k - 1] > 1 {
            prefix.push((k - 1) as usize)
        } else {
            prefix
        }
    }
}

/// The dimensions an output is split along: those with more than one
/// element, outermost first, or else the innermost one.
pub open spec fn partition_dims_for(dims: Seq<usize>) -> Seq<usize> {
    let wide = wide_dims(dims, dims.len() as int);
    if wide.len() == 0 {
        seq![(if dims.len() >= 1 { dims.len() - 1 } else { 0 }) as usize]
    } else {
        wide
    }
}

proof fn lemma_wide_dims(dims: Seq<usize>, k: int)
    requires
        0 <= k <= dims.len(),
        dims.len() <= usize::MAX,
    ensures
        forall|i: int| 0 <= i < wide_dims(dims, k).len() ==> #[trigger] wide_dims(dims, k)[i] < k,
        forall|i: int, j: int| 0 <= i < j < wide_dims(dims, k).len() ==> #[trigger] wide_dims(dims, k)[i] < #[trigger] wide_dims(dims, k)[j],
    decreases k,
{
    if k > 0 {
        lemma_wide_dims(dims, k - 1);
        let prefix = wide_dims(dims, k - 1);
        let w = wide_dims(dims, k);
        if dims[k - 1] > 1 {
            assert(w == prefix.push((k - 1) as usize));
            assert forall|i: int| 0 <= i < w.len() implies #[trigger] w[i] < k by {
                if i < prefix.len() {
                    assert(w[i] == prefix[i]);
                }
            }
            assert forall|i: int, j: int| 0 <= i < j < w.len() implies w[i] < w[j] by {
                assert(w[i] == prefix[i]);
                assert(prefix[i] < k - 1);
                if j < prefix.len() {
                    assert(w[j] == prefix[j]);
                }
            }
        }
    }
}

/// The split candidates of a shape with at least one dimension are valid.
pub proof fn lemma_partition_dims_valid(dims: Seq<usize>)
    requires
        dims.len() >= 1,
        dims.len() <= usize::MAX,
    ensures
        candidates_valid(dims, partition_dims_for(dims)),
{
    lemma_wide_dims(dims, dims.len() as int);
}

/// The dimensions to split an output of these extents along.
pub fn choose_partition_dims(dims: &[usize]) -> (candidates: Vec<usize>)
    ensures
        candidates@ == partition_dims_for(dims@),
{
    let mut candidates: Vec<usize> = Vec::new();
    let mut d: usize = 0;
    while d < dims.len()
        invariant
            d <= dims@.len(),
            candidates@ == wide_dims(dims@, d as int),
        decreases dims@.len() - d,
    {
        if dims[d] > 1 {
            candidates.push(d);
        }
        d = d + 1;
    }
    if candidates.len() == 0 {
        candidates.push(dims.len().saturating_sub(1));
        assert(candidates@ =~= partition_dims_for(dims@));
    }
    candidates
}

/// All the output partitions that `partition_across_dimensions` plans, in
/// order.
pub fn planned_partitions(dims: &[usize], candidate_dims: &[usize], requested: usize) -> (specs: Vec<Vec<DimPartition>>)
    requires
        all_positive(dims@),
        crate::util::seq_product(dims@) <= usize::MAX,
        candidates_valid(dims@, candidate_dims@),
    ensures
        specs_view(specs@) == plan_specs(plan(dims@, candidate_dims@, requested as nat), dims@),
{
    let ghost p = plan(dims@, candidate_dims@, requested as nat);
    let mut planned = partition_across_dimensions(dims, candidate_dims, requested);
    let mut specs: Vec<Vec<DimPartition>> = Vec::new();
    loop
        invariant
            planned@.splits == p.splits,
            p.full ==> planned@.num == 0 && planned@.next == 0,
            p.full ==> (planned@.full == Some(full_partition(dims@)) && specs@.len() == 0)
                || (planned@.full is None && specs_view(specs@) == plan_specs(p, dims@)),
            !p.full ==> planned@.full is None && planned@.num == splits_count(p.splits),
            !p.full ==> planned@.next == specs@.len() && planned@.next <= planned@.num,
            !p.full ==> specs_view(specs@) == plan_specs(p, dims@).take(specs@.len() as int),
        ensures
            specs_view(specs@) == plan_specs(p, dims@),
        decreases (if planned@.full is Some { 1int } else { 0int }) + planned@.num - planned@.next,
    {
        let ghost before = specs_view(specs@);
        match planned.next() {
            None => {
                proof {
                    if !p.full {
                        assert(specs_view(specs@) =~= plan_specs(p, dims@));
                    }
                }
                break;
            },
            Some(spec) => {
                specs.push(spec);
                proof {
                    assert(specs_view(specs@) =~= before.push(spec@));
                    if p.full {
                        assert(specs_view(specs@) =~= plan_specs(p, dims@));
                    } else {
                        assert(specs_view(specs@) =~= plan_specs(p, dims@).take(specs@.len() as int));
                    }
                }
            },
        }
    }
    specs
}

/// A copy of an optional view.
pub fn clone_view(view: &Option<TensorView>) -> (copy: Option<TensorView>)
    ensures
        match (copy, *view) {
            (Some(c), Some(v)) => c@ == v@,
            (None, None) => true,
            _ => false,
        },
{
    match view {
        Some(v) => Some(v.clone()),
        None => None,
    }
}

/// Copies of optional views.
pub fn clone_views(views: &[Option<TensorView>]) -> (copies: Vec<Option<TensorView>>)
    ensures
        view_models(copies@) == view_models(views@),
{
    let mut copies: Vec<Option<TensorView>> = Vec::new();
    let mut i: usize = 0;
    while i < views.len()
        invariant
            i <= views@.len(),
            view_models(copies@) == view_models(views@.take(i as int)),
        decreases views@.len() - i,
    {
        let copy = clone_view(&views[i]);
        let ghost before = view_models(copies@);
        copies.push(copy);
        proof {
            assert(view_models(copies@) =~= before.push(view_models(views@)[i as int]));
            assert(views@.take(i + 1) =~= views@.take(i as int).push(views@[i as int]));
            assert(view_models(views@.take(i + 1)) =~= view_models(views@.take(i as int)).push(view_models(views@)[i as int]));
        }
        i = i + 1;
    }
    assert(views@.take(views@.len() as int) =~= views@);
    copies
}

/// The view of the whole of a tensor.
pub open spec fn full_view_model(t: Tensor) -> ViewModel {
    ViewModel { tensor: t@, dims: t@.dims, offsets: Seq::new(t@.dims.len(), |j: int| 0usize) }
}

/// The full views of optional tensors.
pub open spec fn full_view_models(tensors: Seq<Option<Tensor>>) -> Seq<Option<ViewModel>> {
    tensors.map_values(|t: Option<Tensor>| match t {
        Some(tensor) => Some(full_view_model(tensor)),
        None => None,
    })
}

/// Full views of optional tensors.
pub fn full_views(tensors: &[Option<Tensor>]) -> (views: Vec<Option<TensorView>>)
    ensures
        view_models(views@) == full_view_models(tensors@),
        views@.len() == tensors@.len(),
        forall|i: int| 0 <= i < tensors@.len() ==> match (#[trigger] views@[i], tensors@[i]) {
            (Some(v), Some(t)) => v@ == (ViewModel {
                tensor: t@,
                dims: t@.dims,
                offsets: Seq::new(t@.dims.len(), |j: int| 0usize),
            }),
            (None, None) => true,
            _ => false,
        },
{
    let mut views: Vec<Option<TensorView>> = Vec::new();
    let mut i: usize = 0;
    while i < tensors.len()
        invariant
            i <= tensors@.len(),
            views@.len() == i,
            forall|k: int| 0 <= k < i ==> match (#[trigger] views@[k], tensors@[k]) {
                (Some(v), Some(t)) => v@ == (ViewModel {
                    tensor: t@,
                    dims: t@.dims,
                    offsets: Seq::new(t@.dims.len(), |j: int| 0usize),
                }),
                (None, None) => true,
                _ => false,
            },
        decreases tensors@.len() - i,
    {
        let view = match &tensors[i] {
            Some(t) => Some(TensorView::new_full(t.clone())),
            None => None,
        };
        views.push(view);
        i = i + 1;
    }
    proof {
        assert(view_models(views@) =~= full_view_models(tensors@)) by {
            assert forall|k: int| 0 <= k < tensors@.len() implies view_models(views@)[k] == full_view_models(tensors@)[k] by {
                match (views@[k], tensors@[k]) {
                    (Some(v), Some(t)) => {},
                    _ => {},
                }
            }
        }
    }
    views
}

/// Each view partitioned by the same output partition, in order.
pub fn partition_each(views: &[Option<TensorView>], rank: usize, spec: &[DimPartition]) -> (result: Result<Vec<Option<TensorView>>, ModelError>)
    ensures
        match result {
            Ok(parts) => partitioned_all(view_models(views@), rank as nat, spec@) == Ok::<Seq<Option<ViewModel>>, ModelError>(view_models(parts@)),
            Err(e) => partitioned_all(view_models(views@), rank as nat, spec@) == Err::<Seq<Option<ViewModel>>, ModelError>(e),
        },
{
    let mut parts: Vec<Option<TensorView>> = Vec::new();
    let mut i: usize = 0;
    proof {
        assert(view_models(views@.take(0)) =~= Seq::<Option<ViewModel>>::empty());
        assert(view_models(parts@) =~= Seq::<Option<ViewModel>>::empty());
    }
    while i < views.len()
        invariant
            i <= views@.len(),
            partitioned_all(view_models(views@.take(i as int)), rank as nat, spec@) == Ok::<Seq<Option<ViewModel>>, ModelError>(view_models(parts@)),
        decreases views@.len() - i,
    {
        let ghost before = view_models(parts@);
        proof {
            assert(view_models(views@.take(i + 1)).drop_last() =~= view_models(views@.take(i as int)));
            assert(view_models(views@.take(i + 1)).last() == view_models(views@)[i as int]);
        }
        match &views[i] {
            None => {
                parts.push(None);
                assert(view_models(parts@) =~= before.push(None));
            },
            Some(base) => {
                match TensorView::from_output_partitions_on_view(base, rank, spec) {
                    Ok(view) => {
                        parts.push(Some(view));
                        assert(view_models(parts@) =~= before.push(Some(view@)));
                    },
                    Err(e) => {
                        proof {
                            assert(partitioned(base@, rank as nat, spec@) == Err::<ViewModel, ModelError>(e));
                            assert(partitioned_all(view_models(views@.take(i + 1)), rank as nat, spec@) == Err::<Seq<Option<ViewModel>>, ModelError>(e));
                            assert(view_models(views@.take(i + 1)) =~= view_models(views@).take(i + 1));
                            lemma_partitioned_all_error(view_models(views@), rank as nat, spec@, i as int);
                        }
                        return Err(e);
                    },
                }
            },
        }
        i = i + 1;
    }
    assert(views@.take(views@.len() as int) =~= views@);
    Ok(parts)
}

/// A failure in a prefix is the failure of the whole list.
proof fn lemma_partitioned_all_error(views: Seq<Option<ViewModel>>, rank: nat, spec: Seq<DimPartition>, i: int)
    requires
        0 <= i < views.len(),
        partitioned_all(views.take(i + 1), rank, spec) is Err,
    ensures
        partitioned_all(views, rank, spec) == partitioned_all(views.take(i + 1), rank, spec),
    decreases views.len() - i,
{
    if i + 1 < views.len() {
        let next = views.take(i + 2);
        assert(next.drop_last() =~= views.take(i + 1));
        lemma_partitioned_all_error(views, rank, spec, i + 1);
    } else {
        assert(views.take(i + 1) =~= views);
    }
}

/// A box lies inside another: the same tensor and rank, and in every
/// dimension its region lies within the other's.
pub open spec fn box_inside(inner: ViewModel, outer: ViewModel) -> bool {
    &&& inner.tensor == outer.tensor
    &&& inner.dims.len() == outer.dims.len()
    &&& inner.offsets.len() == outer.offsets.len()
    &&& forall|d: int|
        #![trigger inner.offsets[d]]
        0 <= d < outer.dims.len() ==> outer.offsets[d] <= inner.offsets[d] && inner.offsets[d] + inner.dims[d]
            <= outer.offsets[d] + outer.dims[d]
}

/// Two boxes share no element: in some dimension their regions do not meet.
pub open spec fn boxes_apart(a: ViewModel, b: ViewModel) -> bool {
    exists|d: int|
        #![trigger a.offsets[d], b.offsets[d]]
        0 <= d < a.dims.len() && (a.offsets[d] + a.dims[d] <= b.offsets[d] || b.offsets[d] + b.dims[d] <= a.offsets[d])
}

/// Whether dimension `d` is among the first `m` split dimensions.
pub open spec fn split_among(splits: Seq<(nat, nat, nat)>, m: int, d: int) -> bool {
    exists|j: int| 0 <= j < m && #[trigger] splits[j].0 == d
}

/// The extents and offsets that the first `m` parts of partition `p` of a
/// plan leave a box with: each split dimension narrowed to its part, every
/// other dimension as it was.
proof fn lemma_apply_plan_partition(dims: Seq<usize>, offsets: Seq<usize>, splits: Seq<(nat, nat, nat)>, p: nat, m: int)
    requires
        splits_follow(dims, splits),
        0 <= m <= splits.len(),
        dims.len() <= usize::MAX,
        offsets.len() == dims.len(),
        forall|d: int| 0 <= d < dims.len() ==> #[trigger] offsets[d] + dims[d] <= usize::MAX,
    ensures
        apply_partitions(dims, offsets, 0, partition_at(splits, p).take(m)) is Ok,
        ({
            let (nd, no) = apply_partitions(dims, offsets, 0, partition_at(splits, p).take(m))->Ok_0;
            &&& nd.len() == dims.len()
            &&& no.len() == dims.len()
            &&& forall|j: int|
                0 <= j < m ==> nd[(#[trigger] splits[j]).0 as int] == partition_at(splits, p)[j].num_elements
                    && no[splits[j].0 as int] == offsets[splits[j].0 as int] + partition_at(splits, p)[j].offset
            &&& forall|d: int|
                0 <= d < dims.len() && !split_among(splits, m, d) ==> #[trigger] nd[d] == dims[d] && no[d] == offsets[d]
        }),
    decreases m,
{
    let parts = partition_at(splits, p);
    if m == 0 {
        assert(parts.take(0) =~= Seq::<DimPartition>::empty());
        assert(splits.take(0) =~= Seq::<(nat, nat, nat)>::empty());
    } else {
        lemma_apply_plan_partition(dims, offsets, splits, p, m - 1);
        assert(parts.take(m).drop_last() =~= parts.take(m - 1));
        let (nd, no) = apply_partitions(dims, offsets, 0, parts.take(m - 1))->Ok_0;
        let part = parts[m - 1];
        let d = splits[m - 1].0 as int;
        assert(part == parts.take(m).last());
        assert(!split_among(splits, m - 1, d)) by {
            if split_among(splits, m - 1, d) {
                let j = choose|j: int| 0 <= j < m - 1 && #[trigger] splits[j].0 == d;
                assert(splits[j].0 < splits[m - 1].0);
            }
        }
        assert(nd[d] == dims[d]);
        assert forall|k: int| 0 <= k < splits.len() implies #[trigger] splits[k].1 <= usize::MAX by {
            assert(splits[k].1 == dims[splits[k].0 as int] as nat);
        }
        lemma_plan_partition_inside(splits, p, m - 1);
        assert(part.dim == d);
        assert(part.offset + part.num_elements <= dims[d]);
        let nd2 = nd.update(d, part.num_elements);
        let no2 = no.update(d, (no[d] + part.offset) as usize);
        assert(offsets[d] + part.offset <= usize::MAX);
        assert(partition_step(nd, no, 0, part) == Ok::<(Seq<usize>, Seq<usize>), ModelError>((nd2, no2)));
        assert(apply_partitions(dims, offsets, 0, parts.take(m)) == Ok::<(Seq<usize>, Seq<usize>), ModelError>((nd2, no2)));
        assert forall|j: int| 0 <= j < m implies nd2[(#[trigger] splits[j]).0 as int] == parts[j].num_elements
            && no2[splits[j].0 as int] == offsets[splits[j].0 as int] + parts[j].offset by {
            if j < m - 1 {
                assert(splits[j].0 < splits[m - 1].0);
            }
        }
        assert forall|e: int| 0 <= e < dims.len() && !split_among(splits, m, e) implies (#[trigger] nd2[e] == dims[e] && no2[e]
            == offsets[e]) by {
            if e == d {
                assert(splits[m - 1].0 == e);
                assert(split_among(splits, m, e));
            }
            if split_among(splits, m - 1, e) {
                let j = choose|j: int| 0 <= j < m - 1 && #[trigger] splits[j].0 == e;
                assert(0 <= j < m && splits[j].0 == e);
                assert(split_among(splits, m, e));
            }
            assert(nd2[e] == nd[e]);
            assert(no2[e] == no[e]);
        }
    }
}

/// The box that partition `p` of a plan leaves holds, times the extents of
/// the split dimensions, as many elements as the whole times the parts it
/// takes.
#[verifier::spinoff_prover]
proof fn lemma_apply_plan_product(dims: Seq<usize>, offsets: Seq<usize>, splits: Seq<(nat, nat, nat)>, p: nat, m: int)
    requires
        splits_follow(dims, splits),
        0 <= m <= splits.len(),
        dims.len() <= usize::MAX,
        offsets.len() == dims.len(),
        forall|d: int| 0 <= d < dims.len() ==> #[trigger] offsets[d] + dims[d] <= usize::MAX,
    ensures
        seq_product(apply_partitions(dims, offsets, 0, partition_at(splits, p).take(m))->Ok_0.0) * split_extents(splits.take(m))
            == seq_product(dims) * partition_size(splits, p, m as nat),
    decreases m,
{
    let parts = partition_at(splits, p);
    lemma_apply_plan_partition(dims, offsets, splits, p, m);
    let big = seq_product(dims);
    if m == 0 {
        assert(parts.take(0) =~= Seq::<DimPartition>::empty());
        assert(splits.take(0) =~= Seq::<(nat, nat, nat)>::empty());
        assert(split_extents(splits.take(0)) == 1);
        assert(partition_size(splits, p, 0) == 1);
        assert(apply_partitions(dims, offsets, 0, parts.take(0))->Ok_0.0 == dims);
    } else {
        lemma_apply_plan_product(dims, offsets, splits, p, m - 1);
        lemma_apply_plan_partition(dims, offsets, splits, p, m - 1);
        assert(parts.take(m).drop_last() =~= parts.take(m - 1));
        assert(splits.take(m).drop_last() =~= splits.take(m - 1));
        let nd = apply_partitions(dims, offsets, 0, parts.take(m - 1))->Ok_0.0;
        let no = apply_partitions(dims, offsets, 0, parts.take(m - 1))->Ok_0.1;
        let part = parts[m - 1];
        let d = splits[m - 1].0 as int;
        assert(!split_among(splits, m - 1, d)) by {
            if split_among(splits, m - 1, d) {
                let j = choose|j: int| 0 <= j < m - 1 && #[trigger] splits[j].0 == d;
                assert(splits[j].0 < splits[m - 1].0);
            }
        }
        assert(nd[d] == dims[d]);
        assert(part == parts.take(m).last());
        assert forall|k: int| 0 <= k < splits.len() implies #[trigger] splits[k].1 <= usize::MAX by {
            assert(splits[k].1 == dims[splits[k].0 as int] as nat);
        }
        lemma_plan_partition_inside(splits, p, m - 1);
        assert(offsets[d] + part.offset <= usize::MAX);
        let nd2 = nd.update(d, part.num_elements);
        let no2 = no.update(d, (no[d] + part.offset) as usize);
        assert(partition_step(nd, no, 0, part) == Ok::<(Seq<usize>, Seq<usize>), ModelError>((nd2, no2)));
        assert(apply_partitions(dims, offsets, 0, parts.take(m))->Ok_0.0 == nd2);
        lemma_product_update(nd, d, part.num_elements);
        let a = seq_product(nd2);
        let b = seq_product(nd);
        let e = split_extents(splits.take(m - 1));
        let n = nd[d] as nat;
        let k = part.num_elements as nat;
        let sz = partition_size(splits, p, (m - 1) as nat);
        assert(split_extents(splits.take(m)) == e * n);
        assert(partition_size(splits, p, m as nat) == sz * k);
        assert(a * (e * n) == big * (sz * k)) by (nonlinear_arith)
            requires
                a * n == b * k,
                b * e == big * sz,
        ;
    }
}

/// Narrowing one extent scales the product of the extents in proportion.
proof fn lemma_product_update(s: Seq<usize>, d: int, x: usize)
    requires
        0 <= d < s.len(),
    ensures
        seq_product(s.update(d, x)) * (s[d] as nat) == seq_product(s) * (x as nat),
    decreases s.len(),
{
    let u = s.update(d, x);
    let rest = seq_product(s.drop_last());
    if d == s.len() - 1 {
        assert(u.drop_last() =~= s.drop_last());
        assert(rest * (x as nat) * (s[d] as nat) == rest * (s[d] as nat) * (x as nat)) by (nonlinear_arith);
    } else {
        assert(u.drop_last() =~= s.drop_last().update(d, x));
        lemma_product_update(s.drop_last(), d, x);
        let a = seq_product(s.drop_last().update(d, x));
        let l = s.last() as nat;
        let sd = s[d] as nat;
        assert(s.drop_last()[d] == s[d]);
        assert((a * l) * sd == (rest * l) * (x as nat)) by (nonlinear_arith)
            requires
                a * sd == rest * (x as nat),
        ;
    }
}

/// The elements of the first output views of the first `k` partitions,
/// added up.
pub open spec fn output_elements(ps: Seq<PartitionModel>, k: int) -> nat
    decreases k,
{
    if k <= 0 {
        0
    } else {
        output_elements(ps, k - 1) + seq_product(ps[k - 1].outputs[0]->Some_0.dims)
    }
}

proof fn lemma_split_extents_positive(splits: Seq<(nat, nat, nat)>)
    requires
        forall|j: int| 0 <= j < splits.len() ==> #[trigger] splits[j].1 > 0,
    ensures
        split_extents(splits) > 0,
    decreases splits.len(),
{
    if splits.len() > 0 {
        let r = splits.drop_last();
        assert forall|j: int| 0 <= j < r.len() implies #[trigger] r[j].1 > 0 by {
            assert(r[j] == splits[j]);
        }
        lemma_split_extents_positive(r);
        assert(split_extents(r) * splits.last().1 > 0) by (nonlinear_arith)
            requires
                split_extents(r) > 0,
                splits.last().1 > 0,
        ;
    }
}

proof fn lemma_elements_sum(dims: Seq<usize>, offsets: Seq<usize>, splits: Seq<(nat, nat, nat)>, ps: Seq<PartitionModel>, k: int)
    requires
        splits_follow(dims, splits),
        dims.len() <= usize::MAX,
        offsets.len() == dims.len(),
        forall|d: int| 0 <= d < dims.len() ==> #[trigger] offsets[d] + dims[d] <= usize::MAX,
        0 <= k <= ps.len(),
        forall|i: int|
            #![trigger ps[i]]
            0 <= i < ps.len() ==> ps[i].outputs[0]->Some_0.dims == apply_partitions(dims, offsets, 0, partition_at(splits, i as nat))->Ok_0.0,
    ensures
        output_elements(ps, k) * split_extents(splits) == seq_product(dims) * partition_sizes(splits, k as nat),
    decreases k,
{
    if k > 0 {
        lemma_elements_sum(dims, offsets, splits, ps, k - 1);
        let parts = partition_at(splits, (k - 1) as nat);
        lemma_apply_plan_product(dims, offsets, splits, (k - 1) as nat, splits.len() as int);
        assert(parts.take(splits.len() as int) =~= parts);
        assert(splits.take(splits.len() as int) =~= splits);
        let x = seq_product(ps[k - 1].outputs[0]->Some_0.dims);
        let y = partition_size(splits, (k - 1) as nat, splits.len());
        let oe = output_elements(ps, k - 1);
        let pz = partition_sizes(splits, (k - 1) as nat);
        let e = split_extents(splits);
        let big = seq_product(dims);
        assert((oe + x) * e == big * (pz + y)) by (nonlinear_arith)
            requires
                oe * e == big * pz,
                x * e == big * y,
        ;
    } else {
        let e = split_extents(splits);
        let big = seq_product(dims);
        assert(output_elements(ps, 0) == 0);
        assert(partition_sizes(splits, 0) == 0);
        assert(output_elements(ps, 0) * e == big * partition_sizes(splits, 0)) by (nonlinear_arith)
            requires
                output_elements(ps, 0) == 0,
                partition_sizes(splits, 0) == 0,
        ;
    }
}

/// Partitions whose first output is the output partition of a plan, one
/// for each, hold as many output elements together as the output.
pub(crate) proof fn lemma_outputs_elements(output: ViewModel, candidates: Seq<usize>, requested: nat, ps: Seq<PartitionModel>)
    requires
        view_valid(output),
        candidates_valid(output.dims, candidates),
        output.dims.len() <= usize::MAX,
        ps.len() == plan_specs(plan(output.dims, candidates, requested), output.dims).len(),
        forall|i: int|
            #![trigger ps[i]]
            0 <= i < ps.len() ==> ({
                let spec = plan_specs(plan(output.dims, candidates, requested), output.dims)[i];
                &&& ps[i].outputs.len() >= 1
                &&& ps[i].outputs[0] is Some
                &&& partitioned(output, output.dims.len(), spec) == Ok::<ViewModel, ModelError>(ps[i].outputs[0]->Some_0)
            }),
    ensures
        output_elements(ps, ps.len() as int) == seq_product(output.dims),
{
    let dims = output.dims;
    let offsets = output.offsets;
    let pl = plan(dims, candidates, requested);
    let specs = plan_specs(pl, dims);
    assert forall|d: int| 0 <= d < dims.len() implies #[trigger] offsets[d] + dims[d] <= usize::MAX by {
        assert(offsets[d] + dims[d] <= output.tensor.dims[d]);
    }
    if pl.full {
        assert(specs[0] == full_partition(dims));
        assert(ps[0].outputs[0]->Some_0.dims == dims) by {
            lemma_apply_full_partition(dims, offsets, dims.len() as int);
            assert(full_partition(dims).take(dims.len() as int) =~= full_partition(dims));
        }
        assert(output_elements(ps, 1) == output_elements(ps, 0) + seq_product(ps[0].outputs[0]->Some_0.dims));
    } else {
        let splits = pl.splits;
        lemma_plan_splits_follow(dims, candidates, requested);
        assert forall|i: int| #![trigger ps[i]] 0 <= i < ps.len() implies ps[i].outputs[0]->Some_0.dims == apply_partitions(
            dims,
            offsets,
            0,
            partition_at(splits, i as nat),
        )->Ok_0.0 by {
            assert(specs[i] == partition_at(splits, i as nat));
        }
        lemma_elements_sum(dims, offsets, splits, ps, ps.len() as int);
        assert forall|k: int| 0 <= k < splits.len() implies #[trigger] splits[k].1 <= usize::MAX && splits[k].1 > 0 by {
            assert(splits[k].1 == dims[splits[k].0 as int] as nat);
        }
        lemma_plan_partition_sizes(splits);
        lemma_split_extents_positive(splits);
        let oe = output_elements(ps, ps.len() as int);
        let e = split_extents(splits);
        let big = seq_product(dims);
        assert(oe == big) by (nonlinear_arith)
            requires
                oe * e == big * e,
                e > 0,
        ;
    }
}

/// The partition that covers every dimension leaves a box as it was.
proof fn lemma_apply_full_partition(dims: Seq<usize>, offsets: Seq<usize>, m: int)
    requires
        0 <= m <= dims.len(),
        dims.len() <= usize::MAX,
        offsets.len() == dims.len(),
        forall|d: int| 0 <= d < dims.len() ==> #[trigger] offsets[d] + dims[d] <= usize::MAX,
    ensures
        apply_partitions(dims, offsets, 0, full_partition(dims).take(m)) == Ok::<(Seq<usize>, Seq<usize>), ModelError>(
            (dims, offsets),
        ),
    decreases m,
{
    let parts = full_partition(dims);
    if m == 0 {
        assert(parts.take(0) =~= Seq::<DimPartition>::empty());
    } else {
        lemma_apply_full_partition(dims, offsets, m - 1);
        assert(parts.take(m).drop_last() =~= parts.take(m - 1));
        assert(parts.take(m).last() == parts[m - 1]);
        assert(dims.update(m - 1, dims[m - 1]) =~= dims);
        assert(offsets.update(m - 1, (offsets[m - 1] + 0) as usize) =~= offsets);
    }
}

/// The output boxes that a plan's partitions cut from a valid view lie
/// inside it and share no element with one another.
pub proof fn lemma_plan_specs_tile(output: ViewModel, candidates: Seq<usize>, requested: nat)
    requires
        view_valid(output),
        candidates_valid(output.dims, candidates),
        output.dims.len() <= usize::MAX,
    ensures
        ({
            let specs = plan_specs(plan(output.dims, candidates, requested), output.dims);
            let rank = output.dims.len();
            &&& specs.len() >= 1
            &&& forall|i: int|
                0 <= i < specs.len() && (#[trigger] partitioned(output, rank, specs[i])) is Ok ==> box_inside(
                    partitioned(output, rank, specs[i])->Ok_0,
                    output,
                )
            &&& forall|i: int, j: int|
                0 <= i < specs.len() && 0 <= j < specs.len() && i != j && (#[trigger] partitioned(output, rank, specs[i])) is Ok
                    && (#[trigger] partitioned(output, rank, specs[j])) is Ok ==> boxes_apart(
                    partitioned(output, rank, specs[i])->Ok_0,
                    partitioned(output, rank, specs[j])->Ok_0,
                )
        }),
{
    let dims = output.dims;
    let offsets = output.offsets;
    let pl = plan(dims, candidates, requested);
    let specs = plan_specs(pl, dims);
    let rank = dims.len();
    assert forall|d: int| 0 <= d < dims.len() implies #[trigger] offsets[d] + dims[d] <= usize::MAX by {
        assert(offsets[d] + dims[d] <= output.tensor.dims[d]);
    }
    if pl.full {
        lemma_apply_full_partition(dims, offsets, dims.len() as int);
        assert(full_partition(dims).take(dims.len() as int) =~= full_partition(dims));
        assert(specs.len() == 1);
        assert forall|i: int| 0 <= i < specs.len() && (#[trigger] partitioned(output, rank, specs[i])) is Ok implies box_inside(
            partitioned(output, rank, specs[i])->Ok_0,
            output,
        ) by {
            assert(specs[i] == full_partition(dims));
        }
    } else {
        let splits = pl.splits;
        lemma_plan_splits_follow(dims, candidates, requested);
        lemma_splits_count_positive(splits);
        assert forall|i: int| 0 <= i < specs.len() && (#[trigger] partitioned(output, rank, specs[i])) is Ok implies box_inside(
            partitioned(output, rank, specs[i])->Ok_0,
            output,
        ) by {
            let parts = partition_at(splits, i as nat);
            assert(specs[i] == parts);
            lemma_apply_plan_partition(dims, offsets, splits, i as nat, splits.len() as int);
            assert(parts.take(splits.len() as int) =~= parts);
            let b = partitioned(output, rank, specs[i])->Ok_0;
            assert forall|d: int| 0 <= d < dims.len() implies output.offsets[d] <= #[trigger] b.offsets[d] && b.offsets[d]
                + b.dims[d] <= output.offsets[d] + output.dims[d] by {
                if split_among(splits, splits.len() as int, d) {
                    let j = choose|j: int| 0 <= j < splits.len() && #[trigger] splits[j].0 == d;
                    lemma_plan_partition_inside(splits, i as nat, j);
                    assert(splits[j].1 == dims[d]);
                }
            }
        }
        assert forall|i: int, j: int|
            0 <= i < specs.len() && 0 <= j < specs.len() && i != j && (#[trigger] partitioned(output, rank, specs[i])) is Ok
                && (#[trigger] partitioned(output, rank, specs[j])) is Ok implies boxes_apart(
            partitioned(output, rank, specs[i])->Ok_0,
            partitioned(output, rank, specs[j])->Ok_0,
        ) by {
            let pi = partition_at(splits, i as nat);
            let pj = partition_at(splits, j as nat);
            assert(specs[i] == pi);
            assert(specs[j] == pj);
            lemma_apply_plan_partition(dims, offsets, splits, i as nat, splits.len() as int);
            lemma_apply_plan_partition(dims, offsets, splits, j as nat, splits.len() as int);
            assert(pi.take(splits.len() as int) =~= pi);
            assert(pj.take(splits.len() as int) =~= pj);
            let a = partitioned(output, rank, specs[i])->Ok_0;
            let b = partitioned(output, rank, specs[j])->Ok_0;
            lemma_plan_partitions_apart(splits, i as nat, j as nat);
            let k = choose|k: int|
                0 <= k < splits.len() && (#[trigger] partition_at(splits, i as nat)[k]).dim == partition_at(splits, j as nat)[k].dim
                    && (partition_at(splits, i as nat)[k].offset + partition_at(splits, i as nat)[k].num_elements
                    <= partition_at(splits, j as nat)[k].offset || partition_at(splits, j as nat)[k].offset + partition_at(
                    splits,
                    j as nat,
                )[k].num_elements <= partition_at(splits, i as nat)[k].offset);
            let d = splits[k].0 as int;
            assert(a.offsets[d] == offsets[d] + pi[k].offset);
            assert(b.offsets[d] == offsets[d] + pj[k].offset);
            assert(a.dims[d] == pi[k].num_elements);
            assert(b.dims[d] == pj[k].num_elements);
        }
    }
}

/// The output views of a list of partitions tile an output view: each
/// partition has one, each lies inside the output, and no two share an
/// element.
pub open spec fn partitions_tile(ps: Seq<PartitionModel>, output: ViewModel) -> bool {
    &&& forall|i: int|
        #![trigger ps[i]]
        0 <= i < ps.len() ==> ps[i].outputs.len() >= 1 && ps[i].outputs[0] is Some && box_inside(ps[i].outputs[0]->Some_0, output)
    &&& forall|i: int, j: int|
        #![trigger ps[i], ps[j]]
        0 <= i < ps.len() && 0 <= j < ps.len() && i != j ==> boxes_apart(ps[i].outputs[0]->Some_0, ps[j].outputs[0]->Some_0)
}

/// Partitions whose first output is the output partition of a plan, one
/// for each, tile the output.
pub(crate) proof fn lemma_outputs_tile(output: ViewModel, candidates: Seq<usize>, requested: nat, ps: Seq<PartitionModel>)
    requires
        view_valid(output),
        candidates_valid(output.dims, candidates),
        output.dims.len() <= usize::MAX,
        ps.len() == plan_specs(plan(output.dims, candidates, requested), output.dims).len(),
        forall|i: int|
            #![trigger ps[i]]
            0 <= i < ps.len() ==> ({
                let spec = plan_specs(plan(output.dims, candidates, requested), output.dims)[i];
                &&& ps[i].outputs.len() >= 1
                &&& ps[i].outputs[0] is Some
                &&& partitioned(output, output.dims.len(), spec) == Ok::<ViewModel, ModelError>(ps[i].outputs[0]->Some_0)
            }),
    ensures
        ps.len() >= 1,
        partitions_tile(ps, output),
{
    let specs = plan_specs(plan(output.dims, candidates, requested), output.dims);
    let rank = output.dims.len();
    lemma_plan_specs_tile(output, candidates, requested);
    assert forall|i: int| #![trigger ps[i]] 0 <= i < ps.len() implies ps[i].outputs.len() >= 1 && ps[i].outputs[0] is Some
        && box_inside(ps[i].outputs[0]->Some_0, output) by {
        assert(partitioned(output, rank, specs[i]) is Ok);
    }
    assert forall|i: int, j: int|
        #![trigger ps[i], ps[j]]
        0 <= i < ps.len() && 0 <= j < ps.len() && i != j implies boxes_apart(ps[i].outputs[0]->Some_0, ps[j].outputs[0]->Some_0) by {
        assert(partitioned(output, rank, specs[i]) is Ok);
        assert(partitioned(output, rank, specs[j]) is Ok);
    }
}

/// Where every view is partitioned, each present view gives its partitioned
/// view at the same place.
pub(crate) proof fn lemma_partitioned_all_ok(views: Seq<Option<ViewModel>>, rank: nat, spec: Seq<DimPartition>)
    requires
        partitioned_all(views, rank, spec) is Ok,
    ensures
        partitioned_all(views, rank, spec)->Ok_0.len() == views.len(),
        forall|i: int|
            0 <= i < views.len() && (#[trigger] views[i]) is Some ==> partitioned(views[i]->Some_0, rank, spec) is Ok
                && partitioned_all(views, rank, spec)->Ok_0[i] == Some(partitioned(views[i]->Some_0, rank, spec)->Ok_0),
    decreases views.len(),
{
    if views.len() > 0 {
        let rest = views.drop_last();
        lemma_partitioned_all_ok(rest, rank, spec);
        let outs = partitioned_all(views, rank, spec)->Ok_0;
        let prefix = partitioned_all(rest, rank, spec)->Ok_0;
        assert forall|i: int| 0 <= i < views.len() && (#[trigger] views[i]) is Some implies partitioned(views[i]->Some_0, rank, spec) is Ok
            && outs[i] == Some(partitioned(views[i]->Some_0, rank, spec)->Ok_0) by {
            if i < rest.len() {
                assert(rest[i] == views[i]);
                assert(outs[i] == prefix[i]);
            }
        }
    }
}

} // verus!
