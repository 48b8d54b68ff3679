//! Splitting the output of an operator into partitions.
use vstd::prelude::*;

use crate::error::ModelError;
use crate::tensor_view::{TensorView, layout_access_bytes, layout_of};
use crate::util::{all_positive, lemma_product_prefix_le, lemma_product_take_step, seq_product};

verus! {

/// The part of one dimension that a partition covers.
#[derive(Clone, Copy, Debug, PartialEq, Eq, Structural)]
pub struct DimPartition {
    pub dim: usize,
    pub offset: usize,
    pub num_elements: usize,
}

/// The views that one partition of an operator reads and writes.
#[derive(Clone, Debug)]
pub struct TensorPartition {
    pub inputs: Vec<Option<TensorView>>,
    pub outputs: Vec<Option<TensorView>>,
}

/// The bytes touched by each present view in a list, added up.
pub open spec fn views_bytes(views: Seq<Option<TensorView>>) -> nat
    decreases views.len(),
{
    if views.len() == 0 {
        0
    } else {
        views_bytes(views.drop_last()) + match views.last() {
            Some(v) => layout_access_bytes(layout_of(v@)),
            None => 0,
        }
    }
}

/// The bytes that a partition's inputs and outputs touch.
pub open spec fn partition_bytes(p: TensorPartition) -> nat {
    views_bytes(p.inputs@) + views_bytes(p.outputs@)
}

impl TensorPartition {
    /// The number of bytes that the partition's views touch, or an error
    /// where that overflows `usize`.
    pub fn working_set_bytes(&self) -> (result: Result<usize, ModelError>)
        ensures
            match result {
                Ok(n) => n == partition_bytes(*self),
                Err(e) => partition_bytes(*self) > usize::MAX && e == ModelError::WorkingSetOverflow,
            },
    {
        let inputs = match sum_view_bytes(&self.inputs, 0) {
            Ok(n) => n,
            Err(e) => {
                proof {
                    lemma_views_bytes_prefix(self.outputs@, 0);
                    assert(self.outputs@.take(0) =~= Seq::<Option<TensorView>>::empty());
                }
                return Err(e);
            },
        };
        sum_view_bytes(&self.outputs, inputs)
    }
}

proof fn lemma_views_bytes_prefix(views: Seq<Option<TensorView>>, k: int)
    requires
        0 <= k <= views.len(),
    ensures
        views_bytes(views.take(k)) <= views_bytes(views),
    decreases views.len() - k,
{
    if k < views.len() {
        lemma_views_bytes_prefix(views, k + 1);
        assert(views.take(k + 1).drop_last() =~= views.take(k));
    } else {
        assert(views.take(k) =~= views);
    }
}

/// Add the bytes of each present view to `start`.
fn sum_view_bytes(views: &Vec<Option<TensorView>>, start: usize) -> (result: Result<usize, ModelError>)
    ensures
        match result {
            Ok(n) => n == start + views_bytes(views@),
            Err(e) => start + views_bytes(views@) > usize::MAX && e == ModelError::WorkingSetOverflow,
        },
{
    let mut total = start;
    let mut i: usize = 0;
    assert(views@.take(0) =~= Seq::<Option<TensorView>>::empty());
    while i < views.len()
        invariant
            i <= views@.len(),
            total == start + views_bytes(views@.take(i as int)),
        decreases views@.len() - i,
    {
        proof {
            assert(views@.take(i + 1).drop_last() =~= views@.take(i as int));
            assert(views@.take(i + 1).last() == views@[i as int]);
        }
        match &views[i] {
            Some(view) => {
                let bytes = view.layout().num_access_bytes();
                match total.checked_add(bytes) {
                    Some(next) => total = next,
                    None => {
                        proof {
                            lemma_views_bytes_prefix(views@, i + 1);
                        }
                        return Err(ModelError::WorkingSetOverflow);
                    },
                }
            },
            None => {},
        }
        i = i + 1;
    }
    assert(views@.take(views@.len() as int) =~= views@);
    Ok(total)
}

/// One dimension of the output split into equal parts.
#[derive(Clone, Copy, Debug)]
pub struct SplitDimension {
    dim: usize,
    num_elements: usize,
    num_partitions: usize,
}

/// What a split is: a dimension, its extent and the number of parts.
pub struct SplitModel {
    pub dim: nat,
    pub num_elements: nat,
    pub num_partitions: nat,
}

impl View for SplitDimension {
    type V = SplitModel;

    closed spec fn view(&self) -> SplitModel {
        SplitModel {
            dim: self.dim as nat,
            num_elements: self.num_elements as nat,
            num_partitions: self.num_partitions as nat,
        }
    }
}

/// Where part `index` of `num_elements` elements split into `parts` parts
/// starts: the first `num_elements % parts` parts hold one more element.
pub open spec fn part_offset(num_elements: nat, parts: nat, index: nat) -> nat {
    let base = num_elements / parts;
    let rem = num_elements % parts;
    index * base + if index < rem { index } else { rem }
}

/// The number of elements of part `index`.
pub open spec fn part_len(num_elements: nat, parts: nat, index: nat) -> nat {
    num_elements / parts + if index < num_elements % parts { 1nat } else { 0nat }
}

/// Consecutive parts are adjacent: each starts where the one before ends,
/// the first starts at zero and the last ends at the end of the dimension.
pub proof fn lemma_parts_tile(num_elements: nat, parts: nat, index: nat)
    requires
        parts > 0,
        index < parts,
    ensures
        part_offset(num_elements, parts, 0) == 0,
        part_offset(num_elements, parts, index) + part_len(num_elements, parts, index)
            == part_offset(num_elements, parts, index + 1),
        part_offset(num_elements, parts, parts) == num_elements,
        parts <= num_elements ==> part_len(num_elements, parts, index) >= 1,
{
    let base = num_elements / parts;
    let rem = num_elements % parts;
    assert(num_elements == parts * base + rem) by (nonlinear_arith) requires parts > 0, base == num_elements / parts, rem == num_elements % parts;
    assert((index + 1) * base == index * base + base) by (nonlinear_arith);
    assert(0 * base == 0) by (nonlinear_arith);
    assert(parts * base == base * parts) by (nonlinear_arith);
    if parts <= num_elements {
        assert(base >= 1) by (nonlinear_arith) requires parts <= num_elements, parts > 0, base == num_elements / parts;
    }
}

impl SplitDimension {
    #[verifier::type_invariant]
    spec fn split_invariant(self) -> bool {
        0 < self.num_partitions <= self.num_elements
    }

    /// Part `index` of the split dimension.
    pub fn partition(&self, index: usize) -> (part: DimPartition)
        requires
            index < self@.num_partitions,
        ensures
            part.dim == self@.dim,
            part.offset == part_offset(self@.num_elements, self@.num_partitions, index as nat),
            part.num_elements == part_len(self@.num_elements, self@.num_partitions, index as nat),
    {
        proof {
            use_type_invariant(self);
        }
        let base_num_elements = self.num_elements / self.num_partitions;
        let remainder = self.num_elements % self.num_partitions;
        proof {
            let n = self.num_elements as nat;
            let p = self.num_partitions as nat;
            assert(n == p * base_num_elements + remainder) by (nonlinear_arith)
                requires p > 0, base_num_elements == n / p, remainder == n % p;
            assert(index * base_num_elements <= p * base_num_elements) by (nonlinear_arith) requires index < p;
            assert(index * base_num_elements + base_num_elements <= p * base_num_elements) by (nonlinear_arith) requires index < p;
        }
        let extra = if index < remainder { index } else { remainder };
        DimPartition {
            dim: self.dim,
            offset: index * base_num_elements + extra,
            num_elements: base_num_elements + if index < remainder { 1 } else { 0 },
        }
    }
}

/// What a plan is: either the single partition that covers everything, or
/// the split dimensions, outermost first.
pub struct PlanModel {
    pub full: bool,
    pub splits: Seq<(nat, nat, nat)>,
}

/// The number of partitions of a list of splits.
pub open spec fn splits_count(splits: Seq<(nat, nat, nat)>) -> nat
    decreases splits.len(),
{
    if splits.len() == 0 {
        1
    } else {
        splits_count(splits.drop_last()) * splits.last().2
    }
}

/// The state of the planning loop after `k` candidates: the splits chosen
/// and whether the requested count has been reached.
pub open spec fn plan_prefix(dims: Seq<usize>, candidates: Seq<usize>, requested: nat, k: int) -> (Seq<(nat, nat, nat)>, bool)
    decreases k,
{
    if k <= 0 {
        (Seq::empty(), false)
    } else {
        let (splits, done) = plan_prefix(dims, candidates, requested, k - 1);
        if done {
            (splits, done)
        } else {
            let dim = candidates[k - 1];
            let extent = dims[dim as int] as nat;
            let achieved = splits_count(splits);
            let needed: nat = if achieved > 0 { ((requested + achieved - 1) as nat) / achieved } else { 1 };
            let needed: nat = if needed >= 1 { needed } else { 1 };
            let parts = if extent < needed { extent } else { needed };
            if extent <= 1 || parts <= 1 {
                (splits, false)
            } else {
                let next = splits.push((dim as nat, extent, parts));
                (next, splits_count(next) >= requested)
            }
        }
    }
}

/// The plan that `partition_across_dimensions` makes.
pub open spec fn plan(dims: Seq<usize>, candidates: Seq<usize>, requested: nat) -> PlanModel {
    let requested = if requested >= 1 { requested } else { 1 };
    let (splits, _) = plan_prefix(dims, candidates, requested, candidates.len() as int);
    PlanModel { full: splits.len() == 0, splits }
}

/// The candidate dimensions are distinct, increasing and inside the shape.
pub open spec fn candidates_valid(dims: Seq<usize>, candidates: Seq<usize>) -> bool {
    &&& forall|i: int| 0 <= i < candidates.len() ==> candidates[i] < dims.len()
    &&& forall|i: int, j: int| 0 <= i < j < candidates.len() ==> candidates[i] < candidates[j]
}

/// Part `index` of each split, for partition number `p` of a plan: the
/// index along split `j` is digit `j` of `p` in the mixed radix of the
/// split counts, most significant first.
pub open spec fn split_index(splits: Seq<(nat, nat, nat)>, j: int, p: nat) -> nat {
    (p / splits_count(splits.skip(j + 1))) % splits[j].2
}

/// The partition of each split dimension for partition number `p`.
pub open spec fn partition_at(splits: Seq<(nat, nat, nat)>, p: nat) -> Seq<DimPartition> {
    Seq::new(splits.len(), |j: int| DimPartition {
        dim: splits[j].0 as usize,
        offset: part_offset(splits[j].1, splits[j].2, split_index(splits, j, p)) as usize,
        num_elements: part_len(splits[j].1, splits[j].2, split_index(splits, j, p)) as usize,
    })
}

/// A lazy sequence of partition specifications.
#[derive(Debug)]
pub struct PartitionSpecs {
    full_partition: Option<Vec<DimPartition>>,
    split_dims: Vec<SplitDimension>,
    next_partition: usize,
    num_partitions: usize,
}


/// What a sequence of partition specifications is.
pub struct SpecsModel {
    pub full: Option<Seq<DimPartition>>,
    pub splits: Seq<(nat, nat, nat)>,
    pub next: nat,
    pub num: nat,
}

/// The view of each split in a sequence.
pub open spec fn splits_view(splits: Seq<SplitDimension>) -> Seq<(nat, nat, nat)> {
    splits.map_values(|s: SplitDimension| (s@.dim, s@.num_elements, s@.num_partitions))
}

/// The partition that covers every dimension completely.
pub open spec fn full_partition(dims: Seq<usize>) -> Seq<DimPartition> {
    Seq::new(dims.len(), |d: int| DimPartition { dim: d as usize, offset: 0, num_elements: dims[d] })
}

impl View for PartitionSpecs {
    type V = SpecsModel;

    closed spec fn view(&self) -> SpecsModel {
        SpecsModel {
            full: match self.full_partition {
                Some(v) => Some(v@),
                None => None,
            },
            splits: splits_view(self.split_dims@),
            next: self.next_partition as nat,
            num: self.num_partitions as nat,
        }
    }
}

/// Once the requested count is reached the plan no longer changes.
proof fn lemma_plan_done_persists(dims: Seq<usize>, candidates: Seq<usize>, requested: nat, k: int, j: int)
    requires
        0 <= k <= j,
        plan_prefix(dims, candidates, requested, k).1,
    ensures
        plan_prefix(dims, candidates, requested, j) == plan_prefix(dims, candidates, requested, k),
    decreases j - k,
{
    if j > k {
        lemma_plan_done_persists(dims, candidates, requested, k, j - 1);
    }
}

proof fn lemma_splits_count_push(splits: Seq<(nat, nat, nat)>, s: (nat, nat, nat))
    ensures
        splits_count(splits.push(s)) == splits_count(splits) * s.2,
{
    assert(splits.push(s).drop_last() =~= splits);
}

proof fn lemma_ceil_div(requested: nat, achieved: nat)
    requires
        achieved > 0,
    ensures
        ((requested + achieved - 1) as nat) / achieved == requested / achieved + if requested % achieved != 0 { 1nat } else { 0nat },
        achieved * (((requested + achieved - 1) as nat) / achieved) < requested + achieved,
        achieved * (((requested + achieved - 1) as nat) / achieved) >= requested,
{
    let q = requested / achieved;
    let r = requested % achieved;
    assert(requested == achieved * q + r) by (nonlinear_arith) requires achieved > 0, q == requested / achieved, r == requested % achieved;
    if r == 0 {
        assert(((requested + achieved - 1) as nat) / achieved == q) by (nonlinear_arith)
            requires requested == achieved * q, achieved > 0;
    } else {
        assert(((requested + achieved - 1) as nat) / achieved == q + 1) by (nonlinear_arith)
            requires requested == achieved * q + r, 0 < r < achieved;
    }
    assert(achieved * (q + 1) == achieved * q + achieved) by (nonlinear_arith);
}

/// Plan how to split `dims` along `candidate_dims` into at least
/// `requested` partitions, using as few dimensions as needed.
pub fn partition_across_dimensions(dims: &[usize], candidate_dims: &[usize], requested: usize) -> (specs: PartitionSpecs)
    requires
        all_positive(dims@),
        seq_product(dims@) <= usize::MAX,
        candidates_valid(dims@, candidate_dims@),
    ensures
        ({
            let p = plan(dims@, candidate_dims@, requested as nat);
            &&& specs@.splits == p.splits
            &&& specs@.next == 0
            &&& if p.full {
                specs@.full == Some(full_partition(dims@)) && specs@.num == 0
            } else {
                specs@.full.is_none() && specs@.num == splits_count(p.splits)
            }
        }),
{
    let requested = if requested >= 1 { requested } else { 1 };
    let mut split_dims: Vec<SplitDimension> = Vec::new();
    let mut achieved: usize = 1;
    let mut k: usize = 0;
    let mut bound_index: usize = 0;
    let mut done = false;
    proof {
        assert(dims@.take(0) =~= Seq::<usize>::empty());
        assert(splits_count(Seq::<(nat, nat, nat)>::empty()) == 1);
    }
    while k < candidate_dims.len() && !done
        invariant
            k <= candidate_dims@.len(),
            requested >= 1,
            all_positive(dims@),
            seq_product(dims@) <= usize::MAX,
            candidates_valid(dims@, candidate_dims@),
            plan_prefix(dims@, candidate_dims@, requested as nat, k as int) == (splits_view(split_dims@), done),
            done ==> split_dims@.len() > 0,
            achieved == splits_count(splits_view(split_dims@)),
            achieved >= 1,
            bound_index <= dims@.len(),
            k > 0 ==> bound_index == candidate_dims@[k - 1] + 1,
            k == 0 ==> bound_index == 0,
            achieved <= seq_product(dims@.take(bound_index as int)),
            forall|i: int| 0 <= i < split_dims@.len() ==> 0 < (#[trigger] split_dims@[i])@.num_partitions <= split_dims@[i]@.num_elements,
        decreases candidate_dims@.len() - k,
    {
        let dim = candidate_dims[k];
        let dim_extent = dims[dim];
        let ghost old_splits = splits_view(split_dims@);
        proof {
            lemma_product_prefix_le(dims@.take(dim as int), bound_index as int);
            assert(dims@.take(dim as int).take(bound_index as int) =~= dims@.take(bound_index as int));
            lemma_product_take_step(dims@, dim as int);
            lemma_product_prefix_le(dims@, dim as int + 1);
            assert(all_positive(dims@.take(dim as int)));
        }
        if dim_extent <= 1 {
            k = k + 1;
            proof {
                lemma_product_prefix_le(dims@.take(dim as int + 1), dim as int);
                assert(dims@.take(dim as int + 1).take(dim as int) =~= dims@.take(dim as int));
            }
            bound_index = dim + 1;
            continue;
        }
        proof {
            lemma_ceil_div(requested as nat, achieved as nat);
            let q = requested / achieved;
            let r = requested % achieved;
            if r != 0 {
                assert(q <= q * achieved) by (nonlinear_arith) requires achieved >= 1;
                assert(requested == achieved * q + r) by (nonlinear_arith)
                    requires achieved > 0, q == requested / achieved, r == requested % achieved;
                assert(q * achieved == achieved * q) by (nonlinear_arith);
            }
        }
        let needed_raw = requested / achieved + if requested % achieved != 0 { 1 } else { 0 };
        let needed = if needed_raw >= 1 { needed_raw } else { 1 };
        let splits = if dim_extent < needed { dim_extent } else { needed };
        if splits <= 1 {
            k = k + 1;
            proof {
                lemma_product_prefix_le(dims@.take(dim as int + 1), dim as int);
                assert(dims@.take(dim as int + 1).take(dim as int) =~= dims@.take(dim as int));
            }
            bound_index = dim + 1;
            continue;
        }
        proof {
            let pa = seq_product(dims@.take(bound_index as int));
            let pd = seq_product(dims@.take(dim as int));
            assert(achieved * splits <= pd * dim_extent) by (nonlinear_arith)
                requires achieved <= pa, pa <= pd, splits <= dim_extent;
        }
        let split = SplitDimension { dim, num_elements: dim_extent, num_partitions: splits };
        split_dims.push(split);
        proof {
            assert(achieved * splits >= 1) by (nonlinear_arith) requires achieved >= 1, splits >= 2;
        }
        achieved = achieved * splits;
        proof {
            assert(splits_view(split_dims@) =~= old_splits.push((dim as nat, dim_extent as nat, splits as nat)));
            lemma_splits_count_push(old_splits, (dim as nat, dim_extent as nat, splits as nat));
        }
        k = k + 1;
        bound_index = dim + 1;
        if achieved >= requested {
            done = true;
        }
    }
    proof {
        if done {
            lemma_plan_done_persists(dims@, candidate_dims@, requested as nat, k as int, candidate_dims@.len() as int);
        }
    }
    if split_dims.len() == 0 {
        let mut full: Vec<DimPartition> = Vec::new();
        let mut d: usize = 0;
        while d < dims.len()
            invariant
                d <= dims@.len(),
                full@ =~= full_partition(dims@).take(d as int),
            decreases dims@.len() - d,
        {
            full.push(DimPartition { dim: d, offset: 0, num_elements: dims[d] });
            d = d + 1;
            assert(full@ =~= full_partition(dims@).take(d as int));
        }
        assert(full_partition(dims@).take(dims@.len() as int) =~= full_partition(dims@));
        return PartitionSpecs { full_partition: Some(full), split_dims, next_partition: 0, num_partitions: 0 };
    }
    PartitionSpecs { full_partition: None, split_dims, next_partition: 0, num_partitions: achieved }
}

/// The largest useful number of partitions: the product of the candidate
/// extents, and at least one.
pub fn max_partitions_across_dimensions(dims: &[usize], candidate_dims: &[usize]) -> (n: usize)
    requires
        all_positive(dims@),
        seq_product(dims@) <= usize::MAX,
        candidates_valid(dims@, candidate_dims@),
    ensures
        n == (if candidates_extent(dims@, candidate_dims@, candidate_dims@.len() as int) >= 1 {
            candidates_extent(dims@, candidate_dims@, candidate_dims@.len() as int)
        } else {
            1
        }),
{
    let mut product: usize = 1;
    let mut k: usize = 0;
    proof {
        assert(dims@.take(0) =~= Seq::<usize>::empty());
    }
    while k < candidate_dims.len()
        invariant
            k <= candidate_dims@.len(),
            all_positive(dims@),
            seq_product(dims@) <= usize::MAX,
            candidates_valid(dims@, candidate_dims@),
            product == candidates_extent(dims@, candidate_dims@, k as int),
            k > 0 ==> product <= seq_product(dims@.take(candidate_dims@[k - 1] + 1)),
        decreases candidate_dims@.len() - k,
    {
        let dim = candidate_dims[k];
        proof {
            let b: int = if k > 0 { candidate_dims@[k - 1] + 1 } else { 0 };
            if k == 0 {
                assert(dims@.take(0) =~= Seq::<usize>::empty());
            }
            lemma_product_prefix_le(dims@.take(dim as int), b);
            assert(dims@.take(dim as int).take(b) =~= dims@.take(b));
            lemma_product_take_step(dims@, dim as int);
            lemma_product_prefix_le(dims@, dim as int + 1);
            let pb = seq_product(dims@.take(b));
            let pd = seq_product(dims@.take(dim as int));
            assert(product <= pb);
            assert(product * dims@[dim as int] <= pd * dims@[dim as int]) by (nonlinear_arith)
                requires product <= pb, pb <= pd;
        }
        product = product * dims[dim];
        k = k + 1;
    }
    if product >= 1 { product } else { 1 }
}

/// The product of the extents of the first `k` candidate dimensions.
pub open spec fn candidates_extent(dims: Seq<usize>, candidates: Seq<usize>, k: int) -> nat
    decreases k,
{
    if k <= 0 {
        1
    } else {
        candidates_extent(dims, candidates, k - 1) * (dims[candidates[k - 1] as int] as nat)
    }
}

impl PartitionSpecs {
    #[verifier::type_invariant]
    spec fn specs_invariant(self) -> bool {
        &&& self.split_dims@.len() > 0 ==> self.num_partitions == splits_count(splits_view(self.split_dims@))
        &&& self.split_dims@.len() == 0 ==> self.num_partitions == 0
        &&& self.next_partition <= self.num_partitions
        &&& forall|i: int| 0 <= i < self.split_dims@.len() ==> 0 < #[trigger] self.split_dims@[i]@.num_partitions
    }

    /// The number of partitions still to come.
    pub fn len(&self) -> (n: usize)
        ensures
            n == (if self@.full.is_some() { 1 } else { self@.num - self@.next }),
    {
        proof {
            use_type_invariant(self);
        }
        if self.full_partition.is_some() {
            1
        } else {
            self.num_partitions - self.next_partition
        }
    }

    /// The next partition: the whole output if nothing is split, else the
    /// part of each split dimension for the next partition number.
    pub fn next(&mut self) -> (item: Option<Vec<DimPartition>>)
        ensures
            match old(self)@.full {
                Some(f) => item is Some && item->Some_0@ == f && final(self)@ == (SpecsModel { full: None, ..old(self)@ }),
                None => if old(self)@.next == old(self)@.num {
                    item is None && final(self)@ == old(self)@
                } else {
                    item is Some && item->Some_0@ == partition_at(old(self)@.splits, old(self)@.next)
                        && final(self)@ == (SpecsModel { next: old(self)@.next + 1, ..old(self)@ })
                },
            },
    {
        proof {
            use_type_invariant(&*self);
        }
        match &self.full_partition {
            Some(full) => {
                let copy = copy_partitions(full);
                self.full_partition = None;
                return Some(copy);
            },
            None => {},
        }
        if self.next_partition == self.num_partitions {
            return None;
        }
        let partition_index = self.next_partition;
        self.next_partition = self.next_partition + 1;
        let ghost splits = splits_view(self.split_dims@);
        let mut divisor = self.num_partitions;
        let mut result: Vec<DimPartition> = Vec::new();
        let mut j: usize = 0;
        proof {
            assert(splits.skip(0) =~= splits);
        }
        while j < self.split_dims.len()
            invariant
                j <= self.split_dims@.len(),
                splits == splits_view(self.split_dims@),
                forall|i: int| 0 <= i < self.split_dims@.len() ==> 0 < #[trigger] self.split_dims@[i]@.num_partitions,
                divisor == splits_count(splits.skip(j as int)),
                result@ =~= partition_at(splits, partition_index as nat).take(j as int),
            decreases self.split_dims@.len() - j,
        {
            let split = self.split_dims[j];
            proof {
                assert forall|i: int| 0 <= i < splits.skip(j + 1).len() implies (#[trigger] splits.skip(j + 1)[i]).2 > 0 by {
                    assert(splits.skip(j + 1)[i] == splits[j + 1 + i]);
                    assert(self.split_dims@[j + 1 + i]@.num_partitions > 0);
                }
                lemma_splits_count_positive(splits.skip(j + 1));
                lemma_splits_count_first(splits.skip(j as int));
                assert(splits.skip(j as int).drop_first() =~= splits.skip(j + 1));
                assert(splits[j as int] == (split@.dim, split@.num_elements, split@.num_partitions));
                assert(splits.skip(j as int)[0] == splits[j as int]);
                let rest = splits_count(splits.skip(j + 1));
                let np = split.num_partitions as nat;
                assert((np * rest) / np == rest) by (nonlinear_arith)
                    requires np > 0;
            }
            divisor = divisor / split.num_partitions;
            let index = partition_index / divisor % split.num_partitions;
            result.push(split.partition(index));
            j = j + 1;
        }
        assert(partition_at(splits, partition_index as nat).take(splits.len() as int) =~= partition_at(splits, partition_index as nat));
        Some(result)
    }
}

fn copy_partitions(parts: &Vec<DimPartition>) -> (copy: Vec<DimPartition>)
    ensures
        copy@ == parts@,
{
    let mut copy: Vec<DimPartition> = Vec::new();
    let mut i: usize = 0;
    while i < parts.len()
        invariant
            i <= parts@.len(),
            copy@ =~= parts@.take(i as int),
        decreases parts@.len() - i,
    {
        copy.push(parts[i]);
        i = i + 1;
        assert(copy@ =~= parts@.take(i as int));
    }
    assert(parts@.take(parts@.len() as int) =~= parts@);
    copy
}

proof fn lemma_splits_count_first(splits: Seq<(nat, nat, nat)>)
    requires
        splits.len() > 0,
    ensures
        splits_count(splits) == splits[0].2 * splits_count(splits.drop_first()),
    decreases splits.len(),
{
    if splits.len() == 1 {
        assert(splits.drop_first() =~= Seq::<(nat, nat, nat)>::empty());
        assert(splits.drop_last() =~= Seq::<(nat, nat, nat)>::empty());
        assert(splits_count(Seq::<(nat, nat, nat)>::empty()) == 1);
        assert(splits_count(splits) == splits_count(splits.drop_last()) * splits.last().2);
    } else {
        lemma_splits_count_first(splits.drop_last());
        assert(splits.drop_last().drop_first() =~= splits.drop_first().drop_last());
        let a = splits[0].2;
        let b = splits_count(splits.drop_first().drop_last());
        let c = splits.last().2;
        assert(splits.drop_first().last().2 == c);
        assert(splits_count(splits) == splits_count(splits.drop_last()) * c);
        assert(splits_count(splits.drop_first()) == b * c);
        assert(a * b * c == a * (b * c)) by (nonlinear_arith);
    }
}

pub(crate) proof fn lemma_splits_count_positive(splits: Seq<(nat, nat, nat)>)
    requires
        forall|i: int| 0 <= i < splits.len() ==> splits[i].2 > 0,
    ensures
        splits_count(splits) > 0,
    decreases splits.len(),
{
    if splits.len() > 0 {
        lemma_splits_count_positive(splits.drop_last());
        let a = splits_count(splits.drop_last());
        let b = splits.last().2;
        assert(a * b > 0) by (nonlinear_arith) requires a > 0, b > 0;
    }
}

/// Every split has at least one part.
pub open spec fn splits_positive(splits: Seq<(nat, nat, nat)>) -> bool {
    forall|j: int| 0 <= j < splits.len() ==> #[trigger] splits[j].2 >= 1
}

/// Two different partition numbers of a plan differ in the part they take
/// of some split.
proof fn lemma_split_indices_distinguish(splits: Seq<(nat, nat, nat)>, p: nat, q: nat)
    requires
        splits_positive(splits),
        p < splits_count(splits),
        q < splits_count(splits),
        p != q,
    ensures
        exists|j: int| 0 <= j < splits.len() && #[trigger] split_index(splits, j, p) != split_index(splits, j, q),
    decreases splits.len(),
{
    let n = splits.len();
    if n == 0 {
        assert(false);
    } else {
        let r = splits.drop_last();
        let c = splits.last().2;
        assert(c >= 1);
        assert(splits.skip(n as int) =~= Seq::<(nat, nat, nat)>::empty());
        assert(splits_count(splits.skip(n as int)) == 1);
        assert(splits.skip((n - 1) + 1) == splits.skip(n as int));
        assert(p as int / 1 == p as int) by (nonlinear_arith);
        assert(q as int / 1 == q as int) by (nonlinear_arith);
        assert(splits[n - 1] == splits.last());
        assert(split_index(splits, n - 1, p) == p % c);
        assert(split_index(splits, n - 1, q) == q % c);
        if p % c == q % c {
            assert(splits_positive(r)) by {
                assert forall|j: int| 0 <= j < r.len() implies #[trigger] r[j].2 >= 1 by {
                    assert(r[j] == splits[j]);
                }
            }
            lemma_splits_count_positive(r);
            vstd::arithmetic::div_mod::lemma_fundamental_div_mod(p as int, c as int);
            vstd::arithmetic::div_mod::lemma_fundamental_div_mod(q as int, c as int);
            assert(p / c != q / c);
            let a = splits_count(r);
            assert(p / c < a) by (nonlinear_arith)
                requires
                    p < a * c,
                    c >= 1,
                    p == c * (p / c) + p % c,
                    p % c >= 0,
            ;
            assert(q / c < a) by (nonlinear_arith)
                requires
                    q < a * c,
                    c >= 1,
                    q == c * (q / c) + q % c,
                    q % c >= 0,
            ;
            lemma_split_indices_distinguish(r, p / c, q / c);
            let j = choose|j: int| 0 <= j < r.len() && #[trigger] split_index(r, j, p / c) != split_index(r, j, q / c);
            let tail = splits.skip(j + 1);
            assert(tail.drop_last() =~= r.skip(j + 1));
            assert(tail.last() == splits.last());
            assert(splits_count(tail) == splits_count(r.skip(j + 1)) * c);
            let b = splits_count(r.skip(j + 1));
            assert(splits_positive(r.skip(j + 1))) by {
                assert forall|k: int| 0 <= k < r.skip(j + 1).len() implies #[trigger] r.skip(j + 1)[k].2 >= 1 by {
                    assert(r.skip(j + 1)[k] == splits[j + 1 + k]);
                }
            }
            lemma_splits_count_positive(r.skip(j + 1));
            vstd::arithmetic::div_mod::lemma_div_denominator(p as int, c as int, b as int);
            vstd::arithmetic::div_mod::lemma_div_denominator(q as int, c as int, b as int);
            assert(c * b == b * c) by (nonlinear_arith);
            assert(r[j] == splits[j]);
            assert(split_index(splits, j, p) == split_index(r, j, p / c));
            assert(split_index(splits, j, q) == split_index(r, j, q / c));
        }
    }
}

/// Parts of a split dimension lie in order: an earlier part ends where or
/// before a later one starts, and every part ends inside the dimension.
proof fn lemma_parts_ordered(num_elements: nat, parts: nat, a: nat, b: nat)
    requires
        parts > 0,
        a <= b <= parts,
    ensures
        part_offset(num_elements, parts, a) <= part_offset(num_elements, parts, b),
    decreases b - a,
{
    if a < b {
        lemma_parts_tile(num_elements, parts, a);
        lemma_parts_ordered(num_elements, parts, a + 1, b);
    }
}

/// The partitions of a plan are apart: two different partition numbers
/// take parts of some split dimension that share no element, and every part
/// lies inside its dimension.
pub proof fn lemma_plan_partitions_apart(splits: Seq<(nat, nat, nat)>, p: nat, q: nat)
    requires
        splits_positive(splits),
        forall|j: int| 0 <= j < splits.len() ==> #[trigger] splits[j].1 <= usize::MAX,
        p < splits_count(splits),
        q < splits_count(splits),
        p != q,
    ensures
        exists|j: int|
            0 <= j < splits.len() && (#[trigger] partition_at(splits, p)[j]).dim == partition_at(splits, q)[j].dim && (
            partition_at(splits, p)[j].offset + partition_at(splits, p)[j].num_elements <= partition_at(splits, q)[j].offset
                || partition_at(splits, q)[j].offset + partition_at(splits, q)[j].num_elements <= partition_at(
                splits,
                p,
            )[j].offset),
{
    lemma_split_indices_distinguish(splits, p, q);
    let j = choose|j: int| 0 <= j < splits.len() && #[trigger] split_index(splits, j, p) != split_index(splits, j, q);
    let (dim, n, c) = splits[j];
    assert(c >= 1);
    let a = split_index(splits, j, p);
    let b = split_index(splits, j, q);
    vstd::arithmetic::div_mod::lemma_mod_bound((p / splits_count(splits.skip(j + 1))) as int, c as int);
    vstd::arithmetic::div_mod::lemma_mod_bound((q / splits_count(splits.skip(j + 1))) as int, c as int);
    if a < b {
        lemma_parts_tile(n, c, a);
        lemma_parts_ordered(n, c, a + 1, b);
    } else {
        lemma_parts_tile(n, c, b);
        lemma_parts_ordered(n, c, b + 1, a);
    }
    assert(part_offset(n, c, b) + part_len(n, c, b) <= part_offset(n, c, c)) by {
        lemma_parts_tile(n, c, b);
        lemma_parts_ordered(n, c, b + 1, c);
    }
    assert(part_offset(n, c, a) + part_len(n, c, a) <= part_offset(n, c, c)) by {
        lemma_parts_tile(n, c, a);
        lemma_parts_ordered(n, c, a + 1, c);
    }
    lemma_parts_tile(n, c, 0);
    assert(part_offset(n, c, c) == n) by {
        lemma_parts_tile(n, c, 0);
    }
    assert(partition_at(splits, p)[j].offset == part_offset(n, c, a));
    assert(partition_at(splits, p)[j].num_elements == part_len(n, c, a));
    assert(partition_at(splits, q)[j].offset == part_offset(n, c, b));
    assert(partition_at(splits, q)[j].num_elements == part_len(n, c, b));
    assert(partition_at(splits, p)[j].dim == partition_at(splits, q)[j].dim);
}

proof fn lemma_plan_prefix_splits(dims: Seq<usize>, candidates: Seq<usize>, requested: nat, k: int)
    ensures
        splits_positive(plan_prefix(dims, candidates, requested, k).0),
        forall|j: int|
            0 <= j < plan_prefix(dims, candidates, requested, k).0.len() ==> #[trigger] plan_prefix(
                dims,
                candidates,
                requested,
                k,
            ).0[j].1 <= usize::MAX,
    decreases k,
{
    if k > 0 {
        lemma_plan_prefix_splits(dims, candidates, requested, k - 1);
        let prev = plan_prefix(dims, candidates, requested, k - 1).0;
        let now = plan_prefix(dims, candidates, requested, k).0;
        assert forall|j: int| 0 <= j < now.len() implies #[trigger] now[j].2 >= 1 && now[j].1 <= usize::MAX by {
            if j < prev.len() {
                assert(now[j] == prev[j]);
            }
        }
    }
}

/// Two different partitions that a plan of a shape makes are apart: they
/// take parts of some split dimension that share no element.
pub proof fn lemma_planned_partitions_apart(dims: Seq<usize>, candidates: Seq<usize>, requested: nat, p: nat, q: nat)
    requires
        p < splits_count(plan(dims, candidates, requested).splits),
        q < splits_count(plan(dims, candidates, requested).splits),
        p != q,
    ensures
        ({
            let splits = plan(dims, candidates, requested).splits;
            exists|j: int|
                0 <= j < splits.len() && (#[trigger] partition_at(splits, p)[j]).dim == partition_at(splits, q)[j].dim && (
                partition_at(splits, p)[j].offset + partition_at(splits, p)[j].num_elements <= partition_at(splits, q)[j].offset
                    || partition_at(splits, q)[j].offset + partition_at(splits, q)[j].num_elements <= partition_at(
                    splits,
                    p,
                )[j].offset)
        }),
{
    let r = if requested >= 1 { requested } else { 1 };
    lemma_plan_prefix_splits(dims, candidates, r, candidates.len() as int);
    lemma_plan_partitions_apart(plan(dims, candidates, requested).splits, p, q);
}

/// Every part that a partition of a plan takes lies inside its split
/// dimension.
pub proof fn lemma_plan_partition_inside(splits: Seq<(nat, nat, nat)>, p: nat, j: int)
    requires
        splits_positive(splits),
        forall|k: int| 0 <= k < splits.len() ==> #[trigger] splits[k].1 <= usize::MAX,
        0 <= j < splits.len(),
    ensures
        partition_at(splits, p)[j].dim == splits[j].0 as usize,
        partition_at(splits, p)[j].offset + partition_at(splits, p)[j].num_elements <= splits[j].1,
{
    let (dim, n, c) = splits[j];
    assert(c >= 1);
    let a = split_index(splits, j, p);
    vstd::arithmetic::div_mod::lemma_mod_bound((p / splits_count(splits.skip(j + 1))) as int, c as int);
    lemma_parts_tile(n, c, a);
    lemma_parts_ordered(n, c, a + 1, c);
    lemma_parts_tile(n, c, 0);
}

/// The product of the part sizes that partition `p` of a plan takes of
/// its first `m` splits.
pub open spec fn partition_size(splits: Seq<(nat, nat, nat)>, p: nat, m: nat) -> nat
    decreases m,
{
    if m == 0 {
        1
    } else {
        partition_size(splits, p, (m - 1) as nat) * (partition_at(splits, p)[m - 1].num_elements as nat)
    }
}

/// The sizes of the first `m` partitions of a plan, added up.
pub open spec fn partition_sizes(splits: Seq<(nat, nat, nat)>, m: nat) -> nat
    decreases m,
{
    if m == 0 {
        0
    } else {
        partition_sizes(splits, (m - 1) as nat) + partition_size(splits, (m - 1) as nat, splits.len())
    }
}

/// The product of the extents of the split dimensions.
pub open spec fn split_extents(splits: Seq<(nat, nat, nat)>) -> nat
    decreases splits.len(),
{
    if splits.len() == 0 {
        1
    } else {
        split_extents(splits.drop_last()) * splits.last().1
    }
}

/// The sizes of the first `b` parts of a split dimension, added up.
spec fn parts_total(n: nat, c: nat, b: nat) -> nat
    decreases b,
{
    if b == 0 {
        0
    } else {
        parts_total(n, c, (b - 1) as nat) + part_len(n, c, (b - 1) as nat)
    }
}

proof fn lemma_parts_total(n: nat, c: nat, b: nat)
    requires
        c > 0,
        b <= c,
    ensures
        parts_total(n, c, b) == part_offset(n, c, b),
    decreases b,
{
    if b == 0 {
        lemma_parts_tile(n, c, 0);
    } else {
        lemma_parts_total(n, c, (b - 1) as nat);
        lemma_parts_tile(n, c, (b - 1) as nat);
    }
}

/// Dropping the last split divides the partition number by its part count.
proof fn lemma_split_index_drop_last(splits: Seq<(nat, nat, nat)>, j: int, p: nat)
    requires
        splits_positive(splits),
        0 <= j < splits.len() - 1,
    ensures
        split_index(splits, j, p) == split_index(splits.drop_last(), j, p / splits.last().2),
{
    let r = splits.drop_last();
    let c = splits.last().2;
    let tail = splits.skip(j + 1);
    assert(tail.drop_last() =~= r.skip(j + 1));
    assert(tail.last() == splits.last());
    let b = splits_count(r.skip(j + 1));
    lemma_splits_count_positive(r.skip(j + 1));
    vstd::arithmetic::div_mod::lemma_div_denominator(p as int, c as int, b as int);
    assert(c * b == b * c) by (nonlinear_arith);
    assert(r[j] == splits[j]);
}

proof fn lemma_partition_size_drop_last(splits: Seq<(nat, nat, nat)>, p: nat, m: nat)
    requires
        splits_positive(splits),
        splits.len() >= 1,
        m <= splits.len() - 1,
    ensures
        partition_size(splits, p, m) == partition_size(splits.drop_last(), p / splits.last().2, m),
    decreases m,
{
    if m > 0 {
        lemma_partition_size_drop_last(splits, p, (m - 1) as nat);
        lemma_split_index_drop_last(splits, m - 1, p);
        assert(splits.drop_last()[m - 1] == splits[m - 1]);
    }
}

/// The sizes of the partitions numbered `a * c .. a * c + b` add up to the
/// size of partition `a` of the other splits times the first `b` parts of
/// the last split.
proof fn lemma_partition_sizes_block(splits: Seq<(nat, nat, nat)>, a: nat, b: nat)
    requires
        splits_positive(splits),
        splits.len() >= 1,
        b <= splits.last().2,
        forall|k: int| 0 <= k < splits.len() ==> #[trigger] splits[k].1 <= usize::MAX,
    ensures
        partition_sizes(splits, a * splits.last().2 + b) == partition_sizes(splits, a * splits.last().2) + partition_size(
            splits.drop_last(),
            a,
            (splits.len() - 1) as nat,
        ) * parts_total(splits.last().1, splits.last().2, b),
    decreases b,
{
    let c = splits.last().2;
    let n = splits.last().1;
    let len = splits.len();
    let f = partition_size(splits.drop_last(), a, (len - 1) as nat);
    if b > 0 {
        lemma_partition_sizes_block(splits, a, (b - 1) as nat);
        let p = a * c + (b - 1);
        assert(a * c >= 0) by (nonlinear_arith);
        vstd::arithmetic::div_mod::lemma_fundamental_div_mod_converse(p as int, c as int, a as int, (b - 1) as int);
        lemma_partition_size_drop_last(splits, p as nat, (len - 1) as nat);
        assert(splits[len - 1] == splits.last());
        assert(splits.skip(len as int) =~= Seq::<(nat, nat, nat)>::empty());
        assert(splits.skip((len - 1) + 1) == splits.skip(len as int));
        assert(p / 1 == p) by (nonlinear_arith);
        assert(split_index(splits, len - 1, p as nat) == b - 1);
        lemma_parts_tile(n, c, (b - 1) as nat);
        lemma_parts_ordered(n, c, b as nat, c);
        lemma_parts_tile(n, c, 0);
        assert(partition_at(splits, p as nat)[len - 1].num_elements == part_len(n, c, (b - 1) as nat));
        assert(partition_size(splits, p as nat, len as nat) == f * part_len(n, c, (b - 1) as nat));
        assert(f * parts_total(n, c, b) == f * parts_total(n, c, (b - 1) as nat) + f * part_len(n, c, (b - 1) as nat))
            by (nonlinear_arith)
            requires
                parts_total(n, c, b) == parts_total(n, c, (b - 1) as nat) + part_len(n, c, (b - 1) as nat),
        ;
    } else {
        assert(f * 0 == 0) by (nonlinear_arith);
    }
}

proof fn lemma_partition_sizes_rows(splits: Seq<(nat, nat, nat)>, a: nat)
    requires
        splits_positive(splits),
        splits.len() >= 1,
        forall|k: int| 0 <= k < splits.len() ==> #[trigger] splits[k].1 <= usize::MAX,
    ensures
        partition_sizes(splits, a * splits.last().2) == partition_sizes(splits.drop_last(), a) * splits.last().1,
    decreases a,
{
    let c = splits.last().2;
    let n = splits.last().1;
    if a == 0 {
        assert(0 * c == 0);
        assert(partition_sizes(splits.drop_last(), 0) * n == 0) by (nonlinear_arith)
            requires
                partition_sizes(splits.drop_last(), 0) == 0,
        ;
    } else {
        lemma_partition_sizes_rows(splits, (a - 1) as nat);
        lemma_partition_sizes_block(splits, (a - 1) as nat, c);
        lemma_parts_total(n, c, c);
        lemma_parts_tile(n, c, 0);
        assert((a - 1) * c + c == a * c) by (nonlinear_arith);
        let g = partition_sizes(splits.drop_last(), (a - 1) as nat);
        let f = partition_size(splits.drop_last(), (a - 1) as nat, (splits.len() - 1) as nat);
        assert(splits.drop_last().len() == splits.len() - 1);
        assert(partition_sizes(splits.drop_last(), a) == g + f);
        assert(parts_total(n, c, c) == n);
        assert(partition_sizes(splits, a * c) == partition_sizes(splits, ((a - 1) as nat) * c) + f * n);
        assert(g * n + f * n == (g + f) * n) by (nonlinear_arith);
    }
}

/// The partitions of a plan cover the split dimensions exactly: their
/// sizes, each the product of the parts it takes, add up to the product of
/// the extents of the split dimensions.
pub proof fn lemma_plan_partition_sizes(splits: Seq<(nat, nat, nat)>)
    requires
        splits_positive(splits),
        forall|k: int| 0 <= k < splits.len() ==> #[trigger] splits[k].1 <= usize::MAX,
    ensures
        partition_sizes(splits, splits_count(splits)) == split_extents(splits),
    decreases splits.len(),
{
    if splits.len() == 0 {
        assert(partition_sizes(splits, 1) == partition_sizes(splits, 0) + partition_size(splits, 0, 0));
    } else {
        let r = splits.drop_last();
        assert(splits_positive(r)) by {
            assert forall|j: int| 0 <= j < r.len() implies #[trigger] r[j].2 >= 1 by {
                assert(r[j] == splits[j]);
            }
        }
        assert forall|k: int| 0 <= k < r.len() implies #[trigger] r[k].1 <= usize::MAX by {
            assert(r[k] == splits[k]);
        }
        lemma_plan_partition_sizes(r);
        lemma_partition_sizes_rows(splits, splits_count(r));
    }
}

/// The partitions that a plan of a shape makes cover its split dimensions
/// exactly, and each lies inside them.
pub proof fn lemma_planned_partitions_cover(dims: Seq<usize>, candidates: Seq<usize>, requested: nat)
    ensures
        ({
            let splits = plan(dims, candidates, requested).splits;
            &&& partition_sizes(splits, splits_count(splits)) == split_extents(splits)
            &&& forall|p: nat, j: int|
                0 <= j < splits.len() ==> (#[trigger] partition_at(splits, p)[j]).offset + partition_at(splits, p)[j].num_elements
                    <= splits[j].1
        }),
{
    let r = if requested >= 1 { requested } else { 1 };
    let splits = plan(dims, candidates, requested).splits;
    lemma_plan_prefix_splits(dims, candidates, r, candidates.len() as int);
    lemma_plan_partition_sizes(splits);
    assert forall|p: nat, j: int| 0 <= j < splits.len() implies (#[trigger] partition_at(splits, p)[j]).offset
        + partition_at(splits, p)[j].num_elements <= splits[j].1 by {
        lemma_plan_partition_inside(splits, p, j);
    }
}

/// The splits that a plan chooses from valid candidates name distinct
/// dimensions, in increasing order, each with more than one element.
pub open spec fn splits_follow(dims: Seq<usize>, splits: Seq<(nat, nat, nat)>) -> bool {
    &&& splits_positive(splits)
    &&& forall|j: int|
        0 <= j < splits.len() ==> #[trigger] splits[j].0 < dims.len() && splits[j].1 == dims[splits[j].0 as int] as nat
            && splits[j].1 > 1
    &&& forall|i: int, j: int| 0 <= i < j < splits.len() ==> #[trigger] splits[i].0 < #[trigger] splits[j].0
}

proof fn lemma_plan_prefix_follows(dims: Seq<usize>, candidates: Seq<usize>, requested: nat, k: int)
    requires
        candidates_valid(dims, candidates),
        k <= candidates.len(),
    ensures
        splits_follow(dims, plan_prefix(dims, candidates, requested, k).0),
        k >= 1 ==> forall|j: int|
            0 <= j < plan_prefix(dims, candidates, requested, k).0.len() ==> #[trigger] plan_prefix(
                dims,
                candidates,
                requested,
                k,
            ).0[j].0 <= candidates[k - 1],
    decreases k,
{
    lemma_plan_prefix_splits(dims, candidates, requested, k);
    if k > 0 {
        lemma_plan_prefix_follows(dims, candidates, requested, k - 1);
        let prev = plan_prefix(dims, candidates, requested, k - 1).0;
        let now = plan_prefix(dims, candidates, requested, k).0;
        if now.len() == prev.len() {
            assert(now == prev);
            assert forall|j: int| 0 <= j < now.len() implies #[trigger] now[j].0 <= candidates[k - 1] by {
                if k >= 2 {
                    assert(prev[j].0 <= candidates[k - 2]);
                }
            }
        } else {
            assert forall|j: int| 0 <= j < now.len() implies #[trigger] now[j].0 <= candidates[k - 1] && now[j].0 < dims.len()
                && now[j].1 == dims[now[j].0 as int] as nat && now[j].1 > 1 by {
                if j < prev.len() {
                    assert(now[j] == prev[j]);
                    assert(prev[j].0 <= candidates[k - 2]);
                }
            }
            assert forall|i: int, j: int| 0 <= i < j < now.len() implies #[trigger] now[i].0 < #[trigger] now[j].0 by {
                assert(now[i] == prev[i]);
                assert(prev[i].0 <= candidates[k - 2]);
                if j < prev.len() {
                    assert(now[j] == prev[j]);
                }
            }
        }
    }
}

/// A plan made from valid candidates splits distinct dimensions of the
/// shape, in increasing order, each along its whole extent of more than one
/// element.
pub proof fn lemma_plan_splits_follow(dims: Seq<usize>, candidates: Seq<usize>, requested: nat)
    requires
        candidates_valid(dims, candidates),
    ensures
        splits_follow(dims, plan(dims, candidates, requested).splits),
{
    let r = if requested >= 1 { requested } else { 1 };
    lemma_plan_prefix_follows(dims, candidates, r, candidates.len() as int);
}

} // verus!
