//! Views into tensors and the bytes that they touch.
use vstd::prelude::*;
use std::ops::Range;

use crate::dtype::{DataType, bits_of};
use crate::error::ModelError;
use vstd::arithmetic::div_mod::{
    lemma_div_is_ordered, lemma_fundamental_div_mod, lemma_fundamental_div_mod_converse,
};
use crate::overlap::{lemma_coordinates_disjoint_apart, lemma_strides_disjoint_apart};
use crate::partition::DimPartition;
use crate::progression::{
    ByteStartProgression, gcd, gcd_spec, lemma_gcd_positive, progression_moderate, progression_valid, progressions_overlap,
    start_progressions_may_overlap,
};
use crate::tensor::{
    HasShape,
    Shape, Tensor, TensorModel, checked_num_bytes, dims_valid, packed_bytes, padded_dim,
    shape_error, tensor_bytes, tensor_valid,
};
use crate::util::{
    all_positive, copy_slice, lemma_product_first, lemma_product_pointwise_le,
    lemma_product_positive, lemma_product_prefix_le, lemma_product_split, lemma_product_suffix_le,
    lemma_product_take_step, seq_product,
};

verus! {

/// What a view is: a tensor, and the extents and offsets of the region of it
/// that the view covers.
pub struct ViewModel {
    pub tensor: TensorModel,
    pub dims: Seq<usize>,
    pub offsets: Seq<usize>,
}

/// The view's region lies inside its tensor in every dimension.
pub open spec fn extents_fit(dims: Seq<usize>, offsets: Seq<usize>, tensor_dims: Seq<usize>) -> bool {
    forall|d: int| 0 <= d < dims.len() ==> offsets[d] + dims[d] <= tensor_dims[d]
}

/// A view is valid when its tensor and shape are, all ranks agree and the
/// region lies inside the tensor.
pub open spec fn view_valid(v: ViewModel) -> bool {
    &&& tensor_valid(v.tensor)
    &&& dims_valid(v.dims)
    &&& v.dims.len() == v.tensor.dims.len()
    &&& v.offsets.len() == v.dims.len()
    &&& extents_fit(v.dims, v.offsets, v.tensor.dims)
}

/// The first dimension, from `d` on, whose region overflows or leaves the
/// tensor, with the error it is reported with.
pub open spec fn extent_error(dims: Seq<usize>, offsets: Seq<usize>, tensor_dims: Seq<usize>, d: int) -> Option<ModelError>
    decreases dims.len() - d,
{
    if d < 0 || d >= dims.len() {
        None
    } else if offsets[d] + dims[d] > usize::MAX {
        Some(ModelError::ViewExtentOverflow)
    } else if offsets[d] + dims[d] > tensor_dims[d] {
        Some(ModelError::ViewOutOfRange { dimension: d as usize })
    } else {
        extent_error(dims, offsets, tensor_dims, d + 1)
    }
}

/// The error a view with these extents and offsets is rejected with.
pub open spec fn view_error(t: TensorModel, dims: Seq<usize>, offsets: Seq<usize>) -> ModelError {
    if !dims_valid(dims) {
        shape_error(dims)
    } else if dims.len() != t.dims.len() {
        ModelError::ViewRankMismatch
    } else if offsets.len() != t.dims.len() {
        ModelError::ViewOffsetRankMismatch
    } else {
        extent_error(dims, offsets, t.dims, 0).unwrap()
    }
}

/// What a layout is: where the first range of elements starts, how many
/// elements each contiguous range holds, how the ranges repeat (pairs of a
/// count and a stride in elements, outermost first) and the element size.
pub struct LayoutModel {
    pub first_element: nat,
    pub elements_per_range: nat,
    pub strides: Seq<(nat, nat)>,
    pub bits: nat,
}

/// Walk down from dimension `c` while the dimension is covered completely.
pub open spec fn contiguous_from(tensor_dims: Seq<usize>, dims: Seq<usize>, offsets: Seq<usize>, c: int) -> int
    decreases c,
{
    if c > 0 && offsets[c] == 0 && dims[c] == tensor_dims[c] {
        contiguous_from(tensor_dims, dims, offsets, c - 1)
    } else {
        c
    }
}

/// The outermost dimension of the contiguous inner block of a view.
pub open spec fn contiguous_start(v: ViewModel) -> int {
    if v.dims.len() == 0 {
        0
    } else {
        contiguous_from(v.tensor.dims, v.dims, v.offsets, v.dims.len() - 1)
    }
}

/// The row-major index of the element at `offsets` among the first `k`
/// dimensions.
pub open spec fn flat_index(tensor_dims: Seq<usize>, offsets: Seq<usize>, k: int) -> nat
    decreases k,
{
    if k <= 0 {
        0
    } else {
        flat_index(tensor_dims, offsets, k - 1) * (tensor_dims[k - 1] as nat) + (offsets[k - 1] as nat)
    }
}

/// The distance in elements between neighbours along dimension `d`.
pub open spec fn element_stride(tensor_dims: Seq<usize>, d: int) -> nat {
    seq_product(tensor_dims.skip(d + 1))
}

/// The layout of a view.
pub open spec fn layout_of(v: ViewModel) -> LayoutModel {
    let c = contiguous_start(v);
    LayoutModel {
        first_element: flat_index(v.tensor.dims, v.offsets, v.dims.len() as int),
        elements_per_range: seq_product(v.dims.skip(c)),
        strides: Seq::new(c as nat, |d: int| (v.dims[d] as nat, element_stride(v.tensor.dims, d))),
        bits: bits_of(v.tensor.dtype),
    }
}

/// The bytes that elements `start..start + len` of `bits` bits occupy.
pub open spec fn byte_start(start: nat, bits: nat) -> nat {
    (start * bits) / 8
}

/// The end of the bytes that elements `start..start + len` occupy.
pub open spec fn byte_end(start: nat, len: nat, bits: nat) -> nat {
    (((start + len) * bits + 7) / 8) as nat
}

/// The number of bytes that elements `start..start + len` occupy.
pub open spec fn range_byte_len(start: nat, len: nat, bits: nat) -> nat {
    (byte_end(start, len, bits) - byte_start(start, bits)) as nat
}

/// The number of element ranges in a layout.
pub open spec fn num_ranges(strides: Seq<(nat, nat)>) -> nat
    decreases strides.len(),
{
    if strides.len() == 0 {
        1
    } else {
        strides[0].0 * num_ranges(strides.drop_first())
    }
}

/// The recursion measure of a block.
pub open spec fn block_measure(strides: Seq<(nat, nat)>) -> nat {
    if strides.len() > 0 {
        strides[0].0 + 1
    } else {
        0
    }
}

/// The bytes occupied by all the element ranges of a layout, counted range
/// by range.
pub open spec fn block_bytes(first: nat, epr: nat, strides: Seq<(nat, nat)>, bits: nat) -> nat
    decreases strides.len(), block_measure(strides),
{
    if strides.len() == 0 {
        range_byte_len(first, epr, bits)
    } else {
        blocks_bytes(first, epr, strides, bits, strides[0].0)
    }
}

/// The bytes of the first `k` blocks along the outermost stride.
pub open spec fn blocks_bytes(first: nat, epr: nat, strides: Seq<(nat, nat)>, bits: nat, k: nat) -> nat
    decreases strides.len(), k,
{
    if strides.len() == 0 || k == 0 {
        0
    } else {
        blocks_bytes(first, epr, strides, bits, (k - 1) as nat) + block_bytes(
            first + ((k - 1) as nat) * strides[0].1,
            epr,
            strides.drop_first(),
            bits,
        )
    }
}

/// The bytes that a layout touches, counted range by range.
pub open spec fn layout_access_bytes(l: LayoutModel) -> nat {
    block_bytes(l.first_element, l.elements_per_range, l.strides, l.bits)
}

/// The element sizes that data types have.
pub open spec fn supported_bits(bits: nat) -> bool {
    bits == 4 || bits == 8 || bits == 16 || bits == 32 || bits == 64
}


proof fn lemma_mul_pred(k: nat, x: nat)
    requires
        k > 0,
    ensures
        ((k - 1) as nat) * x + x == k * x,
{
    assert(((k - 1) as nat) * x + x == k * x) by (nonlinear_arith) requires k > 0;
}

proof fn lemma_mul_zero(k: nat, x: nat)
    requires
        k == 0,
    ensures
        k * x == 0,
{
    assert(k * x == 0) by (nonlinear_arith) requires k == 0;
}

proof fn lemma_mul_assoc(a: nat, b: nat, c: nat)
    ensures
        a * (b * c) == (a * b) * c,
{
    assert(a * (b * c) == (a * b) * c) by (nonlinear_arith);
}

proof fn lemma_weighted_le(c1: nat, c2: nat, a: nat, b: nat, m: nat)
    requires
        a <= m,
        b <= m,
    ensures
        c1 * a + c2 * b <= (c1 + c2) * m,
{
    assert(c1 * a <= c1 * m) by (nonlinear_arith) requires a <= m;
    assert(c2 * b <= c2 * m) by (nonlinear_arith) requires b <= m;
    assert(c1 * m + c2 * m == (c1 + c2) * m) by (nonlinear_arith);
}

proof fn lemma_parity_step(first: nat, m: nat, s: nat)
    ensures
        (first + m * s) % 2 == if s % 2 == 0 { first % 2 } else { (first + m) % 2 },
{
    let t = m * (s / 2);
    assert(m * s == 2 * t + m * (s % 2)) by (nonlinear_arith) requires t == m * (s / 2);
    if s % 2 == 0 {
        assert(m * (s % 2) == 0);
    } else {
        assert(m * (s % 2) == m);
    }
}

proof fn lemma_aligned_range_len(start: nat, len: nat, bits: nat)
    requires
        bits == 8 || bits == 16 || bits == 32 || bits == 64,
    ensures
        range_byte_len(start, len, bits) == len * (bits / 8),
{
    let k = bits / 8;
    assert(bits == 8 * k);
    assert((start + len) * bits == 8 * ((start + len) * k)) by (nonlinear_arith) requires bits == 8 * k;
    assert(start * bits == 8 * (start * k)) by (nonlinear_arith) requires bits == 8 * k;
    assert((8 * ((start + len) * k) + 7) / 8 == (start + len) * k) by (nonlinear_arith);
    assert((8 * (start * k)) / 8 == start * k) by (nonlinear_arith);
    assert((start + len) * k - start * k == len * k) by (nonlinear_arith);
}

proof fn lemma_packed_range_len(start: nat, len: nat)
    ensures
        range_byte_len(start, len, 4) == range_byte_len(start % 2, len, 4),
        len >= 1 ==> range_byte_len(start, len, 4) <= len,
{
    let q = start / 2;
    let r = start % 2;
    assert(start == 2 * q + r);
    assert((start + len) * 4 + 7 == 8 * q + ((r + len) * 4 + 7)) by (nonlinear_arith) requires start == 2 * q + r;
    assert(start * 4 == 8 * q + r * 4) by (nonlinear_arith) requires start == 2 * q + r;
    assert((8 * q + ((r + len) * 4 + 7)) / 8 == q + ((r + len) * 4 + 7) / 8) by (nonlinear_arith);
    assert((8 * q + r * 4) / 8 == q + (r * 4) / 8) by (nonlinear_arith);
    if len >= 1 {
        assert(((r + len) * 4 + 7) / 8 - (r * 4) / 8 <= len) by (nonlinear_arith)
            requires r < 2, len >= 1;
    }
}

/// For supported element sizes, the bytes of a block depend only on the
/// parity of its first element.
proof fn lemma_block_parity(a: nat, b: nat, epr: nat, strides: Seq<(nat, nat)>, bits: nat)
    requires
        supported_bits(bits),
        a % 2 == b % 2,
    ensures
        block_bytes(a, epr, strides, bits) == block_bytes(b, epr, strides, bits),
    decreases strides.len(), block_measure(strides),
{
    if strides.len() == 0 {
        if bits == 4 {
            lemma_packed_range_len(a, epr);
            lemma_packed_range_len(b, epr);
        } else {
            lemma_aligned_range_len(a, epr, bits);
            lemma_aligned_range_len(b, epr, bits);
        }
    } else {
        lemma_blocks_parity(a, b, epr, strides, bits, strides[0].0);
    }
}

proof fn lemma_blocks_parity(a: nat, b: nat, epr: nat, strides: Seq<(nat, nat)>, bits: nat, k: nat)
    requires
        supported_bits(bits),
        a % 2 == b % 2,
        strides.len() > 0,
    ensures
        blocks_bytes(a, epr, strides, bits, k) == blocks_bytes(b, epr, strides, bits, k),
    decreases strides.len(), k,
{
    if k > 0 {
        lemma_blocks_parity(a, b, epr, strides, bits, (k - 1) as nat);
        let off = ((k - 1) as nat) * strides[0].1;
        assert((a + off) % 2 == (b + off) % 2) by (nonlinear_arith) requires a % 2 == b % 2;
        lemma_block_parity(a + off, b + off, epr, strides.drop_first(), bits);
    }
}

/// For whole-byte element sizes every range has the same number of bytes.
proof fn lemma_block_aligned(first: nat, epr: nat, strides: Seq<(nat, nat)>, bits: nat)
    requires
        bits == 8 || bits == 16 || bits == 32 || bits == 64,
    ensures
        block_bytes(first, epr, strides, bits) == num_ranges(strides) * (epr * (bits / 8)),
    decreases strides.len(), block_measure(strides),
{
    if strides.len() == 0 {
        lemma_aligned_range_len(first, epr, bits);
        assert(num_ranges(strides) == 1);
    } else {
        assert(num_ranges(strides) == strides[0].0 * num_ranges(strides.drop_first()));
        lemma_blocks_aligned(first, epr, strides, bits, strides[0].0);
        lemma_mul_assoc(strides[0].0, num_ranges(strides.drop_first()), epr * (bits / 8));
    }
}

proof fn lemma_blocks_aligned(first: nat, epr: nat, strides: Seq<(nat, nat)>, bits: nat, k: nat)
    requires
        bits == 8 || bits == 16 || bits == 32 || bits == 64,
        strides.len() > 0,
    ensures
        blocks_bytes(first, epr, strides, bits, k) == k * (num_ranges(strides.drop_first()) * (epr * (bits / 8))),
    decreases strides.len(), k,
{
    let x = num_ranges(strides.drop_first()) * (epr * (bits / 8));
    if k > 0 {
        lemma_blocks_aligned(first, epr, strides, bits, (k - 1) as nat);
        let start = first + ((k - 1) as nat) * strides[0].1;
        lemma_block_aligned(start, epr, strides.drop_first(), bits);
        lemma_mul_pred(k, x);
        assert(blocks_bytes(first, epr, strides, bits, k) == blocks_bytes(first, epr, strides, bits, (k - 1) as nat)
            + block_bytes(start, epr, strides.drop_first(), bits));
        assert(blocks_bytes(first, epr, strides, bits, (k - 1) as nat) == ((k - 1) as nat) * x);
        assert(block_bytes(start, epr, strides.drop_first(), bits) == x);
    } else {
        lemma_mul_zero(k, x);
    }
}

/// Along an odd stride the parity of the block starts alternates.
proof fn lemma_blocks_alternate(first: nat, epr: nat, strides: Seq<(nat, nat)>, bits: nat, k: nat)
    requires
        supported_bits(bits),
        strides.len() > 0,
    ensures
        ({
            let even = block_bytes(0, epr, strides.drop_first(), bits);
            let odd = block_bytes(1, epr, strides.drop_first(), bits);
            let same = if first % 2 == 0 { even } else { odd };
            let other = if first % 2 == 0 { odd } else { even };
            blocks_bytes(first, epr, strides, bits, k) == if strides[0].1 % 2 == 0 {
                k * same
            } else {
                ((k + 1) / 2) * same + (k / 2) * other
            }
        }),
    decreases k,
{
    let even = block_bytes(0, epr, strides.drop_first(), bits);
    let odd = block_bytes(1, epr, strides.drop_first(), bits);
    let same = if first % 2 == 0 { even } else { odd };
    let other = if first % 2 == 0 { odd } else { even };
    if k == 0 {
        lemma_mul_zero(k, same);
        lemma_mul_zero(k / 2, other);
        lemma_mul_zero((k + 1) / 2, same);
    }
    if k > 0 {
        lemma_blocks_alternate(first, epr, strides, bits, (k - 1) as nat);
        let s = strides[0].1;
        let start = first + ((k - 1) as nat) * s;
        let p = start % 2;
        lemma_block_parity(start, p, epr, strides.drop_first(), bits);
        lemma_parity_step(first, (k - 1) as nat, s);
        if s % 2 == 0 {
            lemma_mul_pred(k, same);
        } else {
            let k1 = (k - 1) as nat;
            if k1 % 2 == 0 {
                assert(start % 2 == first % 2);
                assert((k1 + 1) / 2 == k1 / 2);
                assert((k + 1) / 2 == (k1 + 1) / 2 + 1);
                assert(k / 2 == k1 / 2);
                lemma_mul_pred((k + 1) / 2, same);
            } else {
                assert(start % 2 != first % 2);
                assert(k / 2 == k1 / 2 + 1);
                assert((k + 1) / 2 == (k1 + 1) / 2);
                lemma_mul_pred(k / 2, other);
            }
        }
    }
}

proof fn lemma_block_bound(first: nat, epr: nat, strides: Seq<(nat, nat)>, bits: nat)
    requires
        bits == 4,
        epr >= 1,
    ensures
        block_bytes(first, epr, strides, bits) <= num_ranges(strides) * epr,
    decreases strides.len(), block_measure(strides),
{
    if strides.len() == 0 {
        lemma_packed_range_len(first, epr);
        assert(num_ranges(strides) == 1);
    } else {
        assert(num_ranges(strides) == strides[0].0 * num_ranges(strides.drop_first()));
        lemma_blocks_bound(first, epr, strides, bits, strides[0].0);
        lemma_mul_assoc(strides[0].0, num_ranges(strides.drop_first()), epr);
    }
}

proof fn lemma_blocks_bound(first: nat, epr: nat, strides: Seq<(nat, nat)>, bits: nat, k: nat)
    requires
        bits == 4,
        epr >= 1,
        strides.len() > 0,
    ensures
        blocks_bytes(first, epr, strides, bits, k) <= k * (num_ranges(strides.drop_first()) * epr),
    decreases strides.len(), k,
{
    if k == 0 {
        lemma_mul_zero(k, num_ranges(strides.drop_first()) * epr);
    }
    if k > 0 {
        lemma_blocks_bound(first, epr, strides, bits, (k - 1) as nat);
        lemma_block_bound(first + ((k - 1) as nat) * strides[0].1, epr, strides.drop_first(), bits);
        lemma_mul_pred(k, num_ranges(strides.drop_first()) * epr);
    }
}

/// The stride of a layout: how many ranges repeat, and how far apart.
#[derive(Clone, Copy, Debug, PartialEq, Eq)]
pub struct TensorViewStride {
    count: usize,
    stride_elements: usize,
}

impl View for TensorViewStride {
    type V = (nat, nat);

    closed spec fn view(&self) -> (nat, nat) {
        (self.count as nat, self.stride_elements as nat)
    }
}

impl TensorViewStride {
    /// How many times the inner block repeats.
    pub fn count(&self) -> (count: usize)
        ensures
            count == self@.0,
    {
        self.count
    }

    /// The distance in elements between repeats.
    pub fn stride_elements(&self) -> (stride: usize)
        ensures
            stride == self@.1,
    {
        self.stride_elements
    }
}

/// The view of each stride in a sequence.
pub open spec fn strides_view(strides: Seq<TensorViewStride>) -> Seq<(nat, nat)> {
    strides.map_values(|s: TensorViewStride| s@)
}

/// The physical layout of a tensor view, relative to its tensor.
#[derive(Debug, PartialEq, Eq)]
pub struct TensorViewLayout {
    first_element: usize,
    elements_per_range: usize,
    strides: Vec<TensorViewStride>,
    bits_per_element: usize,
    num_access_bytes: usize,
}

impl View for TensorViewLayout {
    type V = LayoutModel;

    closed spec fn view(&self) -> LayoutModel {
        LayoutModel {
            first_element: self.first_element as nat,
            elements_per_range: self.elements_per_range as nat,
            strides: strides_view(self.strides@),
            bits: self.bits_per_element as nat,
        }
    }
}


/// The number of ranges of a layout built from the first extents of a view
/// is the product of those extents.
proof fn lemma_num_ranges_prefix(strides: Seq<(nat, nat)>, dims: Seq<usize>)
    requires
        strides.len() <= dims.len(),
        forall|d: int| 0 <= d < strides.len() ==> strides[d].0 == dims[d] as nat,
    ensures
        num_ranges(strides) == seq_product(dims.take(strides.len() as int)),
    decreases strides.len(),
{
    if strides.len() == 0 {
        assert(dims.take(0) =~= Seq::<usize>::empty());
        assert(seq_product(Seq::<usize>::empty()) == 1);
    } else {
        lemma_num_ranges_prefix(strides.drop_first(), dims.drop_first());
        let n = strides.len() as int;
        lemma_product_first(dims.take(n));
        assert(dims.take(n).drop_first() =~= dims.drop_first().take(n - 1));
    }
}

/// The row-major index of an element lies inside the tensor.
proof fn lemma_flat_bound(tensor_dims: Seq<usize>, offsets: Seq<usize>, k: int)
    requires
        0 <= k <= tensor_dims.len(),
        offsets.len() == tensor_dims.len(),
        forall|d: int| 0 <= d < tensor_dims.len() ==> offsets[d] < tensor_dims[d],
    ensures
        flat_index(tensor_dims, offsets, k) < seq_product(tensor_dims.take(k)),
    decreases k,
{
    if k == 0 {
        assert(tensor_dims.take(0) =~= Seq::<usize>::empty());
        assert(seq_product(Seq::<usize>::empty()) == 1);
    } else {
        lemma_flat_bound(tensor_dims, offsets, k - 1);
        lemma_product_take_step(tensor_dims, k - 1);
        let f = flat_index(tensor_dims, offsets, k - 1);
        let p = seq_product(tensor_dims.take(k - 1));
        let t = tensor_dims[k - 1] as nat;
        let o = offsets[k - 1] as nat;
        assert(f * t + o < p * t) by (nonlinear_arith) requires f < p, o < t;
    }
}

/// The bytes that the layout of a valid view touches fit in `usize`.
proof fn lemma_layout_size(v: ViewModel)
    requires
        view_valid(v),
    ensures
        num_ranges(layout_of(v).strides) * layout_of(v).elements_per_range == seq_product(v.dims),
        seq_product(v.dims) <= seq_product(v.tensor.dims),
        layout_of(v).elements_per_range >= 1,
        supported_bits(layout_of(v).bits),
        layout_of(v).bits % 8 == 0 ==> num_ranges(layout_of(v).strides) * (layout_of(v).elements_per_range
            * (layout_of(v).bits / 8)) <= usize::MAX,
        layout_of(v).bits == 4 ==> num_ranges(layout_of(v).strides) * layout_of(v).elements_per_range <= usize::MAX,
{
    let l = layout_of(v);
    let c = contiguous_start(v);
    lemma_contiguous_start_bounds(v);
    lemma_num_ranges_prefix(l.strides, v.dims);
    lemma_product_split(v.dims, c);
    lemma_product_pointwise_le(v.dims, v.tensor.dims);
    assert(all_positive(v.dims.skip(c)));
    lemma_product_positive(v.dims.skip(c));
    let p = seq_product(v.dims);
    let pt = seq_product(v.tensor.dims);
    let bits = l.bits;
    assert(supported_bits(bits)) by {
        match v.tensor.dtype {
            DataType::Fp32 => {},
            DataType::Bf16 => {},
            DataType::Fp16 => {},
            DataType::Fp8 => {},
            DataType::Fp4 => {},
            DataType::Int64 => {},
            DataType::Int32 => {},
            DataType::Int16 => {},
            DataType::Int8 => {},
            DataType::Int4 => {},
        }
    }
    if bits % 8 == 0 {
        let b = bits / 8;
        assert(bits == 8 * b);
        assert(pt * bits == 8 * (pt * b)) by (nonlinear_arith) requires bits == 8 * b;
        assert((8 * (pt * b) + 7) / 8 == pt * b) by (nonlinear_arith);
        assert(p * b <= pt * b) by (nonlinear_arith) requires p <= pt;
        lemma_mul_assoc(num_ranges(l.strides), l.elements_per_range, b);
    }
}

proof fn lemma_contiguous_from_bounds(tensor_dims: Seq<usize>, dims: Seq<usize>, offsets: Seq<usize>, c: int)
    requires
        0 <= c < dims.len(),
    ensures
        0 <= contiguous_from(tensor_dims, dims, offsets, c) <= c,
    decreases c,
{
    if c > 0 && offsets[c] == 0 && dims[c] == tensor_dims[c] {
        lemma_contiguous_from_bounds(tensor_dims, dims, offsets, c - 1);
    }
}

proof fn lemma_contiguous_start_bounds(v: ViewModel)
    ensures
        0 <= contiguous_start(v),
        v.dims.len() > 0 ==> contiguous_start(v) < v.dims.len(),
        v.dims.len() == 0 ==> contiguous_start(v) == 0,
{
    if v.dims.len() > 0 {
        lemma_contiguous_from_bounds(v.tensor.dims, v.dims, v.offsets, v.dims.len() - 1);
    }
}

/// The total number of ranges of a list of strides.
fn count_ranges(strides: &Vec<TensorViewStride>) -> (n: usize)
    requires
        num_ranges(strides_view(strides@)) <= usize::MAX,
        forall|d: int| 0 <= d < strides@.len() ==> strides@[d]@.0 >= 1,
    ensures
        n == num_ranges(strides_view(strides@)),
{
    let mut n: usize = 1;
    let mut j = strides.len();
    assert(strides_view(strides@).skip(j as int) =~= Seq::<(nat, nat)>::empty());
    while j > 0
        invariant
            j <= strides@.len(),
            num_ranges(strides_view(strides@)) <= usize::MAX,
            forall|d: int| 0 <= d < strides@.len() ==> strides@[d]@.0 >= 1,
            n == num_ranges(strides_view(strides@).skip(j as int)),
        decreases j,
    {
        let ghost sv = strides_view(strides@);
        proof {
            assert(sv.skip(j - 1).drop_first() =~= sv.skip(j as int));
            assert(sv.skip(j - 1)[0] == strides@[j - 1]@);
            lemma_num_ranges_suffix_le(sv, j - 1);
        }
        n = strides[j - 1].count * n;
        j = j - 1;
    }
    assert(strides_view(strides@).skip(0) =~= strides_view(strides@));
    n
}

proof fn lemma_num_ranges_suffix_le(strides: Seq<(nat, nat)>, j: int)
    requires
        0 <= j <= strides.len(),
        forall|d: int| 0 <= d < strides.len() ==> strides[d].0 >= 1,
    ensures
        num_ranges(strides.skip(j)) <= num_ranges(strides),
        num_ranges(strides.skip(j)) >= 1,
    decreases j,
{
    if j == 0 {
        assert(strides.skip(0) =~= strides);
        lemma_num_ranges_positive(strides);
    } else {
        lemma_num_ranges_suffix_le(strides.drop_first(), j - 1);
        assert(strides.drop_first().skip(j - 1) =~= strides.skip(j));
        let a = strides[0].0;
        let b = num_ranges(strides.drop_first());
        assert(b <= a * b) by (nonlinear_arith) requires a >= 1;
    }
}

pub(crate) proof fn lemma_num_ranges_positive(strides: Seq<(nat, nat)>)
    requires
        forall|d: int| 0 <= d < strides.len() ==> strides[d].0 >= 1,
    ensures
        num_ranges(strides) >= 1,
    decreases strides.len(),
{
    if strides.len() > 0 {
        lemma_num_ranges_positive(strides.drop_first());
        let a = strides[0].0;
        let b = num_ranges(strides.drop_first());
        assert(a * b >= 1) by (nonlinear_arith) requires a >= 1, b >= 1;
    }
}

/// The bytes of the packed layout from stride `j` on, for a first element
/// at an even and at an odd position.
fn packed_block_bytes(strides: &Vec<TensorViewStride>, j: usize, epr: usize) -> (bytes: (usize, usize))
    requires
        j <= strides@.len(),
        epr >= 1,
        num_ranges(strides_view(strides@).skip(j as int)) * epr <= usize::MAX,
    ensures
        bytes.0 == block_bytes(0, epr as nat, strides_view(strides@).skip(j as int), 4),
        bytes.1 == block_bytes(1, epr as nat, strides_view(strides@).skip(j as int), 4),
    decreases strides@.len() - j,
{
    let ghost sv = strides_view(strides@).skip(j as int);
    if j == strides.len() {
        assert(sv.len() == 0);
        let epr_wide = epr as u128;
        let even = (epr_wide * 4 + 7) / 8;
        let odd = ((1 + epr_wide) * 4 + 7) / 8;
        proof {
            lemma_packed_range_len(0, epr as nat);
            lemma_packed_range_len(1, epr as nat);
            assert(num_ranges(sv) == 1);
        }
        return (even as usize, odd as usize);
    }
    proof {
        assert(sv.drop_first() =~= strides_view(strides@).skip(j + 1));
        assert(sv[0] == strides@[j as int]@);
        assert(num_ranges(sv) == sv[0].0 * num_ranges(sv.drop_first()));
    }
    let count = strides[j].count;
    let stride = strides[j].stride_elements;
    proof {
        let rest = num_ranges(sv.drop_first());
        if count == 0 {
            assert(num_ranges(sv) == 0) by (nonlinear_arith) requires num_ranges(sv) == sv[0].0 * rest, sv[0].0 == 0;
        }
        assert(rest * epr <= num_ranges(sv) * epr || count == 0) by (nonlinear_arith)
            requires num_ranges(sv) == count * rest;
    }
    if count == 0 {
        proof {
            lemma_blocks_alternate(0, epr as nat, sv, 4, 0);
            lemma_blocks_alternate(1, epr as nat, sv, 4, 0);
            lemma_mul_zero(0, block_bytes(0, epr as nat, sv.drop_first(), 4));
            lemma_mul_zero(0, block_bytes(1, epr as nat, sv.drop_first(), 4));
        }
        return (0, 0);
    }
    let inner = packed_block_bytes(strides, j + 1, epr);
    let even = inner.0;
    let odd = inner.1;
    proof {
        let rest = num_ranges(sv.drop_first());
        lemma_block_bound(0, epr as nat, sv.drop_first(), 4);
        lemma_block_bound(1, epr as nat, sv.drop_first(), 4);
        lemma_blocks_alternate(0, epr as nat, sv, 4, count as nat);
        lemma_blocks_alternate(1, epr as nat, sv, 4, count as nat);
        let total = num_ranges(sv) * epr;
        assert(count * (rest * epr) == total) by (nonlinear_arith)
            requires num_ranges(sv) == count * rest, total == num_ranges(sv) * epr;
        assert(count * even <= total && count * odd <= total) by (nonlinear_arith)
            requires count * (rest * epr) == total, even <= rest * epr, odd <= rest * epr;
        let c1 = count / 2 + count % 2;
        let c2 = count / 2;
        assert(c1 + c2 == count);
        assert(c1 == (count + 1) / 2);
        lemma_weighted_le(c1 as nat, c2 as nat, even as nat, odd as nat, rest * (epr as nat));
        lemma_weighted_le(c2 as nat, c1 as nat, even as nat, odd as nat, rest * (epr as nat));
    }
    if stride % 2 == 0 {
        (count * even, count * odd)
    } else {
        let c1 = count / 2 + count % 2;
        let c2 = count / 2;
        (c1 * even + c2 * odd, c2 * even + c1 * odd)
    }
}

/// The bytes touched by a layout, without enumerating its ranges.
fn access_byte_count(first_element: usize, elements_per_range: usize, strides: &Vec<TensorViewStride>, bits_per_element: usize) -> (count: usize)
    requires
        supported_bits(bits_per_element as nat),
        elements_per_range >= 1,
        forall|d: int| 0 <= d < strides@.len() ==> strides@[d]@.0 >= 1,
        bits_per_element % 8 == 0 ==> num_ranges(strides_view(strides@)) * (elements_per_range * (bits_per_element / 8)) <= usize::MAX,
        bits_per_element == 4 ==> num_ranges(strides_view(strides@)) * elements_per_range <= usize::MAX,
    ensures
        count == block_bytes(first_element as nat, elements_per_range as nat, strides_view(strides@), bits_per_element as nat),
{
    let ghost sv = strides_view(strides@);
    proof {
        lemma_num_ranges_positive(sv);
    }
    if bits_per_element % 8 == 0 {
        proof {
            let x = elements_per_range * (bits_per_element / 8);
            assert(x >= 1) by (nonlinear_arith)
                requires elements_per_range >= 1, bits_per_element / 8 >= 1, x == elements_per_range * (bits_per_element / 8);
            assert(num_ranges(sv) <= num_ranges(sv) * x && x <= num_ranges(sv) * x) by (nonlinear_arith)
                requires x >= 1, num_ranges(sv) >= 1;
            lemma_block_aligned(first_element as nat, elements_per_range as nat, sv, bits_per_element as nat);
        }
        let num_ranges = count_ranges(strides);
        return num_ranges * (elements_per_range * (bits_per_element / 8));
    }
    assert(sv.skip(0) =~= sv);
    let (even, odd) = packed_block_bytes(strides, 0, elements_per_range);
    proof {
        lemma_block_parity(first_element as nat, (first_element % 2) as nat, elements_per_range as nat, sv, 4);
    }
    if first_element % 2 == 0 {
        even
    } else {
        odd
    }
}


/// The distance from the first element of a block to the first element of
/// its last range.
pub open spec fn span(strides: Seq<(nat, nat)>) -> nat
    decreases strides.len(),
{
    if strides.len() == 0 {
        0
    } else {
        ((strides[0].0 - 1) as nat) * strides[0].1 + span(strides.drop_first())
    }
}

/// Every stride repeats at least once, and each repeat of a block starts
/// strictly after the last range of the previous repeat ends.
pub open spec fn strides_separated(strides: Seq<(nat, nat)>, epr: nat) -> bool {
    &&& forall|d: int| 0 <= d < strides.len() ==> (#[trigger] strides[d]).0 >= 1
    &&& forall|d: int| 0 <= d < strides.len() ==> span(strides.skip(d + 1)) + epr < (#[trigger] strides[d]).1
}

/// Every element and byte index of a block fits in `usize`.
pub open spec fn block_fits(first: nat, epr: nat, strides: Seq<(nat, nat)>, bits: nat) -> bool {
    &&& epr >= 1
    &&& supported_bits(bits)
    &&& forall|d: int| 0 <= d < strides.len() ==> (#[trigger] strides[d]).0 >= 1
    &&& first + span(strides) + epr <= usize::MAX
    &&& byte_end(first + span(strides), epr, bits) <= usize::MAX
}

/// A layout is well formed when its ranges are non-empty and separated by
/// gaps, and every element and byte index fits in `usize`.
pub open spec fn layout_well_formed(l: LayoutModel) -> bool {
    &&& block_fits(l.first_element, l.elements_per_range, l.strides, l.bits)
    &&& strides_separated(l.strides, l.elements_per_range)
    &&& num_ranges(l.strides) * l.elements_per_range <= usize::MAX
    &&& block_sizes_fit(l.elements_per_range, l.strides, l.bits)
}

/// The bytes that a block touches, counted range by range, fit in `usize`.
pub open spec fn block_sizes_fit(epr: nat, strides: Seq<(nat, nat)>, bits: nat) -> bool {
    &&& bits % 8 == 0 ==> num_ranges(strides) * (epr * (bits / 8)) <= usize::MAX
    &&& bits == 4 ==> num_ranges(strides) * epr <= usize::MAX
}

/// The first element of range `k` of a block whose first range starts at
/// `first`, counting the ranges in row-major order of their repeats.
pub open spec fn range_start(first: nat, strides: Seq<(nat, nat)>, k: nat) -> nat
    decreases strides.len(),
{
    if strides.len() == 0 {
        first
    } else {
        let inner = num_ranges(strides.drop_first());
        range_start(first + (k / inner) * strides[0].1, strides.drop_first(), k % inner)
    }
}

/// The bytes of element range `k` of a layout, before touching ranges are
/// merged.
pub open spec fn raw_byte_range(l: LayoutModel, k: nat) -> (nat, nat) {
    let s = range_start(l.first_element, l.strides, k);
    (byte_start(s, l.bits), byte_end(s, l.elements_per_range, l.bits))
}

/// The bytes from the first byte of a block to the end of its last range.
pub open spec fn block_bounds(first: nat, epr: nat, strides: Seq<(nat, nat)>, bits: nat) -> (nat, nat) {
    (byte_start(first, bits), byte_end(first + span(strides), epr, bits))
}

/// A merged range of a layout starts at range `k`: it is the first range, or
/// its bytes start after a gap.
pub open spec fn run_boundary(l: LayoutModel, k: nat) -> bool {
    k == 0 || k >= num_ranges(l.strides) || raw_byte_range(l, k).0 > raw_byte_range(l, (k - 1) as nat).1
}

/// `start..end` is one of the merged byte ranges of a layout.
pub open spec fn is_byte_range(l: LayoutModel, start: int, end: int) -> bool {
    exists|from: nat, to: nat|
        #[trigger] merged_run(l, from, to) && run_boundary(l, from) && start == raw_byte_range(l, from).0 && end
            == raw_byte_range(l, (to - 1) as nat).1
}

/// Ranges `from..to` of a layout merge into one: each touches the next, and
/// the range after them, if any, starts after a gap.
pub open spec fn merged_run(l: LayoutModel, from: nat, to: nat) -> bool {
    &&& from < to <= num_ranges(l.strides)
    &&& forall|j: nat| from <= j && j + 1 < to ==> (#[trigger] raw_byte_range(l, j + 1)).0 <= raw_byte_range(l, j).1
    &&& to < num_ranges(l.strides) ==> raw_byte_range(l, to).0 > raw_byte_range(l, (to - 1) as nat).1
}

proof fn lemma_separated_rest(strides: Seq<(nat, nat)>, epr: nat)
    requires
        strides_separated(strides, epr),
        strides.len() > 0,
    ensures
        strides_separated(strides.drop_first(), epr),
        strides[0].0 >= 1,
        span(strides.drop_first()) + epr < strides[0].1,
{
    let rest = strides.drop_first();
    assert(strides.skip(1) =~= rest);
    assert forall|d: int| 0 <= d < rest.len() implies span(rest.skip(d + 1)) + epr < (#[trigger] rest[d]).1 by {
        assert(rest.skip(d + 1) =~= strides.skip(d + 2));
        assert(rest[d] == strides[d + 1]);
    }
    assert forall|d: int| 0 <= d < rest.len() implies (#[trigger] rest[d]).0 >= 1 by {
        assert(rest[d] == strides[d + 1]);
    }
}

pub(crate) proof fn lemma_counts_rest(strides: Seq<(nat, nat)>)
    requires
        forall|d: int| 0 <= d < strides.len() ==> (#[trigger] strides[d]).0 >= 1,
        strides.len() > 0,
    ensures
        forall|d: int| 0 <= d < strides.drop_first().len() ==> (#[trigger] strides.drop_first()[d]).0 >= 1,
        num_ranges(strides.drop_first()) >= 1,
{
    let rest = strides.drop_first();
    assert forall|d: int| 0 <= d < rest.len() implies (#[trigger] rest[d]).0 >= 1 by {
        assert(rest[d] == strides[d + 1]);
    }
    lemma_num_ranges_positive(rest);
}

/// Every range of a block starts between the block's first element and the
/// first element of its last range.
pub proof fn lemma_range_start_bounds(first: nat, strides: Seq<(nat, nat)>, k: nat)
    requires
        forall|d: int| 0 <= d < strides.len() ==> (#[trigger] strides[d]).0 >= 1,
        k < num_ranges(strides),
    ensures
        first <= range_start(first, strides, k) <= first + span(strides),
    decreases strides.len(),
{
    if strides.len() > 0 {
        let rest = strides.drop_first();
        lemma_counts_rest(strides);
        let inner = num_ranges(rest);
        let count = strides[0].0;
        let s = strides[0].1;
        lemma_fundamental_div_mod(k as int, inner as int);
        let q = k / inner;
        let m = k % inner;
        assert(q < count) by (nonlinear_arith)
            requires k == inner * q + m, m >= 0, k < count * inner, inner >= 1;
        assert(q * s <= ((count - 1) as nat) * s) by (nonlinear_arith) requires q <= count - 1;
        lemma_range_start_bounds(first + q * s, rest, m);
    }
}

/// Consecutive ranges of a block are separated by at least one element.
pub proof fn lemma_range_start_step(first: nat, strides: Seq<(nat, nat)>, epr: nat, k: nat)
    requires
        strides_separated(strides, epr),
        k + 1 < num_ranges(strides),
    ensures
        range_start(first, strides, k) + epr < range_start(first, strides, k + 1),
    decreases strides.len(),
{
    if strides.len() == 0 {
        assert(num_ranges(strides) == 1);
    } else {
        let rest = strides.drop_first();
        lemma_separated_rest(strides, epr);
        lemma_counts_rest(strides);
        let inner = num_ranges(rest);
        let s = strides[0].1;
        lemma_fundamental_div_mod(k as int, inner as int);
        let q = k / inner;
        let m = k % inner;
        if m + 1 < inner {
            lemma_fundamental_div_mod_converse((k + 1) as int, inner as int, q as int, (m + 1) as int);
            lemma_range_start_step(first + q * s, rest, epr, m);
        } else {
            assert(k + 1 == (q + 1) * inner) by (nonlinear_arith)
                requires k == inner * q + m, m + 1 == inner;
            lemma_fundamental_div_mod_converse((k + 1) as int, inner as int, (q + 1) as int, 0);
            lemma_range_start_bounds(first + q * s, rest, m);
            lemma_range_start_bounds(first + (q + 1) * s, rest, 0);
            assert((q + 1) * s == q * s + s) by (nonlinear_arith);
        }
    }
}

proof fn lemma_byte_range_ordered(s: nat, t: nat, epr: nat, bits: nat)
    requires
        supported_bits(bits),
        epr >= 1,
        s + epr < t,
    ensures
        byte_start(s, bits) < byte_end(s, epr, bits),
        byte_end(s, epr, bits) <= byte_start(t, bits),
{
    let x = s + epr;
    assert(x * bits + 7 >= s * bits + 8) by (nonlinear_arith) requires x >= s + 1, bits >= 4;
    lemma_div_is_ordered((s * bits + 8) as int, (x * bits + 7) as int, 8);
    assert((s * bits + 8) / 8 == (s * bits) / 8 + 1) by (nonlinear_arith);
    if bits == 4 {
        lemma_fundamental_div_mod(x as int, 2);
        let h = x / 2;
        if x % 2 == 0 {
            assert(x * 4 + 7 == 8 * h + 7);
            assert((8 * h + 7) / 8 == h) by (nonlinear_arith);
            assert(t * 4 >= 8 * h) by (nonlinear_arith) requires t >= x, x == 2 * h;
            lemma_div_is_ordered((8 * h) as int, (t * 4) as int, 8);
            assert((8 * h) / 8 == h) by (nonlinear_arith);
        } else {
            assert(x * 4 + 7 == 8 * h + 11);
            assert((8 * h + 11) / 8 == h + 1) by (nonlinear_arith);
            assert(t * 4 >= 8 * h + 8) by (nonlinear_arith) requires t >= x + 1, x == 2 * h + 1;
            lemma_div_is_ordered((8 * h + 8) as int, (t * 4) as int, 8);
            assert((8 * h + 8) / 8 == h + 1) by (nonlinear_arith);
        }
    } else {
        assert(t * bits >= x * bits + 8) by (nonlinear_arith) requires t >= x + 1, bits >= 8;
        lemma_div_is_ordered((x * bits + 7) as int, (t * bits) as int, 8);
    }
}

proof fn lemma_byte_end_monotone(s: nat, t: nat, epr: nat, bits: nat)
    requires
        s <= t,
    ensures
        byte_end(s, epr, bits) <= byte_end(t, epr, bits),
        byte_start(s, bits) <= byte_start(t, bits),
{
    assert((s + epr) * bits + 7 <= (t + epr) * bits + 7) by (nonlinear_arith) requires s <= t;
    lemma_div_is_ordered(((s + epr) * bits + 7) as int, ((t + epr) * bits + 7) as int, 8);
    assert(s * bits <= t * bits) by (nonlinear_arith) requires s <= t;
    lemma_div_is_ordered((s * bits) as int, (t * bits) as int, 8);
}

/// The bytes of each range of a well-formed layout are non-empty and lie
/// inside the layout's bounds, and each range ends at or before the next
/// one starts: the ranges are sorted and disjoint.
pub proof fn lemma_raw_byte_ranges_ordered(l: LayoutModel, k: nat)
    requires
        layout_well_formed(l),
        k < num_ranges(l.strides),
    ensures
        block_bounds(l.first_element, l.elements_per_range, l.strides, l.bits).0 <= raw_byte_range(l, k).0,
        raw_byte_range(l, k).0 < raw_byte_range(l, k).1,
        raw_byte_range(l, k).1 <= block_bounds(l.first_element, l.elements_per_range, l.strides, l.bits).1,
        k + 1 < num_ranges(l.strides) ==> raw_byte_range(l, k).1 <= raw_byte_range(l, k + 1).0,
{
    let s = range_start(l.first_element, l.strides, k);
    lemma_range_start_bounds(l.first_element, l.strides, k);
    lemma_byte_range_ordered(s, s + l.elements_per_range + 1, l.elements_per_range, l.bits);
    lemma_byte_end_monotone(l.first_element, s, l.elements_per_range, l.bits);
    lemma_byte_end_monotone(s, l.first_element + span(l.strides), l.elements_per_range, l.bits);
    if k + 1 < num_ranges(l.strides) {
        lemma_range_start_step(l.first_element, l.strides, l.elements_per_range, k);
        lemma_byte_range_ordered(s, range_start(l.first_element, l.strides, k + 1), l.elements_per_range, l.bits);
    }
}

/// The offsets from dimension `d` on, weighted by their element strides.
pub open spec fn offset_sum(t: Seq<usize>, o: Seq<usize>, d: int) -> nat
    decreases t.len() - d,
{
    if d < 0 || d >= t.len() {
        0
    } else {
        (o[d] as nat) * element_stride(t, d) + offset_sum(t, o, d + 1)
    }
}

proof fn lemma_product_skip_step(t: Seq<usize>, k: int)
    requires
        0 <= k < t.len(),
    ensures
        seq_product(t.skip(k)) == (t[k] as nat) * seq_product(t.skip(k + 1)),
{
    lemma_product_first(t.skip(k));
    assert(t.skip(k).drop_first() =~= t.skip(k + 1));
}

/// The row-major index is the offsets weighted by the element strides.
proof fn lemma_flat_as_offset_sum(t: Seq<usize>, o: Seq<usize>, k: int)
    requires
        0 <= k <= t.len(),
    ensures
        flat_index(t, o, k) * seq_product(t.skip(k)) + offset_sum(t, o, k) == offset_sum(t, o, 0),
    decreases k,
{
    if k == 0 {
        assert(flat_index(t, o, 0) == 0);
        lemma_mul_zero(0, seq_product(t.skip(0)));
    } else {
        lemma_flat_as_offset_sum(t, o, k - 1);
        lemma_product_skip_step(t, k - 1);
        let f = flat_index(t, o, k - 1);
        let tk = t[k - 1] as nat;
        let ok = o[k - 1] as nat;
        let p = seq_product(t.skip(k));
        assert(flat_index(t, o, k) == f * tk + ok);
        assert(offset_sum(t, o, k - 1) == ok * element_stride(t, k - 1) + offset_sum(t, o, k));
        assert((f * tk + ok) * p == f * (tk * p) + ok * p) by (nonlinear_arith);
    }
}

proof fn lemma_offset_sum_zero(t: Seq<usize>, o: Seq<usize>, d: int)
    requires
        0 <= d,
        forall|e: int| d <= e < t.len() ==> o[e] == 0,
    ensures
        offset_sum(t, o, d) == 0,
    decreases t.len() - d,
{
    if d < t.len() {
        lemma_offset_sum_zero(t, o, d + 1);
        lemma_mul_zero(o[d] as nat, element_stride(t, d));
    }
}

/// Below the contiguous start the view covers its tensor completely.
proof fn lemma_contiguous_tail(tensor_dims: Seq<usize>, dims: Seq<usize>, offsets: Seq<usize>, c: int, e: int)
    requires
        0 <= c < dims.len(),
        contiguous_from(tensor_dims, dims, offsets, c) < e <= c,
    ensures
        offsets[e] == 0,
        dims[e] == tensor_dims[e],
    decreases c,
{
    if c > 0 && offsets[c] == 0 && dims[c] == tensor_dims[c] {
        if e < c {
            lemma_contiguous_tail(tensor_dims, dims, offsets, c - 1, e);
        }
    }
}

/// From dimension `d` down to the contiguous block, the offsets, the
/// repeats and the contiguous block together stay inside one step of the
/// next outer dimension.
proof fn lemma_block_extent(v: ViewModel, d: int)
    requires
        view_valid(v),
        v.dims.len() >= 1,
        0 <= d <= contiguous_start(v),
    ensures
        offset_sum(v.tensor.dims, v.offsets, d) + span(layout_of(v).strides.skip(d)) + layout_of(v).elements_per_range
            <= (v.tensor.dims[d] as nat) * element_stride(v.tensor.dims, d),
    decreases contiguous_start(v) - d,
{
    let t = v.tensor.dims;
    let o = v.offsets;
    let n = v.dims;
    let r = n.len() as int;
    let c = contiguous_start(v);
    let l = layout_of(v);
    lemma_contiguous_start_bounds(v);
    assert forall|e: int| c < e < r implies o[e] == 0 && n[e] == t[e] by {
        lemma_contiguous_tail(t, n, o, r - 1, e);
    }
    let es = element_stride(t, d);
    let td = t[d] as nat;
    if d == c {
        lemma_offset_sum_zero(t, o, c + 1);
        assert(l.strides.skip(c) =~= Seq::<(nat, nat)>::empty());
        lemma_product_first(n.skip(c));
        assert(n.skip(c).drop_first() =~= t.skip(c + 1));
        assert(l.elements_per_range == (n[c] as nat) * es);
        assert(o[c] + n[c] <= t[c]);
        assert((o[c] as nat) * es + (n[c] as nat) * es <= td * es) by (nonlinear_arith)
            requires o[c] + n[c] <= td;
    } else {
        lemma_block_extent(v, d + 1);
        lemma_product_skip_step(t, d + 1);
        assert(l.strides.skip(d).drop_first() =~= l.strides.skip(d + 1));
        assert(l.strides.skip(d)[0] == (n[d] as nat, es));
        let od = o[d] as nat;
        let nd = n[d] as nat;
        let inner = offset_sum(t, o, d + 1) + span(l.strides.skip(d + 1)) + l.elements_per_range;
        assert(inner <= es);
        assert(o[d] + n[d] <= t[d]);
        assert(od * es + ((nd - 1) as nat) * es + es <= td * es) by (nonlinear_arith)
            requires od + nd <= td, nd >= 1;
    }
}

/// Where the walk down from dimension `c` stops, the dimension is not
/// covered completely.
proof fn lemma_contiguous_stop(tensor_dims: Seq<usize>, dims: Seq<usize>, offsets: Seq<usize>, c: int)
    requires
        0 <= c < dims.len(),
    ensures
        contiguous_from(tensor_dims, dims, offsets, c) > 0 ==> !(offsets[contiguous_from(tensor_dims, dims, offsets, c)] == 0
            && dims[contiguous_from(tensor_dims, dims, offsets, c)] == tensor_dims[contiguous_from(tensor_dims, dims, offsets, c)]),
    decreases c,
{
    if c > 0 && offsets[c] == 0 && dims[c] == tensor_dims[c] {
        lemma_contiguous_stop(tensor_dims, dims, offsets, c - 1);
    }
}

/// Each repeat along a stride starts strictly after the previous repeat's
/// last range ends.
proof fn lemma_stride_gap(v: ViewModel, d: int)
    requires
        view_valid(v),
        0 <= d < contiguous_start(v),
    ensures
        span(layout_of(v).strides.skip(d + 1)) + layout_of(v).elements_per_range < element_stride(v.tensor.dims, d),
    decreases contiguous_start(v) - d,
{
    let t = v.tensor.dims;
    let o = v.offsets;
    let n = v.dims;
    let r = n.len() as int;
    let c = contiguous_start(v);
    let l = layout_of(v);
    lemma_contiguous_start_bounds(v);
    lemma_product_skip_step(t, d + 1);
    let es = element_stride(t, d + 1);
    assert(all_positive(t.skip(d + 2)));
    lemma_product_positive(t.skip(d + 2));
    if d + 1 == c {
        assert forall|e: int| c < e < r implies o[e] == 0 && n[e] == t[e] by {
            lemma_contiguous_tail(t, n, o, r - 1, e);
        }
        lemma_contiguous_stop(t, n, o, r - 1);
        assert(l.strides.skip(c) =~= Seq::<(nat, nat)>::empty());
        lemma_product_first(n.skip(c));
        assert(n.skip(c).drop_first() =~= t.skip(c + 1));
        assert(o[c] + n[c] <= t[c]);
        assert(n[c] < t[c]);
        assert((n[c] as nat) * es < (t[c] as nat) * es) by (nonlinear_arith)
            requires n[c] < t[c], es >= 1;
    } else {
        lemma_stride_gap(v, d + 1);
        assert(l.strides.skip(d + 1).drop_first() =~= l.strides.skip(d + 2));
        assert(l.strides.skip(d + 1)[0] == (n[d + 1] as nat, es));
        let nd = n[d + 1] as nat;
        let td = t[d + 1] as nat;
        assert(o[d + 1] + n[d + 1] <= t[d + 1]);
        assert(((nd - 1) as nat) * es + es <= td * es) by (nonlinear_arith)
            requires nd <= td, nd >= 1;
    }
}

/// The layout of a valid view is well formed, and its last range ends
/// inside the tensor.
#[verifier::rlimit(40)]
pub(crate) proof fn lemma_layout_well_formed(v: ViewModel)
    requires
        view_valid(v),
    ensures
        layout_well_formed(layout_of(v)),
        layout_of(v).first_element + span(layout_of(v).strides) + layout_of(v).elements_per_range <= seq_product(v.tensor.dims),
        byte_end(layout_of(v).first_element + span(layout_of(v).strides), layout_of(v).elements_per_range, layout_of(v).bits)
            <= tensor_bytes(v.tensor),
{
    let t = v.tensor.dims;
    let l = layout_of(v);
    let c = contiguous_start(v);
    lemma_layout_size(v);
    lemma_contiguous_start_bounds(v);
    let total = seq_product(t);
    assert(num_ranges(l.strides) * l.elements_per_range <= usize::MAX);
    if v.dims.len() == 0 {
        assert(l.strides.len() == 0);
        assert(v.dims.skip(0) =~= Seq::<usize>::empty());
        assert(l.elements_per_range == 1);
        assert(l.first_element == 0);
        assert(total == 1);
    } else {
        lemma_block_extent(v, 0);
        lemma_flat_as_offset_sum(t, v.offsets, t.len() as int);
        assert(t.skip(t.len() as int) =~= Seq::<usize>::empty());
        assert(seq_product(t.skip(t.len() as int)) == 1);
        assert(offset_sum(t, v.offsets, t.len() as int) == 0);
        let f = flat_index(t, v.offsets, t.len() as int);
        assert(f * 1 == f) by (nonlinear_arith);
        assert(l.first_element == f);
        assert(l.first_element == offset_sum(t, v.offsets, 0));
        lemma_product_skip_step(t, 0);
        assert(t.skip(0) =~= t);
        assert(l.strides.skip(0) =~= l.strides);
        assert forall|d: int| 0 <= d < l.strides.len() implies span(l.strides.skip(d + 1)) + l.elements_per_range < (#[trigger] l.strides[d]).1 by {
            lemma_stride_gap(v, d);
        }
    }
    // The bytes of the last range end inside the tensor's bytes.
    let last_end = l.first_element + span(l.strides) + l.elements_per_range;
    assert(last_end <= total);
    assert(last_end * l.bits <= total * l.bits) by (nonlinear_arith) requires last_end <= total;
    assert((last_end * l.bits + 7) / 8 <= (total * l.bits + 7) / 8) by (nonlinear_arith)
        requires last_end * l.bits <= total * l.bits;
    assert(tensor_bytes(v.tensor) == packed_bytes(total, l.bits));
}

/// The bytes that the element range `element_range` of `bits_per_element`
/// bit elements occupies.
pub fn element_range_to_byte_range(element_range: Range<usize>, bits_per_element: usize) -> (bytes: Range<usize>)
    requires
        element_range.start <= element_range.end,
        byte_end(element_range.start as nat, (element_range.end - element_range.start) as nat, bits_per_element as nat)
            <= usize::MAX,
    ensures
        bytes.start == byte_start(element_range.start as nat, bits_per_element as nat),
        bytes.end == byte_end(element_range.start as nat, (element_range.end - element_range.start) as nat, bits_per_element as nat),
{
    let start = element_range.start;
    let end = element_range.end;
    proof {
        assert(start * bits_per_element <= u64::MAX * u64::MAX) by (nonlinear_arith)
            requires start <= u64::MAX, bits_per_element <= u64::MAX;
        assert(end * bits_per_element <= u64::MAX * u64::MAX) by (nonlinear_arith)
            requires end <= u64::MAX, bits_per_element <= u64::MAX;
        lemma_byte_end_monotone(start as nat, start as nat, (end - start) as nat, bits_per_element as nat);
        assert(start * bits_per_element <= end * bits_per_element) by (nonlinear_arith) requires start <= end;
        lemma_div_is_ordered((start * bits_per_element) as int, (end * bits_per_element + 7) as int, 8);
    }
    let start_bit = start as u128 * bits_per_element as u128;
    let end_bit = end as u128 * bits_per_element as u128;
    let start_byte = (start_bit / 8) as usize;
    let end_byte = ((end_bit + 7) / 8) as usize;
    start_byte..end_byte
}

/// The first element of the last range of a block.
fn last_range_start(first_element: usize, strides: &[TensorViewStride]) -> (start: usize)
    requires
        forall|d: int| 0 <= d < strides@.len() ==> (#[trigger] strides@[d])@.0 >= 1,
        first_element + span(strides_view(strides@)) <= usize::MAX,
    ensures
        start == first_element + span(strides_view(strides@)),
{
    let ghost sv = strides_view(strides@);
    let mut start = first_element;
    let mut d: usize = 0;
    assert(sv.skip(0) =~= sv);
    while d < strides.len()
        invariant
            d <= strides@.len(),
            sv == strides_view(strides@),
            start + span(sv.skip(d as int)) == first_element + span(sv),
            first_element + span(sv) <= usize::MAX,
            forall|e: int| 0 <= e < strides@.len() ==> (#[trigger] strides@[e])@.0 >= 1,
        decreases strides@.len() - d,
    {
        proof {
            assert(sv.skip(d as int).drop_first() =~= sv.skip(d + 1));
            assert(sv.skip(d as int)[0] == strides@[d as int]@);
        }
        start = start + (strides[d].count - 1) * strides[d].stride_elements;
        d = d + 1;
    }
    assert(sv.skip(d as int) =~= Seq::<(nat, nat)>::empty());
    start
}

/// The bytes from the first byte of a block to the end of its last range.
fn layout_bounds(first_element: usize, elements_per_range: usize, strides: &[TensorViewStride], bits_per_element: usize) -> (bounds: Range<usize>)
    requires
        block_fits(first_element as nat, elements_per_range as nat, strides_view(strides@), bits_per_element as nat),
    ensures
        bounds.start == block_bounds(first_element as nat, elements_per_range as nat, strides_view(strides@), bits_per_element as nat).0,
        bounds.end == block_bounds(first_element as nat, elements_per_range as nat, strides_view(strides@), bits_per_element as nat).1,
{
    proof {
        let sv = strides_view(strides@);
        assert forall|d: int| 0 <= d < strides@.len() implies (#[trigger] strides@[d])@.0 >= 1 by {
            assert(sv[d] == strides@[d]@);
        }
    }
    let last = last_range_start(first_element, strides);
    let bytes = element_range_to_byte_range(first_element..last + elements_per_range, bits_per_element);
    proof {
        lemma_byte_end_monotone(first_element as nat, last as nat, elements_per_range as nat, bits_per_element as nat);
    }
    bytes.start..bytes.end
}

/// The number of ranges below each stride: entry `d` counts the ranges of
/// one repeat along stride `d`.
fn inner_range_counts(strides: &[TensorViewStride]) -> (counts: Vec<usize>)
    requires
        forall|d: int| 0 <= d < strides@.len() ==> (#[trigger] strides@[d])@.0 >= 1,
        num_ranges(strides_view(strides@)) <= usize::MAX,
    ensures
        counts@.len() == strides@.len(),
        forall|d: int| 0 <= d < strides@.len() ==> counts@[d] == num_ranges(strides_view(strides@).skip(d + 1)),
{
    let ghost sv = strides_view(strides@);
    assert forall|d: int| 0 <= d < sv.len() implies (#[trigger] sv[d]).0 >= 1 by {
        assert(sv[d] == strides@[d]@);
    }
    let mut reversed: Vec<usize> = Vec::new();
    let mut acc: usize = 1;
    let mut d = strides.len();
    assert(sv.skip(d as int) =~= Seq::<(nat, nat)>::empty());
    while d > 0
        invariant
            d <= strides@.len(),
            sv == strides_view(strides@),
            forall|e: int| 0 <= e < sv.len() ==> (#[trigger] sv[e]).0 >= 1,
            num_ranges(sv) <= usize::MAX,
            acc == num_ranges(sv.skip(d as int)),
            reversed@.len() == strides@.len() - d,
            forall|i: int| 0 <= i < reversed@.len() ==> reversed@[i] == num_ranges(sv.skip(strides@.len() - i)),
        decreases d,
    {
        reversed.push(acc);
        proof {
            assert(sv.skip(d - 1).drop_first() =~= sv.skip(d as int));
            assert(sv.skip(d - 1)[0] == strides@[d - 1]@);
            lemma_num_ranges_suffix_le(sv, d - 1);
        }
        acc = strides[d - 1].count * acc;
        d = d - 1;
    }
    let n = reversed.len();
    let mut counts: Vec<usize> = Vec::new();
    let mut i: usize = 0;
    while i < n
        invariant
            n == reversed@.len(),
            n == strides@.len(),
            sv == strides_view(strides@),
            forall|j: int| 0 <= j < n ==> reversed@[j] == num_ranges(sv.skip(n - j)),
            i <= n,
            counts@.len() == i,
            forall|e: int| 0 <= e < i ==> counts@[e] == num_ranges(sv.skip(e + 1)),
        decreases n - i,
    {
        counts.push(reversed[n - 1 - i]);
        i = i + 1;
    }
    counts
}

/// The first element of range `k` of a block.
fn range_start_at(first_element: usize, strides: &[TensorViewStride], inner_counts: &[usize], k: usize) -> (start: usize)
    requires
        inner_counts@.len() == strides@.len(),
        forall|d: int| 0 <= d < strides@.len() ==> inner_counts@[d] == num_ranges(strides_view(strides@).skip(d + 1)),
        forall|d: int| 0 <= d < strides@.len() ==> (#[trigger] strides@[d])@.0 >= 1,
        k < num_ranges(strides_view(strides@)),
        first_element + span(strides_view(strides@)) <= usize::MAX,
    ensures
        start == range_start(first_element as nat, strides_view(strides@), k as nat),
{
    let ghost sv = strides_view(strides@);
    let mut start = first_element;
    let mut rem = k;
    let mut d: usize = 0;
    assert(sv.skip(0) =~= sv);
    while d < strides.len()
        invariant
            d <= strides@.len(),
            sv == strides_view(strides@),
            inner_counts@.len() == strides@.len(),
            forall|e: int| 0 <= e < strides@.len() ==> inner_counts@[e] == num_ranges(sv.skip(e + 1)),
            forall|e: int| 0 <= e < strides@.len() ==> (#[trigger] strides@[e])@.0 >= 1,
            range_start(first_element as nat, sv, k as nat) == range_start(start as nat, sv.skip(d as int), rem as nat),
            rem < num_ranges(sv.skip(d as int)),
            start + span(sv.skip(d as int)) <= first_element + span(sv),
            first_element + span(sv) <= usize::MAX,
        decreases strides@.len() - d,
    {
        let ghost t = sv.skip(d as int);
        proof {
            assert(t.drop_first() =~= sv.skip(d + 1));
            assert(t[0] == strides@[d as int]@);
            assert forall|e: int| 0 <= e < t.len() implies (#[trigger] t[e]).0 >= 1 by {
                assert(t[e] == strides@[d + e]@);
            }
            lemma_counts_rest(t);
        }
        let inner = inner_counts[d];
        let count = strides[d].count;
        let stride = strides[d].stride_elements;
        proof {
            lemma_fundamental_div_mod(rem as int, inner as int);
            let q = rem / inner;
            assert(q < count) by (nonlinear_arith)
                requires rem == inner * q + rem % inner, rem % inner >= 0, rem < count * inner, inner >= 1;
            assert(q * stride <= ((count - 1) as nat) * stride) by (nonlinear_arith) requires q <= count - 1;
        }
        start = start + (rem / inner) * stride;
        rem = rem % inner;
        d = d + 1;
    }
    start
}

/// The byte ranges that a layout touches, relative to its tensor, in
/// order, with touching ranges merged.
pub struct ByteRanges {
    layout: TensorViewLayout,
    inner_counts: Vec<usize>,
    num_ranges: usize,
    next_range: usize,
}

/// Where a walk over the byte ranges of a layout stands: the layout, and
/// the next of its element ranges.
pub struct ByteRangesModel {
    pub layout: LayoutModel,
    pub next_range: nat,
}

impl View for ByteRanges {
    type V = ByteRangesModel;

    closed spec fn view(&self) -> ByteRangesModel {
        ByteRangesModel { layout: self.layout@, next_range: self.next_range as nat }
    }
}

impl ByteRanges {
    #[verifier::type_invariant]
    spec fn walk_invariant(self) -> bool {
        &&& layout_well_formed(self.layout@)
        &&& self.inner_counts@.len() == self.layout@.strides.len()
        &&& forall|d: int| 0 <= d < self.inner_counts@.len() ==> self.inner_counts@[d] == num_ranges(self.layout@.strides.skip(d + 1))
        &&& self.num_ranges == num_ranges(self.layout@.strides)
        &&& self.next_range <= self.num_ranges
        &&& run_boundary(self.layout@, self.next_range as nat)
    }

    /// The bytes of element range `k`.
    fn raw_range(&self, k: usize) -> (bytes: Range<usize>)
        requires
            k < num_ranges(self@.layout.strides),
        ensures
            bytes.start == raw_byte_range(self@.layout, k as nat).0,
            bytes.end == raw_byte_range(self@.layout, k as nat).1,
    {
        proof {
            use_type_invariant(self);
        }
        let ghost l = self@.layout;
        proof {
            assert forall|d: int| 0 <= d < self.layout.strides@.len() implies (#[trigger] self.layout.strides@[d])@.0 >= 1 by {
                assert(l.strides[d] == self.layout.strides@[d]@);
            }
        }
        let start = range_start_at(
            self.layout.first_element,
            self.layout.strides.as_slice(),
            self.inner_counts.as_slice(),
            k,
        );
        proof {
            lemma_range_start_bounds(l.first_element, l.strides, k as nat);
            lemma_byte_end_monotone(start as nat, l.first_element + span(l.strides), l.elements_per_range, l.bits);
        }
        element_range_to_byte_range(start..start + self.layout.elements_per_range, self.layout.bits_per_element)
    }

    /// The next byte range: the bytes of the next element range, merged
    /// with the element ranges after it for as long as they touch.
    pub fn next(&mut self) -> (range: Option<Range<usize>>)
        ensures
            final(self)@.layout == old(self)@.layout,
            old(self)@.next_range >= num_ranges(old(self)@.layout.strides) ==> range is None && final(self)@ == old(self)@,
            old(self)@.next_range < num_ranges(old(self)@.layout.strides) ==> (range matches Some(r) && merged_run(
                old(self)@.layout,
                old(self)@.next_range,
                final(self)@.next_range,
            ) && r.start == raw_byte_range(old(self)@.layout, old(self)@.next_range).0 && r.end == raw_byte_range(
                old(self)@.layout,
                (final(self)@.next_range - 1) as nat,
            ).1),
            run_boundary(old(self)@.layout, old(self)@.next_range),
            range matches Some(r) ==> is_byte_range(old(self)@.layout, r.start as int, r.end as int),
            layout_well_formed(old(self)@.layout),
            final(self)@.next_range <= num_ranges(final(self)@.layout.strides),
            old(self)@.next_range < num_ranges(old(self)@.layout.strides) ==> final(self)@.next_range == run_end(
                old(self)@.layout,
                old(self)@.next_range,
            ),
    {
        proof {
            use_type_invariant(&*self);
        }
        let ghost l = self@.layout;
        let from = self.next_range;
        if from >= self.num_ranges {
            return None;
        }
        let first = self.raw_range(from);
        let start = first.start;
        let mut end = first.end;
        let mut index = from + 1;
        while index < self.num_ranges
            invariant_except_break
                from < index <= num_ranges(l.strides),
                l == self@.layout,
                self.num_ranges == num_ranges(l.strides),
                layout_well_formed(l),
                end == raw_byte_range(l, (index - 1) as nat).1,
                forall|j: nat| from <= j && j + 1 < index ==> (#[trigger] raw_byte_range(l, j + 1)).0 <= raw_byte_range(l, j).1,
            ensures
                from < index <= num_ranges(l.strides),
                end == raw_byte_range(l, (index - 1) as nat).1,
                forall|j: nat| from <= j && j + 1 < index ==> (#[trigger] raw_byte_range(l, j + 1)).0 <= raw_byte_range(l, j).1,
                index < num_ranges(l.strides) ==> raw_byte_range(l, index as nat).0 > raw_byte_range(l, (index - 1) as nat).1,
            decreases self.num_ranges - index,
        {
            let next = self.raw_range(index);
            if next.start > end {
                break;
            }
            proof {
                lemma_raw_byte_ranges_ordered(l, (index - 1) as nat);
                lemma_raw_byte_ranges_ordered(l, index as nat);
            }
            if next.end > end {
                end = next.end;
            }
            index = index + 1;
        }
        self.next_range = index;
        proof {
            assert(merged_run(l, from as nat, index as nat));
            lemma_merged_run_is_run(l, from as nat, index as nat);
        }
        Some(start..end)
    }
}

/// The physical address ranges that a view touches, in order, with
/// touching ranges merged.
pub struct AddressRanges {
    base: u64,
    ranges: ByteRanges,
}

/// Where a walk over the address ranges of a view stands.
pub struct AddressRangesModel {
    pub base: nat,
    pub ranges: ByteRangesModel,
}

impl View for AddressRanges {
    type V = AddressRangesModel;

    closed spec fn view(&self) -> AddressRangesModel {
        AddressRangesModel { base: self.base as nat, ranges: self.ranges@ }
    }
}

impl AddressRanges {
    /// The next address range: the next byte range, moved to the tensor's
    /// address.
    pub fn next(&mut self) -> (range: Option<Range<u128>>)
        ensures
            final(self)@.base == old(self)@.base,
            final(self)@.ranges.layout == old(self)@.ranges.layout,
            old(self)@.ranges.next_range >= num_ranges(old(self)@.ranges.layout.strides) ==> range is None
                && final(self)@ == old(self)@,
            old(self)@.ranges.next_range < num_ranges(old(self)@.ranges.layout.strides) ==> (range matches Some(r)
                && merged_run(old(self)@.ranges.layout, old(self)@.ranges.next_range, final(self)@.ranges.next_range)
                && r.start == old(self)@.base + raw_byte_range(old(self)@.ranges.layout, old(self)@.ranges.next_range).0
                && r.end == old(self)@.base + raw_byte_range(
                old(self)@.ranges.layout,
                (final(self)@.ranges.next_range - 1) as nat,
            ).1),
            range matches Some(r) ==> is_byte_range(old(self)@.ranges.layout, r.start - old(self)@.base, r.end - old(self)@.base),
            final(self)@.ranges.next_range <= num_ranges(final(self)@.ranges.layout.strides),
            final(self)@.ranges.next_range >= old(self)@.ranges.next_range,
            range is Some ==> final(self)@.ranges.next_range > old(self)@.ranges.next_range,
            old(self)@.ranges.next_range < num_ranges(old(self)@.ranges.layout.strides) ==> final(self)@.ranges.next_range
                == run_end(old(self)@.ranges.layout, old(self)@.ranges.next_range),
    {
        let base = self.base as u128;
        match self.ranges.next() {
            Some(r) => Some(base + r.start as u128..base + r.end as u128),
            None => None,
        }
    }
}

/// The length of the part of `start..end` that lies in `lo..hi`.
pub open spec fn overlap_len(start: nat, end: nat, lo: nat, hi: nat) -> nat {
    let s = if start > lo { start } else { lo };
    let e = if end < hi { end } else { hi };
    if s < e {
        (e - s) as nat
    } else {
        0
    }
}

/// The bytes of a block that lie in `lo..hi`, counted range by range.
pub open spec fn block_bytes_in(first: nat, epr: nat, strides: Seq<(nat, nat)>, bits: nat, lo: nat, hi: nat) -> nat
    decreases strides.len(), block_measure(strides),
{
    if strides.len() == 0 {
        overlap_len(byte_start(first, bits), byte_end(first, epr, bits), lo, hi)
    } else {
        blocks_bytes_in(first, epr, strides, bits, lo, hi, strides[0].0)
    }
}

/// The bytes in `lo..hi` of the first `k` blocks along the outermost stride.
pub open spec fn blocks_bytes_in(first: nat, epr: nat, strides: Seq<(nat, nat)>, bits: nat, lo: nat, hi: nat, k: nat) -> nat
    decreases strides.len(), k,
{
    if strides.len() == 0 || k == 0 {
        0
    } else {
        blocks_bytes_in(first, epr, strides, bits, lo, hi, (k - 1) as nat) + block_bytes_in(
            first + ((k - 1) as nat) * strides[0].1,
            epr,
            strides.drop_first(),
            bits,
            lo,
            hi,
        )
    }
}

/// The bounds of repeat `i` along the outermost stride of a block.
pub open spec fn child_bounds(first: nat, epr: nat, strides: Seq<(nat, nat)>, bits: nat, i: nat) -> (nat, nat) {
    block_bounds(first + i * strides[0].1, epr, strides.drop_first(), bits)
}

/// Each repeat of a block lies inside the block's bounds, and the repeats
/// are sorted and disjoint.
proof fn lemma_child_bounds(first: nat, epr: nat, strides: Seq<(nat, nat)>, bits: nat, i: nat)
    requires
        block_fits(first, epr, strides, bits),
        strides_separated(strides, epr),
        strides.len() > 0,
        i < strides[0].0,
    ensures
        block_fits(first + i * strides[0].1, epr, strides.drop_first(), bits),
        strides_separated(strides.drop_first(), epr),
        block_bounds(first, epr, strides, bits).0 <= child_bounds(first, epr, strides, bits, i).0,
        child_bounds(first, epr, strides, bits, i).0 < child_bounds(first, epr, strides, bits, i).1,
        child_bounds(first, epr, strides, bits, i).1 <= block_bounds(first, epr, strides, bits).1,
        i + 1 < strides[0].0 ==> child_bounds(first, epr, strides, bits, i).1 <= child_bounds(first, epr, strides, bits, i + 1).0,
        first + i * strides[0].1 + span(strides.drop_first()) <= first + span(strides),
{
    let rest = strides.drop_first();
    let s = strides[0].1;
    let count = strides[0].0;
    lemma_separated_rest(strides, epr);
    lemma_counts_rest(strides);
    assert(i * s <= ((count - 1) as nat) * s) by (nonlinear_arith) requires i <= count - 1;
    let f = first + i * s;
    let last = f + span(rest);
    lemma_byte_end_monotone(first, f, epr, bits);
    lemma_byte_end_monotone(last, first + span(strides), epr, bits);
    lemma_byte_end_monotone(f, last, epr, bits);
    lemma_byte_range_ordered(last, last + epr + 1, epr, bits);
    if i + 1 < count {
        assert((i + 1) * s == i * s + s) by (nonlinear_arith);
        lemma_byte_range_ordered(last, first + (i + 1) * s, epr, bits);
    }
}

/// Repeats further out along a stride start and end further out.
proof fn lemma_child_bounds_monotone(first: nat, epr: nat, strides: Seq<(nat, nat)>, bits: nat, i: nat, j: nat)
    requires
        strides.len() > 0,
        i <= j,
    ensures
        child_bounds(first, epr, strides, bits, i).0 <= child_bounds(first, epr, strides, bits, j).0,
        child_bounds(first, epr, strides, bits, i).1 <= child_bounds(first, epr, strides, bits, j).1,
{
    let s = strides[0].1;
    assert(i * s <= j * s) by (nonlinear_arith) requires i <= j;
    lemma_byte_end_monotone(first + i * s, first + j * s, epr, bits);
    lemma_byte_end_monotone(first + i * s + span(strides.drop_first()), first + j * s + span(strides.drop_first()), epr, bits);
}

/// A block whose bounds miss `lo..hi` has no bytes there.
proof fn lemma_block_bytes_in_outside(first: nat, epr: nat, strides: Seq<(nat, nat)>, bits: nat, lo: nat, hi: nat)
    requires
        block_fits(first, epr, strides, bits),
        strides_separated(strides, epr),
        block_bounds(first, epr, strides, bits).1 <= lo || hi <= block_bounds(first, epr, strides, bits).0,
    ensures
        block_bytes_in(first, epr, strides, bits, lo, hi) == 0,
    decreases strides.len(), block_measure(strides),
{
    if strides.len() > 0 {
        lemma_blocks_bytes_in_outside(first, epr, strides, bits, lo, hi, strides[0].0);
    }
}

proof fn lemma_blocks_bytes_in_outside(first: nat, epr: nat, strides: Seq<(nat, nat)>, bits: nat, lo: nat, hi: nat, k: nat)
    requires
        block_fits(first, epr, strides, bits),
        strides_separated(strides, epr),
        strides.len() > 0,
        k <= strides[0].0,
        block_bounds(first, epr, strides, bits).1 <= lo || hi <= block_bounds(first, epr, strides, bits).0,
    ensures
        blocks_bytes_in(first, epr, strides, bits, lo, hi, k) == 0,
    decreases strides.len(), k,
{
    if k > 0 {
        lemma_blocks_bytes_in_outside(first, epr, strides, bits, lo, hi, (k - 1) as nat);
        lemma_child_bounds(first, epr, strides, bits, (k - 1) as nat);
        lemma_block_bytes_in_outside(first + ((k - 1) as nat) * strides[0].1, epr, strides.drop_first(), bits, lo, hi);
    }
}

/// A block whose bounds lie inside `lo..hi` has all its bytes there.
proof fn lemma_block_bytes_in_inside(first: nat, epr: nat, strides: Seq<(nat, nat)>, bits: nat, lo: nat, hi: nat)
    requires
        block_fits(first, epr, strides, bits),
        strides_separated(strides, epr),
        lo <= block_bounds(first, epr, strides, bits).0,
        block_bounds(first, epr, strides, bits).1 <= hi,
    ensures
        block_bytes_in(first, epr, strides, bits, lo, hi) == block_bytes(first, epr, strides, bits),
    decreases strides.len(), block_measure(strides),
{
    if strides.len() > 0 {
        lemma_blocks_bytes_in_inside(first, epr, strides, bits, lo, hi, strides[0].0);
    } else {
        lemma_byte_range_ordered(first, first + epr + 1, epr, bits);
    }
}

proof fn lemma_blocks_bytes_in_inside(first: nat, epr: nat, strides: Seq<(nat, nat)>, bits: nat, lo: nat, hi: nat, k: nat)
    requires
        block_fits(first, epr, strides, bits),
        strides_separated(strides, epr),
        strides.len() > 0,
        k <= strides[0].0,
        lo <= block_bounds(first, epr, strides, bits).0,
        block_bounds(first, epr, strides, bits).1 <= hi,
    ensures
        blocks_bytes_in(first, epr, strides, bits, lo, hi, k) == blocks_bytes(first, epr, strides, bits, k),
    decreases strides.len(), k,
{
    if k > 0 {
        lemma_blocks_bytes_in_inside(first, epr, strides, bits, lo, hi, (k - 1) as nat);
        lemma_child_bounds(first, epr, strides, bits, (k - 1) as nat);
        lemma_block_bytes_in_inside(first + ((k - 1) as nat) * strides[0].1, epr, strides.drop_first(), bits, lo, hi);
    }
}

/// Repeats `a..b` that have no bytes in the selection add nothing.
proof fn lemma_blocks_bytes_in_skip(first: nat, epr: nat, strides: Seq<(nat, nat)>, bits: nat, lo: nat, hi: nat, a: nat, b: nat)
    requires
        strides.len() > 0,
        a <= b,
        forall|i: nat| a <= i < b ==> #[trigger] block_bytes_in(first + i * strides[0].1, epr, strides.drop_first(), bits, lo, hi) == 0,
    ensures
        blocks_bytes_in(first, epr, strides, bits, lo, hi, b) == blocks_bytes_in(first, epr, strides, bits, lo, hi, a),
    decreases b - a,
{
    if a < b {
        lemma_blocks_bytes_in_skip(first, epr, strides, bits, lo, hi, a, (b - 1) as nat);
        let i = (b - 1) as nat;
        assert(block_bytes_in(first + i * strides[0].1, epr, strides.drop_first(), bits, lo, hi) == 0);
    }
}

/// Repeats `a..a + m` that lie inside the selection add the bytes of the
/// block made of them.
proof fn lemma_blocks_bytes_in_middle(first: nat, epr: nat, strides: Seq<(nat, nat)>, middle: Seq<(nat, nat)>, bits: nat, lo: nat, hi: nat, a: nat, m: nat)
    requires
        strides.len() > 0,
        middle.len() == strides.len(),
        middle.drop_first() == strides.drop_first(),
        middle[0].1 == strides[0].1,
        forall|i: nat| a <= i < a + m ==> #[trigger] block_bytes_in(first + i * strides[0].1, epr, strides.drop_first(), bits, lo, hi)
            == block_bytes(first + i * strides[0].1, epr, strides.drop_first(), bits),
    ensures
        blocks_bytes_in(first, epr, strides, bits, lo, hi, a + m) == blocks_bytes_in(first, epr, strides, bits, lo, hi, a)
            + blocks_bytes(first + a * strides[0].1, epr, middle, bits, m),
    decreases m,
{
    if m > 0 {
        lemma_blocks_bytes_in_middle(first, epr, strides, middle, bits, lo, hi, a, (m - 1) as nat);
        let s = strides[0].1;
        let i = (a + m - 1) as nat;
        assert(first + a * s + ((m - 1) as nat) * s == first + i * s) by (nonlinear_arith)
            requires i == a + m - 1, m >= 1;
        assert(block_bytes_in(first + i * s, epr, strides.drop_first(), bits, lo, hi) == block_bytes(first + i * s, epr, strides.drop_first(), bits));
    }
}

/// The bytes of a block in a selection are at most the block's bytes.
proof fn lemma_block_bytes_in_le(first: nat, epr: nat, strides: Seq<(nat, nat)>, bits: nat, lo: nat, hi: nat)
    ensures
        block_bytes_in(first, epr, strides, bits, lo, hi) <= block_bytes(first, epr, strides, bits),
    decreases strides.len(), block_measure(strides),
{
    if strides.len() > 0 {
        lemma_blocks_bytes_in_le(first, epr, strides, bits, lo, hi, strides[0].0);
    }
}

proof fn lemma_blocks_bytes_in_le(first: nat, epr: nat, strides: Seq<(nat, nat)>, bits: nat, lo: nat, hi: nat, k: nat)
    ensures
        blocks_bytes_in(first, epr, strides, bits, lo, hi, k) <= blocks_bytes(first, epr, strides, bits, k),
    decreases strides.len(), k,
{
    if strides.len() > 0 && k > 0 {
        lemma_blocks_bytes_in_le(first, epr, strides, bits, lo, hi, (k - 1) as nat);
        lemma_block_bytes_in_le(first + ((k - 1) as nat) * strides[0].1, epr, strides.drop_first(), bits, lo, hi);
    }
}

/// The first index below `count` at which `predicate` fails, for a
/// predicate that holds on a prefix of the indices.
fn lower_bound<F: Fn(usize) -> bool>(count: usize, predicate: F, Ghost(holds): Ghost<spec_fn(usize) -> bool>) -> (first: usize)
    requires
        forall|i: usize| i < count ==> #[trigger] predicate.requires((i,)),
        forall|i: usize, b: bool| i < count && #[trigger] predicate.ensures((i,), b) ==> b == holds(i),
        forall|i: usize, j: usize| i <= j < count && #[trigger] holds(j) ==> #[trigger] holds(i),
    ensures
        first <= count,
        forall|i: usize| i < first ==> #[trigger] holds(i),
        forall|i: usize| first <= i < count ==> !#[trigger] holds(i),
{
    let mut first: usize = 0;
    let mut len: usize = count;
    while len > 0
        invariant
            first + len <= count,
            forall|i: usize| i < count ==> #[trigger] predicate.requires((i,)),
            forall|i: usize, b: bool| i < count && #[trigger] predicate.ensures((i,), b) ==> b == holds(i),
            forall|i: usize, j: usize| i <= j < count && #[trigger] holds(j) ==> #[trigger] holds(i),
            forall|i: usize| i < first ==> #[trigger] holds(i),
            forall|i: usize| first + len <= i < count ==> !#[trigger] holds(i),
        decreases len,
    {
        let half = len / 2;
        let middle = first + half;
        if predicate(middle) {
            assert(holds(middle));
            first = middle + 1;
            len = len - (half + 1);
        } else {
            assert(!holds(middle));
            len = half;
        }
    }
    first
}

/// The strides below the outermost one.
fn inner_strides(strides: &[TensorViewStride]) -> (inner: Vec<TensorViewStride>)
    requires
        strides@.len() > 0,
    ensures
        inner@ == strides@.drop_first(),
{
    let mut inner: Vec<TensorViewStride> = Vec::new();
    let mut i: usize = 1;
    while i < strides.len()
        invariant
            1 <= i <= strides@.len(),
            inner@ == strides@.subrange(1, i as int),
        decreases strides@.len() - i,
    {
        inner.push(strides[i]);
        i = i + 1;
        assert(inner@ =~= strides@.subrange(1, i as int));
    }
    assert(strides@.subrange(1, strides@.len() as int) =~= strides@.drop_first());
    inner
}

/// The strides, with the outermost one repeating `count` times.
fn with_outer_count(strides: &[TensorViewStride], count: usize) -> (result: Vec<TensorViewStride>)
    requires
        strides@.len() > 0,
    ensures
        result@ == strides@.update(0, TensorViewStride { count, stride_elements: strides@[0].stride_elements }),
{
    let mut result: Vec<TensorViewStride> = Vec::new();
    result.push(TensorViewStride { count, stride_elements: strides[0].stride_elements });
    let mut i: usize = 1;
    while i < strides.len()
        invariant
            1 <= i <= strides@.len(),
            result@ == strides@.update(0, TensorViewStride { count, stride_elements: strides@[0].stride_elements }).take(i as int),
        decreases strides@.len() - i,
    {
        result.push(strides[i]);
        i = i + 1;
        assert(result@ =~= strides@.update(0, TensorViewStride { count, stride_elements: strides@[0].stride_elements }).take(i as int));
    }
    assert(result@ =~= strides@.update(0, TensorViewStride { count, stride_elements: strides@[0].stride_elements }));
    result
}

/// A copy of the strides.
fn copy_strides(strides: &[TensorViewStride]) -> (copy: Vec<TensorViewStride>)
    ensures
        copy@ == strides@,
{
    let mut copy: Vec<TensorViewStride> = Vec::new();
    let mut i: usize = 0;
    while i < strides.len()
        invariant
            i <= strides@.len(),
            copy@ == strides@.take(i as int),
        decreases strides@.len() - i,
    {
        copy.push(strides[i]);
        i = i + 1;
        assert(copy@ =~= strides@.take(i as int));
    }
    assert(strides@.take(strides@.len() as int) =~= strides@);
    copy
}

/// The bytes of a block in a selection, split along the outermost stride
/// at the first repeat that ends after the selection starts (`fi`) and the
/// first repeat that starts after it ends (`ei`).
proof fn lemma_bytes_in_by_search(first: nat, epr: nat, strides: Seq<(nat, nat)>, bits: nat, lo: nat, hi: nat, fi: nat, ei: nat)
    requires
        block_fits(first, epr, strides, bits),
        strides_separated(strides, epr),
        strides.len() > 0,
        fi <= strides[0].0,
        ei <= strides[0].0,
        forall|i: nat| i < fi ==> #[trigger] child_bounds(first, epr, strides, bits, i).1 <= lo,
        forall|i: nat| fi <= i < strides[0].0 ==> lo < #[trigger] child_bounds(first, epr, strides, bits, i).1,
        forall|i: nat| i < ei ==> #[trigger] child_bounds(first, epr, strides, bits, i).0 < hi,
        forall|i: nat| ei <= i < strides[0].0 ==> hi <= #[trigger] child_bounds(first, epr, strides, bits, i).0,
    ensures
        fi >= ei ==> block_bytes_in(first, epr, strides, bits, lo, hi) == 0,
        fi + 1 == ei ==> block_bytes_in(first, epr, strides, bits, lo, hi)
            == block_bytes_in(first + fi * strides[0].1, epr, strides.drop_first(), bits, lo, hi),
        fi + 2 <= ei ==> block_bytes_in(first, epr, strides, bits, lo, hi)
            == block_bytes_in(first + fi * strides[0].1, epr, strides.drop_first(), bits, lo, hi)
            + blocks_bytes(first + (fi + 1) * strides[0].1, epr, strides.update(0, ((ei - fi - 2) as nat, strides[0].1)), bits, (ei - fi - 2) as nat)
            + block_bytes_in(first + ((ei - 1) as nat) * strides[0].1, epr, strides.drop_first(), bits, lo, hi),
{
    let s = strides[0].1;
    let count = strides[0].0;
    let rest = strides.drop_first();
    assert forall|i: nat| i < fi implies #[trigger] block_bytes_in(first + i * s, epr, rest, bits, lo, hi) == 0 by {
        assert(child_bounds(first, epr, strides, bits, i).1 <= lo);
        lemma_child_bounds(first, epr, strides, bits, i);
        lemma_block_bytes_in_outside(first + i * s, epr, rest, bits, lo, hi);
    }
    assert forall|i: nat| ei <= i < count implies #[trigger] block_bytes_in(first + i * s, epr, rest, bits, lo, hi) == 0 by {
        assert(hi <= child_bounds(first, epr, strides, bits, i).0);
        lemma_child_bounds(first, epr, strides, bits, i);
        lemma_block_bytes_in_outside(first + i * s, epr, rest, bits, lo, hi);
    }
    lemma_blocks_bytes_in_skip(first, epr, strides, bits, lo, hi, 0, fi);
    if fi >= ei {
        lemma_blocks_bytes_in_skip(first, epr, strides, bits, lo, hi, fi, count);
    } else {
        lemma_blocks_bytes_in_skip(first, epr, strides, bits, lo, hi, ei, count);
        if fi + 2 <= ei {
            let m = (ei - fi - 2) as nat;
            let mid = strides.update(0, (m, s));
            assert(mid.drop_first() =~= strides.drop_first());
            assert forall|i: nat| fi + 1 <= i < fi + 1 + m implies #[trigger] block_bytes_in(first + i * s, epr, rest, bits, lo, hi)
                == block_bytes(first + i * s, epr, rest, bits) by {
                assert(lo < child_bounds(first, epr, strides, bits, (i - 1) as nat).1);
                assert(child_bounds(first, epr, strides, bits, (i + 1) as nat).0 < hi);
                lemma_child_bounds(first, epr, strides, bits, (i - 1) as nat);
                lemma_child_bounds(first, epr, strides, bits, i);
                assert((i - 1) as nat + 1 == i);
                lemma_block_bytes_in_inside(first + i * s, epr, rest, bits, lo, hi);
            }
            lemma_blocks_bytes_in_middle(first, epr, strides, mid, bits, lo, hi, fi + 1, m);
            assert(fi + 1 + m == (ei - 1) as nat);
        }
    }
}

/// A run of `m` repeats along the outermost stride, starting at repeat `a`,
/// is a block of its own.
proof fn lemma_middle_block(first: nat, epr: nat, strides: Seq<(nat, nat)>, bits: nat, a: nat, m: nat)
    requires
        block_fits(first, epr, strides, bits),
        strides_separated(strides, epr),
        block_sizes_fit(epr, strides, bits),
        strides.len() > 0,
        m >= 1,
        a + m <= strides[0].0,
    ensures
        block_fits(first + a * strides[0].1, epr, strides.update(0, (m, strides[0].1)), bits),
        strides_separated(strides.update(0, (m, strides[0].1)), epr),
        block_sizes_fit(epr, strides.update(0, (m, strides[0].1)), bits),
        block_bytes(first + a * strides[0].1, epr, strides.update(0, (m, strides[0].1)), bits)
            == blocks_bytes(first + a * strides[0].1, epr, strides.update(0, (m, strides[0].1)), bits, m),
{
    let s = strides[0].1;
    let count = strides[0].0;
    let mid = strides.update(0, (m, s));
    let rest = strides.drop_first();
    assert(mid.drop_first() =~= rest);
    lemma_separated_rest(strides, epr);
    lemma_counts_rest(strides);
    assert forall|d: int| 0 <= d < mid.len() implies (#[trigger] mid[d]).0 >= 1 by {
        if d > 0 {
            assert(mid[d] == strides[d]);
        }
    }
    assert forall|d: int| 0 <= d < mid.len() implies span(mid.skip(d + 1)) + epr < (#[trigger] mid[d]).1 by {
        if d > 0 {
            assert(mid[d] == strides[d]);
            assert(mid.skip(d + 1) =~= strides.skip(d + 1));
        } else {
            assert(mid.skip(1) =~= strides.skip(1));
        }
    }
    let f = first + a * s;
    assert(span(mid) == ((m - 1) as nat) * s + span(rest));
    assert(f + span(mid) <= first + span(strides)) by (nonlinear_arith)
        requires f == first + a * s, span(mid) == ((m - 1) as nat) * s + span(rest), span(strides) == ((count - 1) as nat) * s + span(rest),
            a + m <= count, m >= 1;
    lemma_byte_end_monotone(f + span(mid), first + span(strides), epr, bits);
    let n = num_ranges(rest);
    assert(num_ranges(mid) == m * n);
    assert(m * n <= count * n) by (nonlinear_arith) requires m <= count;
    assert(num_ranges(mid) * (epr * (bits / 8)) <= num_ranges(strides) * (epr * (bits / 8))) by (nonlinear_arith)
        requires num_ranges(mid) <= num_ranges(strides);
    assert(num_ranges(mid) * epr <= num_ranges(strides) * epr) by (nonlinear_arith) requires num_ranges(mid) <= num_ranges(strides);
}

/// The bytes of a block that lie in the selected byte range, without
/// enumerating its ranges: repeats that miss the selection are skipped by
/// binary search, and repeats that lie inside it are counted as a block.
#[verifier::rlimit(60)]
fn bytes_in_range(
    first_element: usize,
    elements_per_range: usize,
    strides: &[TensorViewStride],
    bits_per_element: usize,
    selected: &Range<usize>,
) -> (bytes: usize)
    requires
        block_fits(first_element as nat, elements_per_range as nat, strides_view(strides@), bits_per_element as nat),
        strides_separated(strides_view(strides@), elements_per_range as nat),
        block_sizes_fit(elements_per_range as nat, strides_view(strides@), bits_per_element as nat),
        selected.start <= selected.end,
    ensures
        bytes == block_bytes_in(
            first_element as nat,
            elements_per_range as nat,
            strides_view(strides@),
            bits_per_element as nat,
            selected.start as nat,
            selected.end as nat,
        ),
    decreases strides@.len(),
{
    let ghost sv = strides_view(strides@);
    let ghost first = first_element as nat;
    let ghost epr = elements_per_range as nat;
    let ghost bits = bits_per_element as nat;
    let ghost lo = selected.start as nat;
    let ghost hi = selected.end as nat;
    proof {
        assert forall|d: int| 0 <= d < strides@.len() implies (#[trigger] strides@[d])@.0 >= 1 by {
            assert(sv[d] == strides@[d]@);
        }
        lemma_block_bytes_in_le(first, epr, sv, bits, lo, hi);
        lemma_num_ranges_positive(sv);
        if bits % 8 == 0 {
            lemma_block_aligned(first, epr, sv, bits);
        } else {
            lemma_block_bound(first, epr, sv, bits);
        }
    }
    let bounds = layout_bounds(first_element, elements_per_range, strides, bits_per_element);
    if !(bounds.start < selected.end && selected.start < bounds.end) {
        proof {
            lemma_block_bytes_in_outside(first, epr, sv, bits, lo, hi);
        }
        return 0;
    }
    if selected.start <= bounds.start && selected.end >= bounds.end {
        proof {
            lemma_block_bytes_in_inside(first, epr, sv, bits, lo, hi);
            if bits % 8 == 0 {
                let x = epr * (bits / 8);
                assert(x >= 1) by (nonlinear_arith) requires epr >= 1, bits / 8 >= 1, x == epr * (bits / 8);
                assert(num_ranges(sv) <= num_ranges(sv) * x && x <= num_ranges(sv) * x) by (nonlinear_arith)
                    requires x >= 1, num_ranges(sv) >= 1;
            }
        }
        let strides_vec = copy_strides(strides);
        return access_byte_count(first_element, elements_per_range, &strides_vec, bits_per_element);
    }
    if strides.len() == 0 {
        let end = if bounds.end < selected.end { bounds.end } else { selected.end };
        let start = if bounds.start > selected.start { bounds.start } else { selected.start };
        return end - start;
    }
    let count = strides[0].count;
    let stride = strides[0].stride_elements;
    let ghost s: nat = stride as nat;
    let rest = inner_strides(strides);
    let ghost rv = strides_view(rest@);
    proof {
        assert(rv =~= sv.drop_first());
        assert(sv[0] == strides@[0]@);
        lemma_separated_rest(sv, epr);
        lemma_counts_rest(sv);
        assert forall|d: int| 0 <= d < rest@.len() implies (#[trigger] rest@[d])@.0 >= 1 by {
            assert(rv[d] == rest@[d]@);
        }
        let n = num_ranges(rv);
        assert(n <= num_ranges(sv)) by (nonlinear_arith) requires num_ranges(sv) == count * n, count >= 1;
        assert(n * (epr * (bits / 8)) <= num_ranges(sv) * (epr * (bits / 8))) by (nonlinear_arith)
            requires n <= num_ranges(sv);
        assert(n * epr <= num_ranges(sv) * epr) by (nonlinear_arith) requires n <= num_ranges(sv);
    }
    let lo_byte = selected.start;
    let hi_byte = selected.end;
    let ends_before = |index: usize| -> (b: bool)
        requires
            index < count,
            block_fits((first_element + index * stride) as nat, elements_per_range as nat, strides_view(rest@), bits_per_element as nat),
        ensures
            b == (block_bounds((first_element + index * stride) as nat, elements_per_range as nat, strides_view(rest@), bits_per_element as nat).1 <= lo_byte),
    {
        let child = layout_bounds(first_element + index * stride, elements_per_range, rest.as_slice(), bits_per_element);
        child.end <= lo_byte
    };
    let starts_before = |index: usize| -> (b: bool)
        requires
            index < count,
            block_fits((first_element + index * stride) as nat, elements_per_range as nat, strides_view(rest@), bits_per_element as nat),
        ensures
            b == (block_bounds((first_element + index * stride) as nat, elements_per_range as nat, strides_view(rest@), bits_per_element as nat).0 < hi_byte),
    {
        let child = layout_bounds(first_element + index * stride, elements_per_range, rest.as_slice(), bits_per_element);
        child.start < hi_byte
    };
    let ghost ends_spec = |i: usize| child_bounds(first, epr, sv, bits, i as nat).1 <= lo;
    let ghost starts_spec = |i: usize| child_bounds(first, epr, sv, bits, i as nat).0 < hi;
    proof {
        assert forall|i: usize| i < count implies #[trigger] ends_before.requires((i,)) by {
            lemma_child_bounds(first, epr, sv, bits, i as nat);
        }
        assert forall|i: usize| i < count implies #[trigger] starts_before.requires((i,)) by {
            lemma_child_bounds(first, epr, sv, bits, i as nat);
        }
        assert forall|i: usize, j: usize| i <= j < count && #[trigger] ends_spec(j) implies #[trigger] ends_spec(i) by {
            lemma_child_bounds_monotone(first, epr, sv, bits, i as nat, j as nat);
        }
        assert forall|i: usize, j: usize| i <= j < count && #[trigger] starts_spec(j) implies #[trigger] starts_spec(i) by {
            lemma_child_bounds_monotone(first, epr, sv, bits, i as nat, j as nat);
        }
    }
    let first_index = lower_bound(count, ends_before, Ghost(ends_spec));
    let end_index = lower_bound(count, starts_before, Ghost(starts_spec));
    proof {
        assert forall|i: nat| i < first_index implies #[trigger] child_bounds(first, epr, sv, bits, i).1 <= lo by {
            assert(ends_spec(i as usize));
        }
        assert forall|i: nat| first_index <= i < count implies lo < #[trigger] child_bounds(first, epr, sv, bits, i).1 by {
            assert(!ends_spec(i as usize));
        }
        assert forall|i: nat| i < end_index implies #[trigger] child_bounds(first, epr, sv, bits, i).0 < hi by {
            assert(starts_spec(i as usize));
        }
        assert forall|i: nat| end_index <= i < count implies hi <= #[trigger] child_bounds(first, epr, sv, bits, i).0 by {
            assert(!starts_spec(i as usize));
        }
        lemma_bytes_in_by_search(first, epr, sv, bits, lo, hi, first_index as nat, end_index as nat);
    }
    if first_index >= end_index {
        return 0;
    }
    proof {
        lemma_child_bounds(first, epr, sv, bits, first_index as nat);
        lemma_child_bounds(first, epr, sv, bits, (end_index - 1) as nat);
    }
    let first_bytes = bytes_in_range(first_element + first_index * stride, elements_per_range, rest.as_slice(), bits_per_element, selected);
    if end_index - first_index == 1 {
        return first_bytes;
    }
    let last_bytes = bytes_in_range(first_element + (end_index - 1) * stride, elements_per_range, rest.as_slice(), bits_per_element, selected);
    let middle_count = end_index - first_index - 2;
    if middle_count == 0 {
        return first_bytes + last_bytes;
    }
    let middle_strides = with_outer_count(strides, middle_count);
    let ghost mv = strides_view(middle_strides@);
    proof {
        assert(mv =~= sv.update(0, (middle_count as nat, s)));
        lemma_middle_block(first, epr, sv, bits, (first_index + 1) as nat, middle_count as nat);
        lemma_child_bounds(first, epr, sv, bits, (first_index + 1) as nat);
        assert forall|d: int| 0 <= d < middle_strides@.len() implies (#[trigger] middle_strides@[d])@.0 >= 1 by {
            assert(mv[d] == middle_strides@[d]@);
        }
    }
    let middle_first = first_element + (first_index + 1) * stride;
    let middle_bytes = access_byte_count(middle_first, elements_per_range, &middle_strides, bits_per_element);
    first_bytes + middle_bytes + last_bytes
}

/// Stride `d` repeats more than once.
pub open spec fn stride_active(strides: Seq<(nat, nat)>, d: int) -> bool {
    strides[d].0 > 1
}

/// The greatest common divisor of the byte strides of the repeating strides
/// among the first `k`.
pub open spec fn aligned_stride_gcd(strides: Seq<(nat, nat)>, bytes_per_element: nat, k: int) -> nat
    decreases k,
{
    if k <= 0 {
        0
    } else if stride_active(strides, k - 1) {
        gcd_spec(aligned_stride_gcd(strides, bytes_per_element, k - 1), strides[k - 1].1 * bytes_per_element)
    } else {
        aligned_stride_gcd(strides, bytes_per_element, k - 1)
    }
}

/// The smallest odd element stride among the first `k` repeating strides.
pub open spec fn smallest_odd_stride(strides: Seq<(nat, nat)>, k: int) -> Option<nat>
    decreases k,
{
    if k <= 0 {
        None
    } else {
        let before = smallest_odd_stride(strides, k - 1);
        let s = strides[k - 1].1;
        if stride_active(strides, k - 1) && s % 2 == 1 {
            match before {
                Some(b) => if s < b { Some(s) } else { Some(b) },
                None => Some(s),
            }
        } else {
            before
        }
    }
}

/// The greatest common divisor of the halves of the even element strides
/// among the first `k` repeating strides.
pub open spec fn even_half_gcd(strides: Seq<(nat, nat)>, k: int) -> nat
    decreases k,
{
    if k <= 0 {
        0
    } else if stride_active(strides, k - 1) && strides[k - 1].1 % 2 == 0 {
        gcd_spec(even_half_gcd(strides, k - 1), strides[k - 1].1 / 2)
    } else {
        even_half_gcd(strides, k - 1)
    }
}

/// Fold into `acc` half the distance from `odd` to each other odd element
/// stride among the first `k` repeating strides.
pub open spec fn odd_half_difference_gcd(strides: Seq<(nat, nat)>, odd: nat, acc: nat, k: int) -> nat
    decreases k,
{
    if k <= 0 {
        acc
    } else {
        let before = odd_half_difference_gcd(strides, odd, acc, k - 1);
        let s = strides[k - 1].1;
        if stride_active(strides, k - 1) && s % 2 == 1 && s != odd {
            let diff: nat = if s > odd { (s - odd) as nat } else { (odd - s) as nat };
            gcd_spec(before, diff / 2)
        } else {
            before
        }
    }
}

/// The byte stride shared by the starts of the ranges of a packed layout
/// with one parity of first element.
pub open spec fn packed_stride(strides: Seq<(nat, nat)>) -> nat {
    let n = strides.len() as int;
    match smallest_odd_stride(strides, n) {
        None => even_half_gcd(strides, n),
        Some(odd) => odd_half_difference_gcd(strides, odd, gcd_spec(even_half_gcd(strides, n), odd), n),
    }
}

/// The progression of starts of a packed layout from the range starting at
/// `first_element`.
pub open spec fn packed_progression(l: LayoutModel, base: nat, first_element: nat) -> ByteStartProgression {
    let stride = packed_stride(l.strides);
    let first = base + first_element / 2;
    let upper = base + (l.first_element + span(l.strides)) / 2;
    ByteStartProgression {
        first_start: first as i128,
        last_start: if stride == 0 { first as i128 } else { (first + ((upper - first) / (stride as int)) * stride) as i128 },
        stride: stride as i128,
        num_bytes_per_range: ((l.elements_per_range + first_element % 2 + 1) / 2) as i128,
    }
}

/// The progressions that hold the start bytes of every range of a layout of
/// a tensor at `base`.
pub open spec fn layout_progressions(l: LayoutModel, base: nat) -> Seq<ByteStartProgression> {
    if l.bits % 8 == 0 {
        let bpe = l.bits / 8;
        seq![
            ByteStartProgression {
                first_start: (base + l.first_element * bpe) as i128,
                last_start: (base + (l.first_element + span(l.strides)) * bpe) as i128,
                stride: aligned_stride_gcd(l.strides, bpe, l.strides.len() as int) as i128,
                num_bytes_per_range: (l.elements_per_range * bpe) as i128,
            },
        ]
    } else {
        match smallest_odd_stride(l.strides, l.strides.len() as int) {
            None => seq![packed_progression(l, base, l.first_element)],
            Some(odd) => seq![packed_progression(l, base, l.first_element), packed_progression(l, base, l.first_element + odd)],
        }
    }
}

/// A repeating stride is at most the span of the block.
pub(crate) proof fn lemma_active_stride_in_span(strides: Seq<(nat, nat)>, d: int)
    requires
        forall|e: int| 0 <= e < strides.len() ==> (#[trigger] strides[e]).0 >= 1,
        0 <= d < strides.len(),
        strides[d].0 > 1,
    ensures
        strides[d].1 <= span(strides),
    decreases d,
{
    let c = strides[0].0;
    let s = strides[0].1;
    assert(((c - 1) as nat) * s >= 0) by (nonlinear_arith);
    if d == 0 {
        assert(((c - 1) as nat) * s >= s) by (nonlinear_arith) requires c >= 2;
    } else {
        let rest = strides.drop_first();
        assert forall|e: int| 0 <= e < rest.len() implies (#[trigger] rest[e]).0 >= 1 by {
            assert(rest[e] == strides[e + 1]);
        }
        assert(rest[d - 1] == strides[d]);
        lemma_active_stride_in_span(rest, d - 1);
    }
}

/// With no repeating stride among the first `k`, those strides add nothing
/// to the span.
proof fn lemma_inactive_span(strides: Seq<(nat, nat)>)
    requires
        forall|e: int| 0 <= e < strides.len() ==> (#[trigger] strides[e]).0 == 1,
    ensures
        span(strides) == 0,
    decreases strides.len(),
{
    if strides.len() > 0 {
        let rest = strides.drop_first();
        assert forall|e: int| 0 <= e < rest.len() implies (#[trigger] rest[e]).0 == 1 by {
            assert(rest[e] == strides[e + 1]);
        }
        lemma_inactive_span(rest);
        assert(((strides[0].0 - 1) as nat) * strides[0].1 == 0) by (nonlinear_arith) requires strides[0].0 == 1;
    }
}

/// A fold of greatest common divisors is zero only when it folded nothing.
proof fn lemma_aligned_gcd_zero(strides: Seq<(nat, nat)>, bpe: nat, k: int)
    requires
        bpe >= 1,
        0 <= k <= strides.len(),
        forall|e: int| 0 <= e < strides.len() ==> (#[trigger] strides[e]).1 >= 1,
        aligned_stride_gcd(strides, bpe, k) == 0,
    ensures
        forall|e: int| 0 <= e < k ==> !stride_active(strides, e),
    decreases k,
{
    if k > 0 {
        if stride_active(strides, k - 1) {
            assert(strides[k - 1].1 * bpe >= 1) by (nonlinear_arith) requires strides[k - 1].1 >= 1, bpe >= 1;
            lemma_gcd_positive(aligned_stride_gcd(strides, bpe, k - 1), strides[k - 1].1 * bpe);
        }
        lemma_aligned_gcd_zero(strides, bpe, k - 1);
    }
}

proof fn lemma_stride_positive(l: LayoutModel)
    requires
        layout_well_formed(l),
    ensures
        forall|e: int| 0 <= e < l.strides.len() ==> (#[trigger] l.strides[e]).1 >= 1,
{
    assert forall|e: int| 0 <= e < l.strides.len() implies (#[trigger] l.strides[e]).1 >= 1 by {
        assert(span(l.strides.skip(e + 1)) + l.elements_per_range < l.strides[e].1);
    }
}

/// The starts of the ranges of the view and of the other view never come
/// close enough to share a byte.
pub open spec fn strides_disjoint(a: LayoutModel, a_base: nat, b: LayoutModel, b_base: nat) -> bool {
    forall|i: int, j: int|
        0 <= i < layout_progressions(a, a_base).len() && 0 <= j < layout_progressions(b, b_base).len()
            ==> !progressions_overlap(#[trigger] layout_progressions(a, a_base)[i], #[trigger] layout_progressions(b, b_base)[j])
}

/// Every progression of both layouts is moderate, so that comparing two of
/// them never leaves `i128`.
pub open spec fn progressions_moderate(a: LayoutModel, a_base: nat, b: LayoutModel, b_base: nat) -> bool {
    &&& forall|i: int| 0 <= i < layout_progressions(a, a_base).len() ==> progression_moderate(
        #[trigger] layout_progressions(a, a_base)[i],
    )
    &&& forall|j: int| 0 <= j < layout_progressions(b, b_base).len() ==> progression_moderate(
        #[trigger] layout_progressions(b, b_base)[j],
    )
}

/// No byte range of the first layout, at `a_base`, shares an address with a
/// byte range of the second, at `b_base`.
pub open spec fn raw_ranges_apart(a: LayoutModel, a_base: int, b: LayoutModel, b_base: int) -> bool {
    forall|i: nat, j: nat|
        i < num_ranges(a.strides) && j < num_ranges(b.strides) ==> !spans_overlap(
            a_base + #[trigger] raw_byte_range(a, i).0,
            a_base + raw_byte_range(a, i).1,
            b_base + #[trigger] raw_byte_range(b, j).0,
            b_base + raw_byte_range(b, j).1,
        )
}

/// Every byte range of the first layout, at `a_base`, that shares an
/// address with a byte range of the second, at `b_base`, does so from `m`
/// on: the later of the two starts is at least `m`.
pub open spec fn overlaps_start_from(a: LayoutModel, a_base: int, b: LayoutModel, b_base: int, m: int) -> bool {
    forall|i: nat, j: nat|
        i < num_ranges(a.strides) && j < num_ranges(b.strides) && spans_overlap(
            a_base + #[trigger] raw_byte_range(a, i).0,
            a_base + raw_byte_range(a, i).1,
            b_base + #[trigger] raw_byte_range(b, j).0,
            b_base + raw_byte_range(b, j).1,
        ) ==> a_base + raw_byte_range(a, i).0 >= m || b_base + raw_byte_range(b, j).0 >= m
}

/// A range of a well-formed layout ends no later than any later range ends.
pub(crate) proof fn lemma_raw_range_before(l: LayoutModel, i: nat, j: nat)
    requires
        layout_well_formed(l),
        i <= j < num_ranges(l.strides),
    ensures
        raw_byte_range(l, i).1 <= raw_byte_range(l, j).1,
    decreases j - i,
{
    lemma_raw_byte_ranges_ordered(l, i);
    if i < j {
        lemma_raw_byte_ranges_ordered(l, i + 1);
        lemma_raw_range_before(l, i + 1, j);
    }
}

/// A range of a well-formed layout starts no earlier than any earlier range
/// starts.
proof fn lemma_raw_range_after(l: LayoutModel, i: nat, j: nat)
    requires
        layout_well_formed(l),
        i <= j < num_ranges(l.strides),
    ensures
        raw_byte_range(l, i).0 <= raw_byte_range(l, j).0,
    decreases j - i,
{
    lemma_raw_byte_ranges_ordered(l, i);
    if i < j {
        lemma_raw_byte_ranges_ordered(l, i + 1);
        lemma_raw_range_after(l, i + 1, j);
    }
}

/// The two views lie in the same tensor of whole-byte elements, and their
/// regions are apart in some dimension.
pub open spec fn coordinates_disjoint(a: ViewModel, b: ViewModel) -> bool {
    &&& a.tensor.addr == b.tensor.addr
    &&& a.tensor.dtype == b.tensor.dtype
    &&& a.tensor.dims == b.tensor.dims
    &&& bits_of(a.tensor.dtype) % 8 == 0
    &&& exists|d: int|
        0 <= d < a.dims.len() && d < b.dims.len() && (a.offsets[d] + a.dims[d] <= b.offsets[d] || b.offsets[d] + b.dims[d]
            <= #[trigger] a.offsets[d])
}

/// The ranges `a` and `b` share an address.
pub open spec fn spans_overlap(a_start: int, a_end: int, b_start: int, b_end: int) -> bool {
    a_start < b_end && b_start < a_end
}

impl Clone for TensorViewLayout {
    fn clone(&self) -> (copy: Self)
        ensures
            copy@ == self@,
    {
        proof {
            use_type_invariant(self);
        }
        let mut strides: Vec<TensorViewStride> = Vec::new();
        let mut i: usize = 0;
        while i < self.strides.len()
            invariant
                i <= self.strides@.len(),
                strides@ == self.strides@.take(i as int),
            decreases self.strides@.len() - i,
        {
            strides.push(self.strides[i]);
            i = i + 1;
            assert(strides@ =~= self.strides@.take(i as int));
        }
        assert(self.strides@.take(self.strides@.len() as int) =~= self.strides@);
        TensorViewLayout {
            first_element: self.first_element,
            elements_per_range: self.elements_per_range,
            strides,
            bits_per_element: self.bits_per_element,
            num_access_bytes: self.num_access_bytes,
        }
    }
}

impl TensorViewLayout {
    #[verifier::type_invariant]
    spec fn layout_invariant(self) -> bool {
        &&& layout_well_formed(self@)
        &&& self.num_access_bytes == layout_access_bytes(self@)
    }

    /// The first element of the first range.
    pub fn first_element(&self) -> (first: usize)
        ensures
            first == self@.first_element,
    {
        self.first_element
    }

    /// The number of contiguous elements in each range.
    pub fn elements_per_range(&self) -> (n: usize)
        ensures
            n == self@.elements_per_range,
    {
        self.elements_per_range
    }

    /// How the ranges repeat, outermost first.
    pub fn strides(&self) -> (strides: &[TensorViewStride])
        ensures
            strides_view(strides@) == self@.strides,
    {
        self.strides.as_slice()
    }

    /// The size of one element in bits.
    pub fn bits_per_element(&self) -> (bits: usize)
        ensures
            bits == self@.bits,
    {
        self.bits_per_element
    }

    /// The number of bytes that the layout touches.
    pub fn num_access_bytes(&self) -> (n: usize)
        ensures
            n == layout_access_bytes(self@),
    {
        proof {
            use_type_invariant(self);
        }
        self.num_access_bytes
    }

    /// The number of element ranges of the layout.
    pub fn num_ranges(&self) -> (n: usize)
        ensures
            n == num_ranges(self@.strides),
    {
        proof {
            use_type_invariant(self);
            self.lemma_counts();
            let l = self@;
            lemma_num_ranges_positive(l.strides);
            assert(num_ranges(l.strides) <= num_ranges(l.strides) * l.elements_per_range) by (nonlinear_arith)
                requires l.elements_per_range >= 1;
        }
        count_ranges(&self.strides)
    }

    proof fn lemma_counts(&self)
        requires
            layout_well_formed(self@),
        ensures
            forall|d: int| 0 <= d < self.strides@.len() ==> (#[trigger] self.strides@[d])@.0 >= 1,
    {
        assert forall|d: int| 0 <= d < self.strides@.len() implies (#[trigger] self.strides@[d])@.0 >= 1 by {
            assert(self@.strides[d] == self.strides@[d]@);
        }
    }

    /// The elements of range `index`, counting the ranges in row-major order
    /// of their repeats.
    pub fn element_range(&self, index: usize) -> (range: Range<usize>)
        requires
            index < num_ranges(self@.strides),
        ensures
            range.start == range_start(self@.first_element, self@.strides, index as nat),
            range.end == range.start + self@.elements_per_range,
    {
        proof {
            use_type_invariant(self);
            self.lemma_counts();
            let l = self@;
            lemma_num_ranges_positive(l.strides);
            assert(num_ranges(l.strides) <= num_ranges(l.strides) * l.elements_per_range) by (nonlinear_arith)
                requires l.elements_per_range >= 1;
            lemma_range_start_bounds(l.first_element, l.strides, index as nat);
        }
        let counts = inner_range_counts(self.strides.as_slice());
        let start = range_start_at(self.first_element, self.strides.as_slice(), counts.as_slice(), index);
        start..start + self.elements_per_range
    }

    /// The byte ranges that the layout touches, relative to its tensor,
    /// sorted, with touching ranges merged.
    pub fn byte_ranges(&self) -> (ranges: ByteRanges)
        ensures
            ranges@.layout == self@,
            ranges@.next_range == 0,
    {
        proof {
            use_type_invariant(self);
            self.lemma_counts();
            let l = self@;
            lemma_num_ranges_positive(l.strides);
            assert(num_ranges(l.strides) <= num_ranges(l.strides) * l.elements_per_range) by (nonlinear_arith)
                requires l.elements_per_range >= 1;
        }
        let layout = self.clone();
        let inner_counts = inner_range_counts(self.strides.as_slice());
        let num_ranges = count_ranges(&self.strides);
        ByteRanges { layout, inner_counts, num_ranges, next_range: 0 }
    }

    /// The bytes that the layout touches inside a byte range relative to its
    /// tensor.
    pub fn num_access_bytes_in(&self, range: Range<usize>) -> (n: usize)
        requires
            range.start <= range.end,
        ensures
            n == block_bytes_in(self@.first_element, self@.elements_per_range, self@.strides, self@.bits, range.start as nat, range.end as nat),
    {
        proof {
            use_type_invariant(self);
        }
        bytes_in_range(self.first_element, self.elements_per_range, self.strides.as_slice(), self.bits_per_element, &range)
    }

    /// The first element of the last range.
    fn last_range_element(&self) -> (element: usize)
        ensures
            element == self@.first_element + span(self@.strides),
    {
        proof {
            use_type_invariant(self);
            self.lemma_counts();
        }
        last_range_start(self.first_element, self.strides.as_slice())
    }

    /// The smallest byte range, relative to the tensor, that holds every
    /// byte the layout touches.
    pub fn byte_bounds(&self) -> (bounds: Range<usize>)
        ensures
            bounds.start == block_bounds(self@.first_element, self@.elements_per_range, self@.strides, self@.bits).0,
            bounds.end == block_bounds(self@.first_element, self@.elements_per_range, self@.strides, self@.bits).1,
    {
        proof {
            use_type_invariant(self);
        }
        layout_bounds(self.first_element, self.elements_per_range, self.strides.as_slice(), self.bits_per_element)
    }

    /// The progressions that hold the start byte of every range of the
    /// layout of a tensor at `base_address`.
    pub fn byte_start_progressions(&self, base_address: u64) -> (progressions: Vec<ByteStartProgression>)
        ensures
            progressions@ == layout_progressions(self@, base_address as nat),
            forall|i: int| 0 <= i < progressions@.len() ==> progression_valid(#[trigger] progressions@[i]),
    {
        proof {
            use_type_invariant(self);
        }
        if self.bits_per_element % 8 == 0 {
            let progression = self.byte_aligned_start_progression(base_address);
            let mut progressions: Vec<ByteStartProgression> = Vec::new();
            progressions.push(progression);
            proof {
                assert(progressions@ =~= layout_progressions(self@, base_address as nat));
            }
            return progressions;
        }
        self.packed_start_progressions(base_address)
    }

    /// The progression of start bytes of a layout of whole-byte elements.
    fn byte_aligned_start_progression(&self, base_address: u64) -> (progression: ByteStartProgression)
        requires
            self@.bits % 8 == 0,
        ensures
            progression == layout_progressions(self@, base_address as nat)[0],
            progression_valid(progression),
    {
        proof {
            use_type_invariant(self);
            self.lemma_counts();
            lemma_stride_positive(self@);
        }
        let ghost l = self@;
        let bytes_per_element = self.bits_per_element / 8;
        let ghost bpe = bytes_per_element as nat;
        let last = self.last_range_element();
        proof {
            let x = l.first_element + span(l.strides) + l.elements_per_range;
            assert(x * l.bits == 8 * (x * bpe)) by (nonlinear_arith) requires l.bits == 8 * bpe;
            assert((8 * (x * bpe) + 7) / 8 == x * bpe) by (nonlinear_arith);
            assert(x * bpe <= usize::MAX);
            assert(l.first_element * bpe <= x * bpe && (l.first_element + span(l.strides)) * bpe <= x * bpe
                && l.elements_per_range * bpe <= x * bpe && span(l.strides) * bpe <= x * bpe) by (nonlinear_arith)
                requires x == l.first_element + span(l.strides) + l.elements_per_range;
            assert(bpe >= 1);
            assert(l.first_element * bpe <= (l.first_element + span(l.strides)) * bpe) by (nonlinear_arith);
            assert(l.elements_per_range * bpe >= 1) by (nonlinear_arith) requires l.elements_per_range >= 1, bpe >= 1;
        }
        let mut stride: usize = 0;
        let mut d: usize = 0;
        while d < self.strides.len()
            invariant
                d <= self.strides@.len(),
                l == self@,
                layout_well_formed(l),
                bpe >= 1,
                bytes_per_element == bpe,
                span(l.strides) * bpe <= usize::MAX,
                forall|e: int| 0 <= e < self.strides@.len() ==> (#[trigger] self.strides@[e])@.0 >= 1,
                stride == aligned_stride_gcd(l.strides, bpe, d as int),
            decreases self.strides@.len() - d,
        {
            assert(l.strides[d as int] == self.strides@[d as int]@);
            if self.strides[d].count > 1 {
                proof {
                    lemma_active_stride_in_span(l.strides, d as int);
                    assert(self.strides@[d as int]@.1 * bpe <= span(l.strides) * bpe) by (nonlinear_arith)
                        requires self.strides@[d as int]@.1 <= span(l.strides);
                }
                stride = gcd(stride, self.strides[d].stride_elements * bytes_per_element);
            }
            d = d + 1;
        }
        proof {
            if stride == 0 {
                lemma_aligned_gcd_zero(l.strides, bpe, l.strides.len() as int);
                assert forall|e: int| 0 <= e < l.strides.len() implies (#[trigger] l.strides[e]).0 == 1 by {
                    assert(!stride_active(l.strides, e));
                }
                lemma_inactive_span(l.strides);
            }
        }
        let base = base_address as i128;
        ByteStartProgression {
            first_start: base + (self.first_element * bytes_per_element) as i128,
            last_start: base + (last * bytes_per_element) as i128,
            stride: stride as i128,
            num_bytes_per_range: (self.elements_per_range * bytes_per_element) as i128,
        }
    }

    /// The progressions of start bytes of a layout of 4-bit elements: one
    /// for ranges that start in the same half of a byte as the first range,
    /// and, where an odd stride moves ranges to the other half, one for
    /// those.
    fn packed_start_progressions(&self, base_address: u64) -> (progressions: Vec<ByteStartProgression>)
        requires
            self@.bits % 8 != 0,
        ensures
            progressions@ == layout_progressions(self@, base_address as nat),
            forall|i: int| 0 <= i < progressions@.len() ==> progression_valid(#[trigger] progressions@[i]),
    {
        proof {
            use_type_invariant(self);
            self.lemma_counts();
            lemma_stride_positive(self@);
        }
        let ghost l = self@;
        let n = self.strides.len();
        // A 4-bit range can start in either half of a byte. The smallest odd
        // element stride gives the first reachable start with the opposite
        // parity. Within one parity, an even stride advances by half that
        // stride in bytes, two steps along an odd stride advance by the full
        // stride, and exchanging steps between two odd strides advances by
        // half their difference.
        let mut smallest_odd: Option<usize> = None;
        let mut even_gcd: usize = 0;
        let mut d: usize = 0;
        while d < n
            invariant
                n == self.strides@.len(),
                d <= n,
                l == self@,
                match smallest_odd {
                    Some(v) => smallest_odd_stride(l.strides, d as int) == Some(v as nat),
                    None => smallest_odd_stride(l.strides, d as int) is None,
                },
                smallest_odd matches Some(v) ==> v <= span(l.strides) && v % 2 == 1,
                even_gcd == even_half_gcd(l.strides, d as int),
                forall|e: int| 0 <= e < self.strides@.len() ==> (#[trigger] self.strides@[e])@.0 >= 1,
            decreases n - d,
        {
            assert(l.strides[d as int] == self.strides@[d as int]@);
            let count = self.strides[d].count;
            let stride = self.strides[d].stride_elements;
            if count > 1 {
                proof {
                    lemma_active_stride_in_span(l.strides, d as int);
                }
                if stride % 2 == 1 {
                    smallest_odd = match smallest_odd {
                        Some(b) => if stride < b { Some(stride) } else { Some(b) },
                        None => Some(stride),
                    };
                } else {
                    even_gcd = gcd(even_gcd, stride / 2);
                }
            }
            d = d + 1;
        }
        let mut stride = even_gcd;
        match smallest_odd {
            Some(odd) => {
                stride = gcd(stride, odd);
                let mut d: usize = 0;
                while d < n
                    invariant
                        n == self.strides@.len(),
                        d <= n,
                        l == self@,
                        stride == odd_half_difference_gcd(l.strides, odd as nat, gcd_spec(even_gcd as nat, odd as nat), d as int),
                    decreases n - d,
                {
                    assert(l.strides[d as int] == self.strides@[d as int]@);
                    let value = self.strides[d].stride_elements;
                    if self.strides[d].count > 1 && value % 2 == 1 && value != odd {
                        let difference = if value > odd { value - odd } else { odd - value };
                        stride = gcd(stride, difference / 2);
                    }
                    d = d + 1;
                }
            },
            None => {},
        }
        assert(stride == packed_stride(l.strides));
        let last_element = self.last_range_element();
        let mut progressions: Vec<ByteStartProgression> = Vec::new();
        progressions.push(self.packed_progression(self.first_element, stride, last_element, base_address));
        match smallest_odd {
            Some(odd) => {
                progressions.push(self.packed_progression(self.first_element + odd, stride, last_element, base_address));
                proof {
                    assert(progressions@ =~= layout_progressions(l, base_address as nat));
                }
            },
            None => {
                proof {
                    assert(progressions@ =~= layout_progressions(l, base_address as nat));
                }
            },
        }
        progressions
    }

    /// The progression of start bytes of the packed ranges from the one that
    /// starts at `first_element`.
    fn packed_progression(&self, first_element: usize, stride: usize, last_element: usize, base_address: u64) -> (progression: ByteStartProgression)
        requires
            stride == packed_stride(self@.strides),
            last_element == self@.first_element + span(self@.strides),
            first_element <= last_element,
        ensures
            progression == packed_progression(self@, base_address as nat, first_element as nat),
            progression_valid(progression),
    {
        proof {
            use_type_invariant(self);
        }
        let parity = first_element % 2;
        proof {
            assert(parity <= first_element);
        }
        let range_elements = self.elements_per_range + parity;
        let base = base_address as i128;
        let first = base + (first_element / 2) as i128;
        let upper = base + (last_element / 2) as i128;
        proof {
            vstd::arithmetic::div_mod::lemma_div_is_ordered(first_element as int, last_element as int, 2);
        }
        let last_start = if stride == 0 {
            first
        } else {
            let distance = (upper - first) as u128;
            let steps = distance / (stride as u128);
            proof {
                vstd::arithmetic::div_mod::lemma_fundamental_div_mod(distance as int, stride as int);
                assert(steps * stride <= distance) by (nonlinear_arith)
                    requires distance as int == stride * steps + (distance as int) % (stride as int), (distance as int) % (stride as int) >= 0;
            }
            first + (steps * stride as u128) as i128
        };
        let half = range_elements / 2 + range_elements % 2;
        proof {
            vstd::arithmetic::div_mod::lemma_fundamental_div_mod(range_elements as int, 2);
            vstd::arithmetic::div_mod::lemma_fundamental_div_mod_converse(
                range_elements + 1,
                2,
                half as int,
                ((range_elements + 1) % 2) as int,
            );
        }
        ByteStartProgression {
            first_start: first,
            last_start,
            stride: stride as i128,
            num_bytes_per_range: half as i128,
        }
    }

    /// Compute the layout of a valid view.
    fn new(tensor: &Tensor, shape: &Shape, offsets: &Vec<usize>) -> (layout: Self)
        requires
            view_valid(ViewModel { tensor: tensor@, dims: shape@, offsets: offsets@ }),
        ensures
            layout@ == layout_of(ViewModel { tensor: tensor@, dims: shape@, offsets: offsets@ }),
    {
        let ghost v = ViewModel { tensor: tensor@, dims: shape@, offsets: offsets@ };
        let tensor_dims = tensor.shape().dims();
        let view_dims = shape.dims();
        let rank = view_dims.len();

        let mut inner_start: usize = if rank > 0 { rank - 1 } else { 0 };
        while inner_start > 0 && offsets[inner_start] == 0
            && view_dims[inner_start] == tensor_dims[inner_start]
            invariant
                inner_start <= rank,
                rank > 0 ==> inner_start < rank,
                rank == view_dims@.len(),
                view_valid(v),
                v.dims == view_dims@,
                v.offsets == offsets@,
                v.tensor.dims == tensor_dims@,
                contiguous_start(v) == if rank == 0 {
                    0
                } else {
                    contiguous_from(tensor_dims@, view_dims@, offsets@, inner_start as int)
                },
            decreases inner_start,
        {
            inner_start = inner_start - 1;
        }
        assert(contiguous_start(v) == inner_start as int);

        let mut strides: Vec<TensorViewStride> = Vec::new();
        let mut d: usize = 0;
        while d < inner_start
            invariant
                inner_start < rank || inner_start == 0,
                rank == view_dims@.len(),
                view_valid(v),
                v.dims == view_dims@,
                v.tensor.dims == tensor_dims@,
                d <= inner_start,
                inner_start == contiguous_start(v),
                strides@.len() == d,
                strides_view(strides@) =~= layout_of(v).strides.take(d as int),
                forall|e: int| 0 <= e < d ==> strides@[e]@.0 >= 1,
            decreases inner_start - d,
        {
            let stride_elements = crate::util::suffix_product(tensor_dims, d + 1);
            let stride = TensorViewStride { count: view_dims[d], stride_elements };
            assert(stride@ == layout_of(v).strides[d as int]);
            strides.push(stride);
            d = d + 1;
            assert(strides_view(strides@) =~= layout_of(v).strides.take(d as int));
        }
        assert(layout_of(v).strides.take(inner_start as int) =~= layout_of(v).strides);

        let mut first_element: usize = 0;
        let mut k: usize = 0;
        proof {
            assert forall|e: int| 0 <= e < tensor_dims@.len() implies offsets@[e] < tensor_dims@[e] by {
                assert(offsets@[e] + view_dims@[e] <= tensor_dims@[e]);
                assert(view_dims@[e] > 0);
            }
        }
        while k < rank
            invariant
                rank == view_dims@.len(),
                view_valid(v),
                v.dims == view_dims@,
                v.tensor.dims == tensor_dims@,
                v.offsets == offsets@,
                k <= rank,
                first_element == flat_index(tensor_dims@, offsets@, k as int),
                forall|e: int| 0 <= e < tensor_dims@.len() ==> offsets@[e] < tensor_dims@[e],
            decreases rank - k,
        {
            proof {
                lemma_flat_bound(tensor_dims@, offsets@, k as int + 1);
                lemma_product_prefix_le(tensor_dims@, k as int + 1);
            }
            first_element = first_element * tensor_dims[k] + offsets[k];
            k = k + 1;
        }

        let elements_per_range = crate::util::suffix_product(view_dims, inner_start);
        let bits_per_element = tensor.dtype().num_bits();
        proof {
            lemma_layout_size(v);
            crate::util::lemma_product_suffix_le(view_dims@, inner_start as int);
        }
        let num_access_bytes = access_byte_count(first_element, elements_per_range, &strides, bits_per_element);
        proof {
            lemma_layout_well_formed(v);
        }
        TensorViewLayout {
            first_element,
            elements_per_range,
            strides,
            bits_per_element,
            num_access_bytes,
        }
    }
}


/// The outcome of creating a view with these extents and offsets.
pub open spec fn view_result_matches(result: Result<TensorView, ModelError>, t: TensorModel, dims: Seq<usize>, offsets: Seq<usize>) -> bool {
    let model = ViewModel { tensor: t, dims, offsets };
    match result {
        Ok(view) => view_valid(model) && view@ == model,
        Err(e) => !view_valid(model) && e == view_error(t, dims, offsets),
    }
}

/// Apply one output partition to the extents and offsets of a view whose
/// rank is `rank_pad` less than the output's.
pub open spec fn partition_step(dims: Seq<usize>, offsets: Seq<usize>, rank_pad: int, p: DimPartition) -> Result<(Seq<usize>, Seq<usize>), ModelError> {
    if p.dim < rank_pad {
        Ok((dims, offsets))
    } else {
        let d = p.dim - rank_pad;
        if d < dims.len() && dims[d] > 1 {
            if p.offset + p.num_elements > usize::MAX {
                Err(ModelError::PartitionExtentOverflow)
            } else if p.offset + p.num_elements > dims[d] {
                Err(ModelError::PartitionOutOfRange)
            } else if offsets[d] + p.offset > usize::MAX {
                Err(ModelError::PartitionOffsetOverflow)
            } else {
                Ok((dims.update(d, p.num_elements), offsets.update(d, (offsets[d] + p.offset) as usize)))
            }
        } else {
            Ok((dims, offsets))
        }
    }
}

/// Apply output partitions in order.
pub open spec fn apply_partitions(dims: Seq<usize>, offsets: Seq<usize>, rank_pad: int, parts: Seq<DimPartition>) -> Result<(Seq<usize>, Seq<usize>), ModelError>
    decreases parts.len(),
{
    if parts.len() == 0 {
        Ok((dims, offsets))
    } else {
        match apply_partitions(dims, offsets, rank_pad, parts.drop_last()) {
            Err(e) => Err(e),
            Ok((d, o)) => partition_step(d, o, rank_pad, parts.last()),
        }
    }
}

/// The bytes that a view touches inside the physical address range
/// `lo..hi`.
/// The bytes a view touches, from its first to the end of its last.
pub open spec fn view_byte_range(v: ViewModel) -> (nat, nat) {
    let l = layout_of(v);
    block_bounds(l.first_element, l.elements_per_range, l.strides, l.bits)
}

pub open spec fn view_bytes_in(v: ViewModel, lo: nat, hi: nat) -> nat {
    let base = v.tensor.addr as nat;
    let start = if lo > base { lo } else { base };
    let end = if hi < base + tensor_bytes(v.tensor) { hi } else { base + tensor_bytes(v.tensor) };
    let l = layout_of(v);
    if start >= end {
        0
    } else {
        block_bytes_in(l.first_element, l.elements_per_range, l.strides, l.bits, (start - base) as nat, (end - base) as nat)
    }
}

/// Counting the bytes of a layout inside a range that holds its bounds
/// gives all the bytes that the layout touches.
pub proof fn lemma_bytes_in_covering_range(l: LayoutModel, lo: nat, hi: nat)
    requires
        layout_well_formed(l),
        lo <= block_bounds(l.first_element, l.elements_per_range, l.strides, l.bits).0,
        block_bounds(l.first_element, l.elements_per_range, l.strides, l.bits).1 <= hi,
    ensures
        block_bytes_in(l.first_element, l.elements_per_range, l.strides, l.bits, lo, hi) == layout_access_bytes(l),
{
    lemma_block_bytes_in_inside(l.first_element, l.elements_per_range, l.strides, l.bits, lo, hi);
}

/// A range that misses the bounds of a layout holds none of its bytes.
pub proof fn lemma_bytes_in_disjoint_range(l: LayoutModel, lo: nat, hi: nat)
    requires
        layout_well_formed(l),
        block_bounds(l.first_element, l.elements_per_range, l.strides, l.bits).1 <= lo
            || hi <= block_bounds(l.first_element, l.elements_per_range, l.strides, l.bits).0,
    ensures
        block_bytes_in(l.first_element, l.elements_per_range, l.strides, l.bits, lo, hi) == 0,
{
    lemma_block_bytes_in_outside(l.first_element, l.elements_per_range, l.strides, l.bits, lo, hi);
}

/// The bytes of a layout inside a range are at most all its bytes.
pub proof fn lemma_bytes_in_at_most_all(l: LayoutModel, lo: nat, hi: nat)
    ensures
        block_bytes_in(l.first_element, l.elements_per_range, l.strides, l.bits, lo, hi) <= layout_access_bytes(l),
{
    lemma_block_bytes_in_le(l.first_element, l.elements_per_range, l.strides, l.bits, lo, hi);
}

/// A validated view into a tensor.
#[derive(Debug)]
pub struct TensorView {
    tensor: Tensor,
    shape: Shape,
    offsets: Vec<usize>,
    num_packed_bytes: usize,
    layout: TensorViewLayout,
}

impl View for TensorView {
    type V = ViewModel;

    closed spec fn view(&self) -> ViewModel {
        ViewModel { tensor: self.tensor@, dims: self.shape@, offsets: self.offsets@ }
    }
}

impl Clone for TensorView {
    fn clone(&self) -> (copy: Self)
        ensures
            copy@ == self@,
    {
        proof {
            use_type_invariant(self);
        }
        TensorView {
            tensor: self.tensor.clone(),
            shape: self.shape.clone(),
            offsets: copy_slice(self.offsets.as_slice()),
            num_packed_bytes: self.num_packed_bytes,
            layout: self.layout.clone(),
        }
    }
}

impl TensorView {
    #[verifier::type_invariant]
    spec fn view_invariant(self) -> bool {
        &&& view_valid(self@)
        &&& self.num_packed_bytes == packed_bytes(seq_product(self@.dims), bits_of(self@.tensor.dtype))
        &&& self.layout@ == layout_of(self@)
    }

    /// The model of a valid view.
    pub fn check_valid(&self) -> (ok: bool)
        ensures
            ok,
            view_valid(self@),
    {
        proof {
            use_type_invariant(self);
        }
        true
    }

    /// Create a view of `shape` starting at `offsets` into `tensor`.
    pub fn new(tensor: Tensor, dims: &[usize], offsets: &[usize]) -> (result: Result<Self, ModelError>)
        ensures
            view_result_matches(result, tensor@, dims@, offsets@),
    {
        let shape = match Shape::new(dims) {
            Ok(s) => s,
            Err(e) => return Err(e),
        };
        let tensor_dims = tensor.shape().dims();
        let view_dims = shape.dims();
        if view_dims.len() != tensor_dims.len() {
            return Err(ModelError::ViewRankMismatch);
        }
        if offsets.len() != tensor_dims.len() {
            return Err(ModelError::ViewOffsetRankMismatch);
        }
        let mut d: usize = 0;
        while d < view_dims.len()
            invariant
                view_dims@.len() == tensor_dims@.len(),
                offsets@.len() == tensor_dims@.len(),
                dims_valid(dims@),
                view_dims@ == dims@,
                tensor_dims@ == tensor@.dims,
                d <= view_dims@.len(),
                extent_error(view_dims@, offsets@, tensor_dims@, 0) == extent_error(view_dims@, offsets@, tensor_dims@, d as int),
                forall|e: int| 0 <= e < d ==> offsets@[e] + view_dims@[e] <= tensor_dims@[e],
            decreases view_dims@.len() - d,
        {
            let end = match offsets[d].checked_add(view_dims[d]) {
                Some(end) => end,
                None => {
                    proof {
                        assert(extent_error(view_dims@, offsets@, tensor_dims@, d as int) == Some(ModelError::ViewExtentOverflow));
                        assert(!extents_fit(view_dims@, offsets@, tensor_dims@));
                        assert(view_error(tensor@, dims@, offsets@) == ModelError::ViewExtentOverflow);
                    }
                    return Err(ModelError::ViewExtentOverflow);
                },
            };
            if end > tensor_dims[d] {
                proof {
                    assert(extent_error(view_dims@, offsets@, tensor_dims@, d as int) == Some(ModelError::ViewOutOfRange { dimension: d }));
                    assert(!extents_fit(view_dims@, offsets@, tensor_dims@));
                }
                return Err(ModelError::ViewOutOfRange { dimension: d });
            }
            d = d + 1;
        }
        let ghost model = ViewModel { tensor: tensor@, dims: shape@, offsets: offsets@ };
        assert(view_valid(model));
        proof {
            lemma_layout_size(model);
            crate::util::lemma_product_positive(tensor@.dims);
            let bits = bits_of(tensor@.dtype);
            let p = seq_product(shape@);
            let pt = seq_product(tensor@.dims);
            assert(p * bits <= pt * bits) by (nonlinear_arith) requires p <= pt;
            assert((p * bits + 7) / 8 <= (pt * bits + 7) / 8) by (nonlinear_arith) requires p * bits <= pt * bits;
        }
        let num_packed_bytes = match checked_num_bytes(shape.num_elements(), tensor.dtype()) {
            Ok(n) => n,
            Err(e) => return Err(e),
        };
        let offsets = copy_slice(offsets);
        let layout = TensorViewLayout::new(&tensor, &shape, &offsets);
        Ok(TensorView { tensor, shape, offsets, num_packed_bytes, layout })
    }

    /// A view of the whole tensor.
    pub fn new_full(tensor: Tensor) -> (view: Self)
        ensures
            view@ == (ViewModel {
                tensor: tensor@,
                dims: tensor@.dims,
                offsets: Seq::new(tensor@.dims.len(), |i: int| 0usize),
            }),
    {
        let shape = tensor.shape().clone();
        let rank = tensor.num_dims();
        let mut offsets: Vec<usize> = Vec::new();
        let mut i: usize = 0;
        while i < rank
            invariant
                i <= rank,
                offsets@ =~= Seq::new(i as nat, |j: int| 0usize),
            decreases rank - i,
        {
            offsets.push(0);
            i = i + 1;
        }
        let num_packed_bytes = tensor.num_bytes();
        let ghost model = ViewModel { tensor: tensor@, dims: shape@, offsets: offsets@ };
        assert(view_valid(model));
        let layout = TensorViewLayout::new(&tensor, &shape, &offsets);
        TensorView { tensor, shape, offsets, num_packed_bytes, layout }
    }

    /// The view of `tensor` that one output partition along a single
    /// dimension reads.
    pub fn from_output_partition(
        tensor: Tensor,
        output_rank: usize,
        partition_dim: usize,
        partition_offset: usize,
        partition_num_elements: usize,
    ) -> (result: Result<Self, ModelError>)
        ensures
            ({
                let full = tensor@.dims;
                let zeros = Seq::new(full.len(), |i: int| 0usize);
                let pad = if output_rank >= full.len() { output_rank - full.len() } else { 0 };
                let part = DimPartition { dim: partition_dim, offset: partition_offset, num_elements: partition_num_elements };
                match apply_partitions(full, zeros, pad as int, seq![part]) {
                    Err(e) => result is Err && result->Err_0 == e,
                    Ok((d, o)) => view_result_matches(result, tensor@, d, o),
                }
            }),
    {
        let mut partitions: Vec<DimPartition> = Vec::new();
        partitions.push(DimPartition { dim: partition_dim, offset: partition_offset, num_elements: partition_num_elements });
        proof {
            assert(partitions@ =~= seq![DimPartition { dim: partition_dim, offset: partition_offset, num_elements: partition_num_elements }]);
        }
        Self::from_output_partitions(tensor, output_rank, partitions.as_slice())
    }

    /// The view of `tensor` that an output partition reads.
    pub fn from_output_partitions(tensor: Tensor, output_rank: usize, partitions: &[DimPartition]) -> (result: Result<Self, ModelError>)
        ensures
            ({
                let full = tensor@.dims;
                let zeros = Seq::new(full.len(), |i: int| 0usize);
                let pad = if output_rank >= full.len() { output_rank - full.len() } else { 0 };
                match apply_partitions(full, zeros, pad as int, partitions@) {
                    Err(e) => result is Err && result->Err_0 == e,
                    Ok((d, o)) => view_result_matches(result, tensor@, d, o),
                }
            }),
    {
        let base_view = Self::new_full(tensor);
        Self::from_output_partitions_on_view(&base_view, output_rank, partitions)
    }

    /// The part of `base_view` that an output partition reads, where the
    /// view's dimensions align with the innermost output dimensions.
    pub fn from_output_partitions_on_view(base_view: &TensorView, output_rank: usize, partitions: &[DimPartition]) -> (result: Result<Self, ModelError>)
        ensures
            ({
                let pad = if output_rank >= base_view@.dims.len() { output_rank - base_view@.dims.len() } else { 0 };
                match apply_partitions(base_view@.dims, base_view@.offsets, pad as int, partitions@) {
                    Err(e) => result is Err && result->Err_0 == e,
                    Ok((d, o)) => view_result_matches(result, base_view@.tensor, d, o),
                }
            }),
    {
        proof {
            use_type_invariant(base_view);
        }
        let view_rank = base_view.shape.num_dims();
        let rank_pad = output_rank.saturating_sub(view_rank);
        let mut shape = copy_slice(base_view.shape.dims());
        let mut offsets = copy_slice(base_view.offsets.as_slice());
        let mut k: usize = 0;
        assert(partitions@.take(0) =~= Seq::<DimPartition>::empty());
        while k < partitions.len()
            invariant
                k <= partitions@.len(),
                shape@.len() == view_rank,
                offsets@.len() == view_rank,
                view_rank == base_view@.dims.len(),
                rank_pad == (if output_rank >= view_rank { output_rank - view_rank } else { 0 }),
                apply_partitions(base_view@.dims, base_view@.offsets, rank_pad as int, partitions@.take(k as int))
                    == Ok::<(Seq<usize>, Seq<usize>), ModelError>((shape@, offsets@)),
            decreases partitions@.len() - k,
        {
            let partition = partitions[k];
            proof {
                assert(partitions@.take(k + 1).drop_last() =~= partitions@.take(k as int));
                assert(partitions@.take(k + 1).last() == partition);
            }
            if partition.dim >= rank_pad {
                let view_dim = partition.dim - rank_pad;
                if view_dim < view_rank && shape[view_dim] > 1 {
                    let partition_end = match partition.offset.checked_add(partition.num_elements) {
                        Some(end) => end,
                        None => {
                            proof {
                                lemma_apply_partitions_error(base_view@.dims, base_view@.offsets, rank_pad as int, partitions@, k as int);
                            }
                            return Err(ModelError::PartitionExtentOverflow);
                        },
                    };
                    if partition_end > shape[view_dim] {
                        proof {
                            lemma_apply_partitions_error(base_view@.dims, base_view@.offsets, rank_pad as int, partitions@, k as int);
                        }
                        return Err(ModelError::PartitionOutOfRange);
                    }
                    let offset = match offsets[view_dim].checked_add(partition.offset) {
                        Some(offset) => offset,
                        None => {
                            proof {
                                lemma_apply_partitions_error(base_view@.dims, base_view@.offsets, rank_pad as int, partitions@, k as int);
                            }
                            return Err(ModelError::PartitionOffsetOverflow);
                        },
                    };
                    offsets.set(view_dim, offset);
                    shape.set(view_dim, partition.num_elements);
                }
            }
            k = k + 1;
        }
        assert(partitions@.take(partitions@.len() as int) =~= partitions@);
        Self::new(base_view.tensor.clone(), shape.as_slice(), offsets.as_slice())
    }

    /// The viewed tensor.
    pub fn tensor(&self) -> (tensor: &Tensor)
        ensures
            tensor@ == self@.tensor,
    {
        &self.tensor
    }

    /// The element type.
    pub fn dtype(&self) -> (dtype: &DataType)
        ensures
            *dtype == self@.tensor.dtype,
    {
        self.tensor.dtype()
    }

    /// The offsets of the view into the tensor.
    pub fn offsets(&self) -> (offsets: &[usize])
        ensures
            offsets@ == self@.offsets,
            view_valid(self@),
    {
        proof {
            use_type_invariant(self);
        }
        self.offsets.as_slice()
    }

    /// The view's shape.
    pub fn shape(&self) -> (shape: &Shape)
        ensures
            shape@ == self@.dims,
            view_valid(self@),
    {
        proof {
            use_type_invariant(self);
        }
        &self.shape
    }

    /// The number of dimensions.
    pub fn num_dims(&self) -> (n: usize)
        ensures
            n == self@.dims.len(),
            view_valid(self@),
    {
        proof {
            use_type_invariant(self);
        }
        self.shape.num_dims()
    }

    /// The number of elements.
    pub fn num_elements(&self) -> (n: usize)
        ensures
            n == seq_product(self@.dims),
    {
        self.shape.num_elements()
    }

    /// Return a dimension after left-padding the shape with ones.
    pub fn get_dim(&self, total_dims: usize, index: usize) -> (dim: usize)
        requires
            index < total_dims,
        ensures
            dim == padded_dim(self@.dims, total_dims as int, index as int),
    {
        self.shape.get_dim(total_dims, index)
    }

    /// The physical layout of the view.
    pub fn layout(&self) -> (layout: &TensorViewLayout)
        ensures
            layout@ == layout_of(self@),
    {
        proof {
            use_type_invariant(self);
        }
        &self.layout
    }

    /// The bytes of the tensor that the view touches, from its first byte
    /// to the end of its last, partly touched bytes included.
    pub fn byte_range(&self) -> (range: Range<usize>)
        ensures
            range.start == view_byte_range(self@).0,
            range.end == view_byte_range(self@).1,
            range.start <= range.end,
    {
        proof {
            use_type_invariant(self);
        }
        let bounds = self.layout.byte_bounds();
        proof {
            let l = self.layout@;
            let a = l.first_element;
            let b = l.first_element + span(l.strides) + l.elements_per_range;
            let bits = l.bits;
            assert((a * bits) / 8 <= (b * bits + 7) / 8) by (nonlinear_arith)
                requires
                    a <= b,
            ;
        }
        bounds
    }

    /// Whether the view covers its whole tensor.
    pub fn is_full_view(&self) -> (full: bool)
        ensures
            full == (self@.dims == self@.tensor.dims && forall|d: int| 0 <= d < self@.offsets.len() ==> self@.offsets[d] == 0),
    {
        if !crate::util::slices_equal(self.shape.dims(), self.tensor.shape().dims()) {
            return false;
        }
        let mut d: usize = 0;
        while d < self.offsets.len()
            invariant
                d <= self.offsets@.len(),
                forall|e: int| 0 <= e < d ==> self.offsets@[e] == 0,
            decreases self.offsets@.len() - d,
        {
            if self.offsets[d] != 0 {
                assert(self@.offsets[d as int] != 0);
                return false;
            }
            d = d + 1;
        }
        true
    }

    /// The packed size of the view as a standalone tensor.
    /// The physical address ranges that the view touches, sorted, with
    /// touching ranges merged.
    pub fn address_ranges(&self) -> (ranges: AddressRanges)
        ensures
            ranges@.base == self@.tensor.addr,
            ranges@.ranges.layout == layout_of(self@),
            ranges@.ranges.next_range == 0,
    {
        proof {
            use_type_invariant(self);
        }
        AddressRanges { base: self.tensor.addr(), ranges: self.layout.byte_ranges() }
    }

    /// The smallest physical address range that holds every byte the view
    /// touches; it can hold bytes that the view does not touch.
    pub fn address_bounds(&self) -> (bounds: Range<u128>)
        ensures
            bounds.start == self@.tensor.addr + block_bounds(layout_of(self@).first_element, layout_of(self@).elements_per_range, layout_of(self@).strides, layout_of(self@).bits).0,
            bounds.end == self@.tensor.addr + block_bounds(layout_of(self@).first_element, layout_of(self@).elements_per_range, layout_of(self@).strides, layout_of(self@).bits).1,
    {
        proof {
            use_type_invariant(self);
        }
        let base = self.tensor.addr() as u128;
        let bounds = self.layout.byte_bounds();
        base + bounds.start as u128..base + bounds.end as u128
    }

    /// The bytes that the view touches inside a physical address range.
    pub fn num_access_bytes_in(&self, range: Range<u128>) -> (n: usize)
        ensures
            n == view_bytes_in(self@, range.start as nat, range.end as nat),
    {
        proof {
            use_type_invariant(self);
        }
        let base = self.tensor.addr() as u128;
        let tensor_end = base + self.tensor.num_bytes() as u128;
        let start = if range.start > base { range.start } else { base };
        let end = if range.end < tensor_end { range.end } else { tensor_end };
        if start >= end {
            return 0;
        }
        let relative = (start - base) as usize..(end - base) as usize;
        self.layout.num_access_bytes_in(relative)
    }

    /// Whether the two views lie in the same tensor of whole-byte elements
    /// with regions apart in some dimension.
    pub fn coordinates_are_disjoint(&self, other: &Self) -> (disjoint: bool)
        ensures
            disjoint == coordinates_disjoint(self@, other@),
    {
        if self.tensor.addr() != other.tensor.addr() {
            return false;
        }
        if *self.tensor.dtype() != *other.tensor.dtype() {
            return false;
        }
        let dims = self.tensor.shape().dims();
        let other_dims = other.tensor.shape().dims();
        if dims.len() != other_dims.len() {
            return false;
        }
        let mut d: usize = 0;
        while d < dims.len()
            invariant
                dims@.len() == other_dims@.len(),
                dims@ == self@.tensor.dims,
                other_dims@ == other@.tensor.dims,
                d <= dims@.len(),
                forall|e: int| 0 <= e < d ==> dims@[e] == other_dims@[e],
            decreases dims@.len() - d,
        {
            if dims[d] != other_dims[d] {
                assert(dims@ != other_dims@);
                return false;
            }
            d = d + 1;
        }
        assert(dims@ =~= other_dims@);
        if self.tensor.dtype().num_bits() % 8 != 0 {
            return false;
        }
        let offsets = self.offsets.as_slice();
        let extents = self.shape.dims();
        let other_offsets = other.offsets.as_slice();
        let other_extents = other.shape.dims();
        proof {
            use_type_invariant(self);
            use_type_invariant(other);
        }
        let mut d: usize = 0;
        while d < offsets.len() && d < other_offsets.len()
            invariant
                offsets@ == self@.offsets,
                extents@ == self@.dims,
                other_offsets@ == other@.offsets,
                other_extents@ == other@.dims,
                offsets@.len() == extents@.len(),
                other_offsets@.len() == other_extents@.len(),
                view_valid(self@),
                view_valid(other@),
                self@.tensor.addr == other@.tensor.addr,
                self@.tensor.dtype == other@.tensor.dtype,
                self@.tensor.dims == other@.tensor.dims,
                bits_of(self@.tensor.dtype) % 8 == 0,
                forall|e: int| 0 <= e < d ==> !(offsets@[e] + extents@[e] <= other_offsets@[e] || other_offsets@[e] + other_extents@[e] <= offsets@[e]),
                d <= offsets@.len(),
            decreases offsets@.len() - d,
        {
            if offsets[d] + extents[d] <= other_offsets[d] || other_offsets[d] + other_extents[d] <= offsets[d] {
                assert(self@.offsets[d as int] + self@.dims[d as int] <= other@.offsets[d as int]
                    || other@.offsets[d as int] + other@.dims[d as int] <= self@.offsets[d as int]);
                return true;
            }
            d = d + 1;
        }
        false
    }

    /// Whether the start bytes of the ranges of the two views provably never
    /// come close enough to share a byte.
    pub fn byte_strides_are_disjoint(&self, other: &Self) -> (disjoint: bool)
        ensures
            disjoint ==> strides_disjoint(layout_of(self@), self@.tensor.addr as nat, layout_of(other@), other@.tensor.addr as nat),
            progressions_moderate(layout_of(self@), self@.tensor.addr as nat, layout_of(other@), other@.tensor.addr as nat)
                ==> disjoint == strides_disjoint(
                layout_of(self@),
                self@.tensor.addr as nat,
                layout_of(other@),
                other@.tensor.addr as nat,
            ),
    {
        proof {
            use_type_invariant(self);
            use_type_invariant(other);
        }
        let first_progressions = self.layout.byte_start_progressions(self.tensor.addr());
        let second_progressions = other.layout.byte_start_progressions(other.tensor.addr());
        let mut i: usize = 0;
        while i < first_progressions.len()
            invariant
                i <= first_progressions@.len(),
                first_progressions@ == layout_progressions(layout_of(self@), self@.tensor.addr as nat),
                second_progressions@ == layout_progressions(layout_of(other@), other@.tensor.addr as nat),
                forall|k: int| 0 <= k < first_progressions@.len() ==> progression_valid(#[trigger] first_progressions@[k]),
                forall|k: int| 0 <= k < second_progressions@.len() ==> progression_valid(#[trigger] second_progressions@[k]),
                forall|a: int, b: int| 0 <= a < i && 0 <= b < second_progressions@.len() ==> !progressions_overlap(
                    #[trigger] first_progressions@[a],
                    #[trigger] second_progressions@[b],
                ),
            decreases first_progressions@.len() - i,
        {
            let mut j: usize = 0;
            while j < second_progressions.len()
                invariant
                    i < first_progressions@.len(),
                    j <= second_progressions@.len(),
                    first_progressions@ == layout_progressions(layout_of(self@), self@.tensor.addr as nat),
                    second_progressions@ == layout_progressions(layout_of(other@), other@.tensor.addr as nat),
                    forall|k: int| 0 <= k < first_progressions@.len() ==> progression_valid(#[trigger] first_progressions@[k]),
                    forall|k: int| 0 <= k < second_progressions@.len() ==> progression_valid(#[trigger] second_progressions@[k]),
                    forall|a: int, b: int| 0 <= a < i && 0 <= b < second_progressions@.len() ==> !progressions_overlap(
                        #[trigger] first_progressions@[a],
                        #[trigger] second_progressions@[b],
                    ),
                    forall|b: int| 0 <= b < j ==> !progressions_overlap(first_progressions@[i as int], #[trigger] second_progressions@[b]),
                decreases second_progressions@.len() - j,
            {
                if start_progressions_may_overlap(first_progressions[i], second_progressions[j]) {
                    proof {
                        let a = layout_of(self@);
                        let b = layout_of(other@);
                        if progressions_moderate(a, self@.tensor.addr as nat, b, other@.tensor.addr as nat) {
                            assert(progression_moderate(first_progressions@[i as int]));
                            assert(progression_moderate(second_progressions@[j as int]));
                            assert(progressions_overlap(first_progressions@[i as int], second_progressions@[j as int]));
                        }
                    }
                    return false;
                }
                j = j + 1;
            }
            i = i + 1;
        }
        true
    }

    /// The first pair of physical byte ranges, one of each view, that share
    /// an address, walking both views' ranges in address order; `None` when
    /// no byte range of one shares an address with a byte range of the other
    /// (found without walking where the views lie in apart regions of one
    /// tensor or no progression of range starts of one meets one of the
    /// other).
    pub fn first_overlapping_byte_ranges(&self, other: &Self) -> (found: Option<(Range<u128>, Range<u128>)>)
        ensures
            found matches Some((a, b)) ==> spans_overlap(a.start as int, a.end as int, b.start as int, b.end as int)
                && is_byte_range(layout_of(self@), a.start - self@.tensor.addr, a.end - self@.tensor.addr)
                && is_byte_range(layout_of(other@), b.start - other@.tensor.addr, b.end - other@.tensor.addr),
            found matches Some((a, b)) ==> overlaps_start_from(
                layout_of(self@),
                self@.tensor.addr as int,
                layout_of(other@),
                other@.tensor.addr as int,
                if a.start >= b.start { a.start as int } else { b.start as int },
            ),
            found is None ==> raw_ranges_apart(
                layout_of(self@),
                self@.tensor.addr as int,
                layout_of(other@),
                other@.tensor.addr as int,
            ),
    {
        proof {
            use_type_invariant(self);
            use_type_invariant(other);
            lemma_layout_well_formed(self@);
            lemma_layout_well_formed(other@);
        }
        let ghost la = layout_of(self@);
        let ghost lb = layout_of(other@);
        let ghost base_a = self@.tensor.addr as int;
        let ghost base_b = other@.tensor.addr as int;
        let bounds = self.address_bounds();
        let other_bounds = other.address_bounds();
        if !(bounds.start < other_bounds.end && other_bounds.start < bounds.end) {
            proof {
                assert forall|i: nat, j: nat| i < num_ranges(la.strides) && j < num_ranges(lb.strides) implies !spans_overlap(
                    base_a + #[trigger] raw_byte_range(la, i).0,
                    base_a + raw_byte_range(la, i).1,
                    base_b + #[trigger] raw_byte_range(lb, j).0,
                    base_b + raw_byte_range(lb, j).1,
                ) by {
                    lemma_raw_byte_ranges_ordered(la, i);
                    lemma_raw_byte_ranges_ordered(lb, j);
                }
            }
            return None;
        }
        if self.coordinates_are_disjoint(other) {
            proof {
                lemma_coordinates_disjoint_apart(self@, other@);
            }
            return None;
        }
        if self.byte_strides_are_disjoint(other) {
            proof {
                lemma_strides_disjoint_apart(la, base_a as nat, lb, base_b as nat);
            }
            return None;
        }
        let mut first_ranges = self.address_ranges();
        let mut second_ranges = other.address_ranges();
        let ghost first_total = num_ranges(la.strides);
        let ghost second_total = num_ranges(lb.strides);
        let mut first = match first_ranges.next() {
            Some(r) => r,
            None => return None,
        };
        let mut second = match second_ranges.next() {
            Some(r) => r,
            None => {
                proof {
                    lemma_num_ranges_positive(lb.strides);
                }
                return None;
            },
        };
        let ghost mut a_from: nat = 0;
        let ghost mut b_from: nat = 0;
        loop
            invariant
                layout_well_formed(la),
                layout_well_formed(lb),
                la == layout_of(self@),
                lb == layout_of(other@),
                base_a == self@.tensor.addr,
                base_b == other@.tensor.addr,
                first_ranges@.base == self@.tensor.addr,
                first_ranges@.ranges.layout == la,
                second_ranges@.base == other@.tensor.addr,
                second_ranges@.ranges.layout == lb,
                first_total == num_ranges(la.strides),
                second_total == num_ranges(lb.strides),
                first_ranges@.ranges.next_range <= first_total,
                second_ranges@.ranges.next_range <= second_total,
                merged_run(la, a_from, first_ranges@.ranges.next_range),
                merged_run(lb, b_from, second_ranges@.ranges.next_range),
                first.start == base_a + raw_byte_range(la, a_from).0,
                first.end == base_a + raw_byte_range(la, (first_ranges@.ranges.next_range - 1) as nat).1,
                second.start == base_b + raw_byte_range(lb, b_from).0,
                second.end == base_b + raw_byte_range(lb, (second_ranges@.ranges.next_range - 1) as nat).1,
                is_byte_range(la, first.start - self@.tensor.addr, first.end - self@.tensor.addr),
                is_byte_range(lb, second.start - other@.tensor.addr, second.end - other@.tensor.addr),
                forall|i: nat, j: nat| i < a_from && j < second_total ==> !spans_overlap(
                    base_a + #[trigger] raw_byte_range(la, i).0,
                    base_a + raw_byte_range(la, i).1,
                    base_b + #[trigger] raw_byte_range(lb, j).0,
                    base_b + raw_byte_range(lb, j).1,
                ),
                forall|i: nat, j: nat| i < first_total && j < b_from ==> !spans_overlap(
                    base_a + #[trigger] raw_byte_range(la, i).0,
                    base_a + raw_byte_range(la, i).1,
                    base_b + #[trigger] raw_byte_range(lb, j).0,
                    base_b + raw_byte_range(lb, j).1,
                ),
            decreases (first_total - first_ranges@.ranges.next_range) + (second_total - second_ranges@.ranges.next_range),
        {
            if first.start < second.end && second.start < first.end {
                proof {
                    let m = if first.start >= second.start { first.start as int } else { second.start as int };
                    assert forall|i: nat, j: nat|
                        i < num_ranges(la.strides) && j < num_ranges(lb.strides) && spans_overlap(
                            base_a + #[trigger] raw_byte_range(la, i).0,
                            base_a + raw_byte_range(la, i).1,
                            base_b + #[trigger] raw_byte_range(lb, j).0,
                            base_b + raw_byte_range(lb, j).1,
                        ) implies base_a + raw_byte_range(la, i).0 >= m || base_b + raw_byte_range(lb, j).0 >= m by {
                        lemma_raw_range_after(la, a_from, i);
                        lemma_raw_range_after(lb, b_from, j);
                    }
                }
                return Some((first, second));
            }
            let ghost a_to = first_ranges@.ranges.next_range;
            let ghost b_to = second_ranges@.ranges.next_range;
            if first.end <= second.start {
                proof {
                    assert forall|i: nat, j: nat| i < a_to && j < second_total implies !spans_overlap(
                        base_a + #[trigger] raw_byte_range(la, i).0,
                        base_a + raw_byte_range(la, i).1,
                        base_b + #[trigger] raw_byte_range(lb, j).0,
                        base_b + raw_byte_range(lb, j).1,
                    ) by {
                        if i >= a_from && j >= b_from {
                            lemma_raw_range_before(la, i, (a_to - 1) as nat);
                            lemma_raw_range_after(lb, b_from, j);
                        }
                    }
                }
                first = match first_ranges.next() {
                    Some(r) => r,
                    None => return None,
                };
                proof {
                    a_from = a_to;
                }
            } else {
                proof {
                    assert forall|i: nat, j: nat| i < first_total && j < b_to implies !spans_overlap(
                        base_a + #[trigger] raw_byte_range(la, i).0,
                        base_a + raw_byte_range(la, i).1,
                        base_b + #[trigger] raw_byte_range(lb, j).0,
                        base_b + raw_byte_range(lb, j).1,
                    ) by {
                        if i >= a_from && j >= b_from {
                            lemma_raw_range_before(lb, j, (b_to - 1) as nat);
                            lemma_raw_range_after(la, a_from, i);
                        }
                    }
                }
                second = match second_ranges.next() {
                    Some(r) => r,
                    None => return None,
                };
                proof {
                    b_from = b_to;
                }
            }
        }
    }

    pub fn num_packed_bytes(&self) -> (n: usize)
        ensures
            n == packed_bytes(seq_product(self@.dims), bits_of(self@.tensor.dtype)),
    {
        proof {
            use_type_invariant(self);
        }
        self.num_packed_bytes
    }
}

/// Once a partition step fails, applying all partitions fails the same way.
proof fn lemma_apply_partitions_error(dims: Seq<usize>, offsets: Seq<usize>, rank_pad: int, parts: Seq<DimPartition>, k: int)
    requires
        0 <= k < parts.len(),
        apply_partitions(dims, offsets, rank_pad, parts.take(k)) is Ok,
        ({
            let (d, o) = apply_partitions(dims, offsets, rank_pad, parts.take(k))->Ok_0;
            partition_step(d, o, rank_pad, parts[k]) is Err
        }),
    ensures
        ({
            let (d, o) = apply_partitions(dims, offsets, rank_pad, parts.take(k))->Ok_0;
            apply_partitions(dims, offsets, rank_pad, parts) == partition_step(d, o, rank_pad, parts[k])
        }),
    decreases parts.len() - k,
{
    let (d, o) = apply_partitions(dims, offsets, rank_pad, parts.take(k))->Ok_0;
    assert(parts.take(k + 1).drop_last() =~= parts.take(k));
    assert(parts.take(k + 1).last() == parts[k]);
    if k + 1 == parts.len() {
        assert(parts.take(k + 1) =~= parts);
    } else {
        lemma_apply_error_persists(dims, offsets, rank_pad, parts, k + 1);
    }
}

proof fn lemma_apply_error_persists(dims: Seq<usize>, offsets: Seq<usize>, rank_pad: int, parts: Seq<DimPartition>, k: int)
    requires
        0 <= k <= parts.len(),
        apply_partitions(dims, offsets, rank_pad, parts.take(k)) is Err,
    ensures
        apply_partitions(dims, offsets, rank_pad, parts) == apply_partitions(dims, offsets, rank_pad, parts.take(k)),
    decreases parts.len() - k,
{
    if k == parts.len() {
        assert(parts.take(k) =~= parts);
    } else {
        assert(parts.take(k + 1).drop_last() =~= parts.take(k));
        lemma_apply_error_persists(dims, offsets, rank_pad, parts, k + 1);
    }
}

impl HasShape for TensorView {
    open spec fn shape_dims(&self) -> Seq<usize> {
        self@.dims
    }

    fn num_dims(&self) -> (n: usize) {
        TensorView::num_dims(self)
    }

    fn num_elements(&self) -> (n: usize) {
        TensorView::num_elements(self)
    }

    fn get_dim(&self, total_dims: usize, index: usize) -> (dim: usize) {
        TensorView::get_dim(self, total_dims, index)
    }

    fn shape(&self) -> (shape: &Shape) {
        TensorView::shape(self)
    }
}

/// The bytes of the first `n` element ranges of a block, counted range by
/// range in the order of their starts.
pub open spec fn starts_bytes(first: nat, epr: nat, strides: Seq<(nat, nat)>, bits: nat, n: nat) -> nat
    decreases n,
{
    if n == 0 {
        0
    } else {
        starts_bytes(first, epr, strides, bits, (n - 1) as nat) + range_byte_len(
            range_start(first, strides, (n - 1) as nat),
            epr,
            bits,
        )
    }
}

/// Counting the ranges of outer block `i` after those of the blocks before
/// it.
proof fn lemma_starts_bytes_block(first: nat, epr: nat, strides: Seq<(nat, nat)>, bits: nat, i: nat, j: nat)
    requires
        strides.len() > 0,
        j <= num_ranges(strides.drop_first()),
    ensures
        starts_bytes(first, epr, strides, bits, i * num_ranges(strides.drop_first()) + j) == starts_bytes(
            first,
            epr,
            strides,
            bits,
            i * num_ranges(strides.drop_first()),
        ) + starts_bytes(first + i * strides[0].1, epr, strides.drop_first(), bits, j),
    decreases j,
{
    let inner = num_ranges(strides.drop_first());
    if j > 0 {
        lemma_starts_bytes_block(first, epr, strides, bits, i, (j - 1) as nat);
        let k = i * inner + j - 1;
        assert(i * inner >= 0) by (nonlinear_arith);
        lemma_fundamental_div_mod_converse(k, inner as int, i as int, j - 1);
        assert(range_start(first, strides, k as nat) == range_start(
            first + i * strides[0].1,
            strides.drop_first(),
            (j - 1) as nat,
        ));
    }
}

/// The bytes of the first `k` outer blocks, counted block by block, are
/// those of their ranges counted in order.
proof fn lemma_blocks_bytes_as_starts(first: nat, epr: nat, strides: Seq<(nat, nat)>, bits: nat, k: nat)
    requires
        strides.len() > 0,
    ensures
        blocks_bytes(first, epr, strides, bits, k) == starts_bytes(first, epr, strides, bits, k * num_ranges(strides.drop_first())),
    decreases strides.len(), 0nat, k,
{
    let inner = num_ranges(strides.drop_first());
    if k == 0 {
        assert(0 * inner == 0);
    } else {
        lemma_blocks_bytes_as_starts(first, epr, strides, bits, (k - 1) as nat);
        lemma_block_bytes_as_starts((first + ((k - 1) as nat) * strides[0].1) as nat, epr, strides.drop_first(), bits);
        lemma_starts_bytes_block(first, epr, strides, bits, (k - 1) as nat, inner);
        assert(k * inner == (k - 1) * inner + inner) by (nonlinear_arith);
    }
}

/// The bytes of a block, counted block by block, are those of its ranges
/// counted in the order of their starts.
proof fn lemma_block_bytes_as_starts(first: nat, epr: nat, strides: Seq<(nat, nat)>, bits: nat)
    ensures
        block_bytes(first, epr, strides, bits) == starts_bytes(first, epr, strides, bits, num_ranges(strides)),
    decreases strides.len(), 1nat, 0nat,
{
    if strides.len() == 0 {
        assert(starts_bytes(first, epr, strides, bits, 0) == 0);
        assert(starts_bytes(first, epr, strides, bits, 1) == range_byte_len(range_start(first, strides, 0), epr, bits));
    } else {
        lemma_blocks_bytes_as_starts(first, epr, strides, bits, strides[0].0);
    }
}

/// The index just past the run of touching ranges that starts at range `k`.
pub open spec fn run_end(l: LayoutModel, k: nat) -> nat
    decreases num_ranges(l.strides) - k,
{
    if k + 1 >= num_ranges(l.strides) || raw_byte_range(l, k + 1).0 > raw_byte_range(l, k).1 {
        k + 1
    } else {
        run_end(l, k + 1)
    }
}

/// A run ends past its first range and no later than the layout's last.
pub proof fn lemma_run_end_after(l: LayoutModel, k: nat)
    requires
        k < num_ranges(l.strides),
    ensures
        k < run_end(l, k) <= num_ranges(l.strides),
    decreases num_ranges(l.strides) - k,
{
    if !(k + 1 >= num_ranges(l.strides) || raw_byte_range(l, k + 1).0 > raw_byte_range(l, k).1) {
        lemma_run_end_after(l, k + 1);
    }
}

/// The lengths of the merged byte ranges from the run starting at range
/// `k` on.
pub open spec fn merged_bytes_from(l: LayoutModel, k: nat) -> int
    decreases num_ranges(l.strides) - k,
{
    if k >= num_ranges(l.strides) {
        0
    } else {
        proof {
            lemma_run_end_after(l, k);
        }
        let e = run_end(l, k);
        (raw_byte_range(l, (e - 1) as nat).1 - raw_byte_range(l, k).0) + merged_bytes_from(l, e)
    }
}

/// The bytes of ranges `k..n` of a layout, counted range by range.
pub open spec fn raw_bytes_from(l: LayoutModel, k: nat) -> nat
    decreases num_ranges(l.strides) - k,
{
    if k >= num_ranges(l.strides) {
        0
    } else {
        range_byte_len(range_start(l.first_element, l.strides, k), l.elements_per_range, l.bits) + raw_bytes_from(l, k + 1)
    }
}

/// The bytes of range `k` lie from its start to its end.
proof fn lemma_raw_len(l: LayoutModel, k: nat)
    requires
        layout_well_formed(l),
        k < num_ranges(l.strides),
    ensures
        range_byte_len(range_start(l.first_element, l.strides, k), l.elements_per_range, l.bits) == raw_byte_range(l, k).1
            - raw_byte_range(l, k).0,
{
    lemma_raw_byte_ranges_ordered(l, k);
}

/// A run of touching ranges spans the bytes of its ranges, and its end
/// lies past its start.
proof fn lemma_run_bytes(l: LayoutModel, k: nat)
    requires
        layout_well_formed(l),
        k < num_ranges(l.strides),
    ensures
        k < run_end(l, k) <= num_ranges(l.strides),
        raw_byte_range(l, (run_end(l, k) - 1) as nat).1 - raw_byte_range(l, k).0 + raw_bytes_from(l, run_end(l, k))
            == raw_bytes_from(l, k),
    decreases num_ranges(l.strides) - k,
{
    lemma_raw_len(l, k);
    if !(k + 1 >= num_ranges(l.strides) || raw_byte_range(l, k + 1).0 > raw_byte_range(l, k).1) {
        lemma_run_bytes(l, k + 1);
        lemma_raw_byte_ranges_ordered(l, k);
    }
}

/// The merged ranges from run `k` on hold as many bytes as the ranges they
/// merge.
proof fn lemma_merged_bytes_from(l: LayoutModel, k: nat)
    requires
        layout_well_formed(l),
    ensures
        merged_bytes_from(l, k) == raw_bytes_from(l, k),
    decreases num_ranges(l.strides) - k,
{
    if k < num_ranges(l.strides) {
        lemma_run_bytes(l, k);
        lemma_merged_bytes_from(l, run_end(l, k));
    }
}

/// The ranges `k..n` counted from the back are those counted from the
/// front.
proof fn lemma_raw_bytes_from_split(l: LayoutModel, k: nat)
    requires
        k <= num_ranges(l.strides),
    ensures
        starts_bytes(l.first_element, l.elements_per_range, l.strides, l.bits, k) + raw_bytes_from(l, k) == starts_bytes(
            l.first_element,
            l.elements_per_range,
            l.strides,
            l.bits,
            num_ranges(l.strides),
        ),
    decreases num_ranges(l.strides) - k,
{
    if k < num_ranges(l.strides) {
        lemma_raw_bytes_from_split(l, k + 1);
    }
}

/// A merged byte range of the walk over a layout is the run of touching
/// ranges that starts where it starts.
pub proof fn lemma_merged_run_is_run(l: LayoutModel, from: nat, to: nat)
    requires
        layout_well_formed(l),
        merged_run(l, from, to),
    ensures
        to == run_end(l, from),
    decreases to - from,
{
    if from + 1 < to {
        lemma_raw_byte_ranges_ordered(l, from);
        assert(raw_byte_range(l, from + 1).0 <= raw_byte_range(l, from).1);
        assert(merged_run(l, from + 1, to));
        lemma_merged_run_is_run(l, from + 1, to);
    }
}

/// The bytes a layout touches, counted range by range, are the lengths of
/// its merged byte ranges added up: the runs of touching ranges, taken one
/// after another from the first range.
pub proof fn lemma_access_bytes_are_merged_lengths(l: LayoutModel)
    requires
        layout_well_formed(l),
    ensures
        layout_access_bytes(l) == merged_bytes_from(l, 0),
{
    lemma_block_bytes_as_starts(l.first_element, l.elements_per_range, l.strides, l.bits);
    lemma_raw_bytes_from_split(l, 0);
    lemma_merged_bytes_from(l, 0);
}

/// The merged byte ranges of a layout are sorted, non-empty, and apart: a
/// merged range ends before any later one starts, with a gap between.
pub proof fn lemma_merged_ranges_sorted(l: LayoutModel, f1: nat, t1: nat, f2: nat, t2: nat)
    requires
        layout_well_formed(l),
        merged_run(l, f1, t1),
        merged_run(l, f2, t2),
        t1 <= f2,
    ensures
        raw_byte_range(l, f1).0 < raw_byte_range(l, (t1 - 1) as nat).1,
        raw_byte_range(l, (t1 - 1) as nat).1 < raw_byte_range(l, f2).0,
{
    lemma_raw_byte_ranges_ordered(l, f1);
    lemma_raw_range_before(l, f1, (t1 - 1) as nat);
    lemma_raw_range_after(l, t1, f2);
}

/// The bytes in `lo..hi` of the first `n` element ranges of a block,
/// counted range by range in the order of their starts.
pub open spec fn starts_bytes_in(first: nat, epr: nat, strides: Seq<(nat, nat)>, bits: nat, lo: nat, hi: nat, n: nat) -> nat
    decreases n,
{
    if n == 0 {
        0
    } else {
        let rs = range_start(first, strides, (n - 1) as nat);
        starts_bytes_in(first, epr, strides, bits, lo, hi, (n - 1) as nat) + overlap_len(
            byte_start(rs, bits),
            byte_end(rs, epr, bits),
            lo,
            hi,
        )
    }
}

proof fn lemma_starts_bytes_in_block(
    first: nat,
    epr: nat,
    strides: Seq<(nat, nat)>,
    bits: nat,
    lo: nat,
    hi: nat,
    i: nat,
    j: nat,
)
    requires
        strides.len() > 0,
        j <= num_ranges(strides.drop_first()),
    ensures
        starts_bytes_in(first, epr, strides, bits, lo, hi, i * num_ranges(strides.drop_first()) + j) == starts_bytes_in(
            first,
            epr,
            strides,
            bits,
            lo,
            hi,
            i * num_ranges(strides.drop_first()),
        ) + starts_bytes_in(first + i * strides[0].1, epr, strides.drop_first(), bits, lo, hi, j),
    decreases j,
{
    let inner = num_ranges(strides.drop_first());
    if j > 0 {
        lemma_starts_bytes_in_block(first, epr, strides, bits, lo, hi, i, (j - 1) as nat);
        let k = i * inner + j - 1;
        assert(i * inner >= 0) by (nonlinear_arith);
        lemma_fundamental_div_mod_converse(k, inner as int, i as int, j - 1);
        assert(range_start(first, strides, k as nat) == range_start(
            first + i * strides[0].1,
            strides.drop_first(),
            (j - 1) as nat,
        ));
    }
}

proof fn lemma_blocks_bytes_in_as_starts(first: nat, epr: nat, strides: Seq<(nat, nat)>, bits: nat, lo: nat, hi: nat, k: nat)
    requires
        strides.len() > 0,
    ensures
        blocks_bytes_in(first, epr, strides, bits, lo, hi, k) == starts_bytes_in(
            first,
            epr,
            strides,
            bits,
            lo,
            hi,
            k * num_ranges(strides.drop_first()),
        ),
    decreases strides.len(), 0nat, k,
{
    let inner = num_ranges(strides.drop_first());
    if k == 0 {
        assert(0 * inner == 0);
    } else {
        lemma_blocks_bytes_in_as_starts(first, epr, strides, bits, lo, hi, (k - 1) as nat);
        lemma_block_bytes_in_as_starts((first + ((k - 1) as nat) * strides[0].1) as nat, epr, strides.drop_first(), bits, lo, hi);
        lemma_starts_bytes_in_block(first, epr, strides, bits, lo, hi, (k - 1) as nat, inner);
        assert(k * inner == (k - 1) * inner + inner) by (nonlinear_arith);
    }
}

proof fn lemma_block_bytes_in_as_starts(first: nat, epr: nat, strides: Seq<(nat, nat)>, bits: nat, lo: nat, hi: nat)
    ensures
        block_bytes_in(first, epr, strides, bits, lo, hi) == starts_bytes_in(first, epr, strides, bits, lo, hi, num_ranges(strides)),
    decreases strides.len(), 1nat, 0nat,
{
    if strides.len() == 0 {
        assert(starts_bytes_in(first, epr, strides, bits, lo, hi, 0) == 0);
        assert(range_start(first, strides, 0) == first);
    } else {
        lemma_blocks_bytes_in_as_starts(first, epr, strides, bits, lo, hi, strides[0].0);
    }
}

/// The bytes in `lo..hi` of ranges `k..n` of a layout, counted range by
/// range.
pub open spec fn raw_bytes_in_from(l: LayoutModel, k: nat, lo: nat, hi: nat) -> nat
    decreases num_ranges(l.strides) - k,
{
    if k >= num_ranges(l.strides) {
        0
    } else {
        overlap_len(raw_byte_range(l, k).0, raw_byte_range(l, k).1, lo, hi) + raw_bytes_in_from(l, k + 1, lo, hi)
    }
}

/// The bytes in `lo..hi` of the merged byte ranges from the run starting at
/// range `k` on, each clipped to the window.
pub open spec fn merged_bytes_in_from(l: LayoutModel, k: nat, lo: nat, hi: nat) -> nat
    decreases num_ranges(l.strides) - k,
{
    if k >= num_ranges(l.strides) {
        0
    } else {
        proof {
            lemma_run_end_after(l, k);
        }
        let e = run_end(l, k);
        overlap_len(raw_byte_range(l, k).0, raw_byte_range(l, (e - 1) as nat).1, lo, hi) + merged_bytes_in_from(l, e, lo, hi)
    }
}

/// Clipping two touching spans to a window clips the span they make up.
proof fn lemma_overlap_split(a: nat, m: nat, b: nat, lo: nat, hi: nat)
    requires
        a <= m <= b,
    ensures
        overlap_len(a, b, lo, hi) == overlap_len(a, m, lo, hi) + overlap_len(m, b, lo, hi),
{
}

proof fn lemma_run_bytes_in(l: LayoutModel, k: nat, lo: nat, hi: nat)
    requires
        layout_well_formed(l),
        k < num_ranges(l.strides),
    ensures
        raw_byte_range(l, k).0 <= raw_byte_range(l, (run_end(l, k) - 1) as nat).1,
        overlap_len(raw_byte_range(l, k).0, raw_byte_range(l, (run_end(l, k) - 1) as nat).1, lo, hi) + raw_bytes_in_from(
            l,
            run_end(l, k),
            lo,
            hi,
        ) == raw_bytes_in_from(l, k, lo, hi),
    decreases num_ranges(l.strides) - k,
{
    lemma_raw_byte_ranges_ordered(l, k);
    lemma_run_end_after(l, k);
    if !(k + 1 >= num_ranges(l.strides) || raw_byte_range(l, k + 1).0 > raw_byte_range(l, k).1) {
        lemma_run_bytes_in(l, k + 1, lo, hi);
        lemma_overlap_split(
            raw_byte_range(l, k).0,
            raw_byte_range(l, k).1,
            raw_byte_range(l, (run_end(l, k) - 1) as nat).1,
            lo,
            hi,
        );
    }
}

proof fn lemma_merged_bytes_in_from(l: LayoutModel, k: nat, lo: nat, hi: nat)
    requires
        layout_well_formed(l),
    ensures
        merged_bytes_in_from(l, k, lo, hi) == raw_bytes_in_from(l, k, lo, hi),
    decreases num_ranges(l.strides) - k,
{
    if k < num_ranges(l.strides) {
        lemma_run_end_after(l, k);
        lemma_run_bytes_in(l, k, lo, hi);
        lemma_merged_bytes_in_from(l, run_end(l, k), lo, hi);
    }
}

proof fn lemma_raw_bytes_in_from_split(l: LayoutModel, k: nat, lo: nat, hi: nat)
    requires
        k <= num_ranges(l.strides),
    ensures
        starts_bytes_in(l.first_element, l.elements_per_range, l.strides, l.bits, lo, hi, k) + raw_bytes_in_from(l, k, lo, hi)
            == starts_bytes_in(l.first_element, l.elements_per_range, l.strides, l.bits, lo, hi, num_ranges(l.strides)),
    decreases num_ranges(l.strides) - k,
{
    if k < num_ranges(l.strides) {
        lemma_raw_bytes_in_from_split(l, k + 1, lo, hi);
    }
}

/// The bytes a layout touches in a window `lo..hi`, counted without
/// visiting its ranges, are the lengths of its merged byte ranges clipped
/// to the window, added up.
pub proof fn lemma_bytes_in_are_clipped_lengths(l: LayoutModel, lo: nat, hi: nat)
    requires
        layout_well_formed(l),
    ensures
        block_bytes_in(l.first_element, l.elements_per_range, l.strides, l.bits, lo, hi) == merged_bytes_in_from(l, 0, lo, hi),
{
    lemma_block_bytes_in_as_starts(l.first_element, l.elements_per_range, l.strides, l.bits, lo, hi);
    lemma_raw_bytes_in_from_split(l, 0, lo, hi);
    lemma_merged_bytes_in_from(l, 0, lo, hi);
}

/// The bytes in the address window `lo..hi` of the merged byte ranges,
/// placed at `base`, from the run starting at range `k` on.
pub open spec fn address_bytes_in_from(l: LayoutModel, base: nat, k: nat, lo: nat, hi: nat) -> nat
    decreases num_ranges(l.strides) - k,
{
    if k >= num_ranges(l.strides) {
        0
    } else {
        proof {
            lemma_run_end_after(l, k);
        }
        let e = run_end(l, k);
        overlap_len(base + raw_byte_range(l, k).0, base + raw_byte_range(l, (e - 1) as nat).1, lo, hi) + address_bytes_in_from(
            l,
            base,
            e,
            lo,
            hi,
        )
    }
}

proof fn lemma_address_bytes_in_from(l: LayoutModel, base: nat, k: nat, lo: nat, hi: nat, tb: nat, wlo: nat, whi: nat)
    requires
        layout_well_formed(l),
        block_bounds(l.first_element, l.elements_per_range, l.strides, l.bits).1 <= tb,
        wlo == (if lo > base { lo } else { base }) - base,
        whi == if (if hi < base + tb { hi } else { base + tb }) >= base {
            (if hi < base + tb { hi } else { base + tb }) - base
        } else {
            0
        },
    ensures
        address_bytes_in_from(l, base, k, lo, hi) == merged_bytes_in_from(l, k, wlo, whi),
    decreases num_ranges(l.strides) - k,
{
    if k < num_ranges(l.strides) {
        lemma_run_end_after(l, k);
        let e = run_end(l, k);
        lemma_run_bytes_in(l, k, wlo, whi);
        lemma_raw_byte_ranges_ordered(l, (e - 1) as nat);
        lemma_address_bytes_in_from(l, base, e, lo, hi, tb, wlo, whi);
    }
}

proof fn lemma_merged_bytes_in_empty(l: LayoutModel, k: nat, lo: nat, hi: nat)
    requires
        lo >= hi,
    ensures
        merged_bytes_in_from(l, k, lo, hi) == 0,
    decreases num_ranges(l.strides) - k,
{
    if k < num_ranges(l.strides) {
        lemma_run_end_after(l, k);
        lemma_merged_bytes_in_empty(l, run_end(l, k), lo, hi);
    }
}

/// The bytes a view touches in an address window, counted without visiting
/// its ranges, are the lengths of its merged address ranges clipped to the
/// window, added up.
pub proof fn lemma_view_bytes_in_are_clipped_lengths(v: ViewModel, lo: nat, hi: nat)
    requires
        view_valid(v),
    ensures
        view_bytes_in(v, lo, hi) == address_bytes_in_from(layout_of(v), v.tensor.addr as nat, 0, lo, hi),
{
    let l = layout_of(v);
    let base = v.tensor.addr as nat;
    let tb = tensor_bytes(v.tensor);
    lemma_layout_well_formed(v);
    let start = if lo > base { lo } else { base };
    let end = if hi < base + tb { hi } else { base + tb };
    let wlo = (start - base) as nat;
    let whi: nat = if end >= base { (end - base) as nat } else { 0 };
    lemma_address_bytes_in_from(l, base, 0, lo, hi, tb, wlo, whi);
    if start >= end {
        lemma_merged_bytes_in_empty(l, 0, wlo, whi);
    } else {
        lemma_bytes_in_are_clipped_lengths(l, wlo, whi);
    }
}

} // verus!
