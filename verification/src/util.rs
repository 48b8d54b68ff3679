//! Small helpers on sequences of integers.
use vstd::prelude::*;

verus! {

/// The product of a sequence of extents.
pub open spec fn seq_product(dims: Seq<usize>) -> nat
    decreases dims.len(),
{
    if dims.len() == 0 {
        1
    } else {
        seq_product(dims.drop_last()) * (dims.last() as nat)
    }
}

/// Every entry of the sequence is positive.
pub open spec fn all_positive(dims: Seq<usize>) -> bool {
    forall|i: int| 0 <= i < dims.len() ==> dims[i] > 0
}

/// Extending a prefix by one entry multiplies its product by that entry.
pub proof fn lemma_product_take_step(dims: Seq<usize>, i: int)
    requires
        0 <= i < dims.len(),
    ensures
        seq_product(dims.take(i + 1)) == seq_product(dims.take(i)) * (dims[i] as nat),
{
    assert(dims.take(i + 1).drop_last() =~= dims.take(i));
}

/// The product of positive extents is positive.
pub proof fn lemma_product_positive(dims: Seq<usize>)
    requires
        all_positive(dims),
    ensures
        seq_product(dims) >= 1,
    decreases dims.len(),
{
    if dims.len() > 0 {
        lemma_product_positive(dims.drop_last());
        assert(seq_product(dims) == seq_product(dims.drop_last()) * (dims.last() as nat));
        assert(seq_product(dims.drop_last()) * (dims.last() as nat) >= seq_product(dims.drop_last())) by (nonlinear_arith)
            requires seq_product(dims.drop_last()) >= 1, dims.last() >= 1;
    }
}

/// A prefix of positive extents has a product no larger than the whole.
pub proof fn lemma_product_prefix_le(dims: Seq<usize>, i: int)
    requires
        all_positive(dims),
        0 <= i <= dims.len(),
    ensures
        seq_product(dims.take(i)) <= seq_product(dims),
    decreases dims.len() - i,
{
    if i < dims.len() {
        lemma_product_prefix_le(dims, i + 1);
        lemma_product_take_step(dims, i);
        let p = seq_product(dims.take(i));
        let d = dims[i] as nat;
        assert(p <= p * d) by (nonlinear_arith) requires d >= 1;
    } else {
        assert(dims.take(i) =~= dims);
    }
}

/// Copy a slice of integers into a new vector.
pub fn copy_slice(values: &[usize]) -> (copy: Vec<usize>)
    ensures
        copy@ == values@,
{
    let mut copy: Vec<usize> = Vec::new();
    let mut i: usize = 0;
    while i < values.len()
        invariant
            i <= values@.len(),
            copy@ == values@.take(i as int),
        decreases values@.len() - i,
    {
        copy.push(values[i]);
        i = i + 1;
        assert(copy@ =~= values@.take(i as int));
    }
    assert(values@.take(values@.len() as int) =~= values@);
    copy
}

} // verus!

verus! {

/// The product of a non-empty sequence is its first entry times the product
/// of the rest.
pub proof fn lemma_product_first(dims: Seq<usize>)
    requires
        dims.len() > 0,
    ensures
        seq_product(dims) == (dims[0] as nat) * seq_product(dims.drop_first()),
    decreases dims.len(),
{
    if dims.len() == 1 {
        assert(dims.drop_last() =~= Seq::<usize>::empty());
        assert(dims.drop_first() =~= Seq::<usize>::empty());
        assert(seq_product(Seq::<usize>::empty()) == 1);
        assert(seq_product(dims) == seq_product(dims.drop_last()) * (dims.last() as nat));
    } else {
        lemma_product_first(dims.drop_last());
        assert(dims.drop_last().drop_first() =~= dims.drop_first().drop_last());
        assert(dims.drop_first().last() == dims.last());
        let a = dims[0] as nat;
        let b = seq_product(dims.drop_first().drop_last());
        let c = dims.last() as nat;
        assert(seq_product(dims) == seq_product(dims.drop_last()) * c);
        assert(seq_product(dims.drop_first()) == b * c);
        assert(a * b * c == a * (b * c)) by (nonlinear_arith);
    }
}

/// The product of a sequence splits at any point.
pub proof fn lemma_product_split(dims: Seq<usize>, k: int)
    requires
        0 <= k <= dims.len(),
    ensures
        seq_product(dims) == seq_product(dims.take(k)) * seq_product(dims.skip(k)),
    decreases dims.len() - k,
{
    if k == dims.len() {
        assert(dims.take(k) =~= dims);
        assert(dims.skip(k) =~= Seq::<usize>::empty());
        assert(seq_product(Seq::<usize>::empty()) == 1);
    } else {
        lemma_product_split(dims, k + 1);
        lemma_product_take_step(dims, k);
        lemma_product_first(dims.skip(k));
        assert(dims.skip(k).drop_first() =~= dims.skip(k + 1));
        let a = seq_product(dims.take(k));
        let b = dims[k] as nat;
        let c = seq_product(dims.skip(k + 1));
        assert(a * b * c == a * (b * c)) by (nonlinear_arith);
    }
}

/// A suffix of positive extents has a product no larger than the whole.
pub proof fn lemma_product_suffix_le(dims: Seq<usize>, k: int)
    requires
        all_positive(dims),
        0 <= k <= dims.len(),
    ensures
        seq_product(dims.skip(k)) <= seq_product(dims),
        seq_product(dims.take(k)) <= seq_product(dims),
{
    lemma_product_split(dims, k);
    lemma_product_prefix_le(dims, k);
    assert(all_positive(dims.take(k)));
    assert(all_positive(dims.skip(k)));
    lemma_product_positive(dims.take(k));
    let a = seq_product(dims.take(k));
    let b = seq_product(dims.skip(k));
    assert(b <= a * b) by (nonlinear_arith) requires a >= 1;
}

/// Products are monotone in each entry.
pub proof fn lemma_product_pointwise_le(small: Seq<usize>, large: Seq<usize>)
    requires
        small.len() == large.len(),
        forall|i: int| 0 <= i < small.len() ==> small[i] <= large[i],
    ensures
        seq_product(small) <= seq_product(large),
    decreases small.len(),
{
    if small.len() > 0 {
        lemma_product_pointwise_le(small.drop_last(), large.drop_last());
        let a = seq_product(small.drop_last());
        let b = seq_product(large.drop_last());
        let c = small.last() as nat;
        let d = large.last() as nat;
        assert(a * c <= b * d) by (nonlinear_arith) requires a <= b, c <= d;
    }
}

} // verus!

verus! {

/// The product of the entries of `dims` from `from` on.
pub fn suffix_product(dims: &[usize], from: usize) -> (product: usize)
    requires
        all_positive(dims@),
        seq_product(dims@) <= usize::MAX,
        from <= dims@.len(),
    ensures
        product == seq_product(dims@.skip(from as int)),
{
    let mut i = dims.len();
    let mut product: usize = 1;
    assert(dims@.skip(i as int) =~= Seq::<usize>::empty());
    assert(seq_product(Seq::<usize>::empty()) == 1);
    while i > from
        invariant
            from <= i <= dims@.len(),
            all_positive(dims@),
            seq_product(dims@) <= usize::MAX,
            product == seq_product(dims@.skip(i as int)),
        decreases i,
    {
        proof {
            lemma_product_first(dims@.skip(i - 1));
            assert(dims@.skip(i - 1).drop_first() =~= dims@.skip(i as int));
            lemma_product_suffix_le(dims@, i - 1);
        }
        product = dims[i - 1] * product;
        i = i - 1;
    }
    product
}

/// Whether two slices hold the same entries.
pub fn slices_equal(a: &[usize], b: &[usize]) -> (equal: bool)
    ensures
        equal == (a@ == b@),
{
    if a.len() != b.len() {
        return false;
    }
    let mut i: usize = 0;
    while i < a.len()
        invariant
            a@.len() == b@.len(),
            i <= a@.len(),
            forall|j: int| 0 <= j < i ==> a@[j] == b@[j],
        decreases a@.len() - i,
    {
        if a[i] != b[i] {
            return false;
        }
        i = i + 1;
    }
    assert(a@ =~= b@);
    true
}

} // verus!
