//! Which bytes the ranges of a view hold, and why the shortcuts of the
//! overlap test between two views are sound: every byte of a view's ranges
//! holds a bit of an element inside the view and every such byte lies in a
//! range; views of one tensor apart in some dimension share no byte; and
//! every range of a layout is one range of one of its start progressions,
//! so progressions that never meet leave the ranges apart.
use vstd::prelude::*;
use vstd::arithmetic::div_mod::{
    lemma_div_is_ordered, lemma_div_multiples_vanish, lemma_div_multiples_vanish_fancy, lemma_fundamental_div_mod,
    lemma_mod_bound, lemma_mod_breakdown, lemma_mod_multiples_basic, lemma_mod_multiples_vanish, lemma_small_mod,
};

use crate::dtype::bits_of;

use crate::util::{all_positive, lemma_product_first, lemma_product_positive, seq_product};
use crate::progression::{gcd_spec, progression_len, progression_start, progressions_overlap, ranges_meet};
use crate::tensor_view::{
    LayoutModel, ViewModel, aligned_stride_gcd, contiguous_from, contiguous_start, coordinates_disjoint, element_stride,
    flat_index, layout_of, layout_progressions, layout_well_formed, lemma_active_stride_in_span, lemma_counts_rest,
    lemma_layout_well_formed, lemma_num_ranges_positive, lemma_range_start_bounds, lemma_raw_byte_ranges_ordered,
    lemma_raw_range_before, lemma_run_end_after, run_end, view_valid, smallest_odd_stride, even_half_gcd,
    odd_half_difference_gcd, packed_stride, packed_progression,
    num_ranges, range_start, raw_byte_range, raw_ranges_apart, span, spans_overlap, stride_active, strides_disjoint,
};

verus! {

/// A multiple of `g` as an integer: `x` is `g` times something.
proof fn lemma_multiple_of(x: int, g: int, t: int)
    requires
        g > 0,
        x == g * t,
    ensures
        x % g == 0,
{
    assert(x == t * g) by (nonlinear_arith)
        requires
            x == g * t,
    ;
    lemma_mod_multiples_basic(t, g);
}

/// A natural divisible by `g` is `g` times its quotient.
proof fn lemma_quotient_of(x: int, g: int)
    requires
        g > 0,
        x % g == 0,
    ensures
        x == g * (x / g),
{
    lemma_fundamental_div_mod(x, g);
}

/// The greatest common divisor of two naturals, one of them positive, is
/// positive and divides both.
proof fn lemma_gcd_divides(a: nat, b: nat)
    requires
        a > 0 || b > 0,
    ensures
        gcd_spec(a, b) > 0,
        (a as int) % (gcd_spec(a, b) as int) == 0,
        (b as int) % (gcd_spec(a, b) as int) == 0,
    decreases b,
{
    if b == 0 {
        lemma_multiple_of(a as int, a as int, 1);
        lemma_multiple_of(0, a as int, 0);
    } else {
        lemma_mod_bound(a as int, b as int);
        lemma_gcd_divides(b, a % b);
        let g = gcd_spec(a, b) as int;
        assert(g == gcd_spec(b, a % b));
        lemma_quotient_of(b as int, g);
        lemma_quotient_of((a % b) as int, g);
        lemma_fundamental_div_mod(a as int, b as int);
        let t1 = (b as int) / g;
        let t2 = ((a % b) as int) / g;
        let q = (a as int) / (b as int);
        let r = (a % b) as int;
        assert(a as int == g * (q * t1 + t2)) by (nonlinear_arith)
            requires
                b as int == g * t1,
                r == g * t2,
                a as int == (b as int) * q + r,
        ;
        lemma_multiple_of(a as int, g, q * t1 + t2);
    }
}

/// The greatest common divisor of two naturals is at most the larger.
proof fn lemma_gcd_at_most(a: nat, b: nat)
    ensures
        gcd_spec(a, b) <= if a >= b { a } else { b },
    decreases b,
{
    if b > 0 {
        lemma_mod_bound(a as int, b as int);
        lemma_gcd_at_most(b, a % b);
    }
}

/// The divisor of the repeating byte strides is at most the byte span of
/// the block.
proof fn lemma_stride_gcd_at_most(strides: Seq<(nat, nat)>, bpe: nat, k: int)
    requires
        0 <= k <= strides.len(),
        forall|d: int| 0 <= d < strides.len() ==> (#[trigger] strides[d]).0 >= 1,
    ensures
        aligned_stride_gcd(strides, bpe, k) <= span(strides) * bpe,
    decreases k,
{
    if k > 0 {
        lemma_stride_gcd_at_most(strides, bpe, k - 1);
        if stride_active(strides, k - 1) {
            lemma_active_stride_in_span(strides, k - 1);
            assert(strides[k - 1].1 * bpe <= span(strides) * bpe) by (nonlinear_arith)
                requires
                    strides[k - 1].1 <= span(strides),
            ;
            lemma_gcd_at_most(aligned_stride_gcd(strides, bpe, k - 1), strides[k - 1].1 * bpe);
        }
    }
}

/// Divisibility is transitive.
proof fn lemma_divides_trans(x: int, g: int, h: int)
    requires
        g > 0,
        h > 0,
        x % g == 0,
        g % h == 0,
    ensures
        x % h == 0,
{
    lemma_quotient_of(x, g);
    lemma_quotient_of(g, h);
    let k = (x / g) * (g / h);
    assert(x == h * k) by (nonlinear_arith)
        requires
            x == g * (x / g),
            g == h * (g / h),
            k == (x / g) * (g / h),
    ;
    lemma_multiple_of(x, h, k);
}

/// The divisor of the byte strides divides every repeating byte stride it
/// was taken over, and is positive where one repeats.
proof fn lemma_stride_gcd_divides(strides: Seq<(nat, nat)>, bpe: nat, k: int)
    requires
        0 <= k <= strides.len(),
        bpe >= 1,
        forall|d: int| 0 <= d < strides.len() ==> (#[trigger] strides[d]).1 >= 1,
    ensures
        forall|d: int|
            #![trigger strides[d]]
            0 <= d < k && stride_active(strides, d) ==> aligned_stride_gcd(strides, bpe, k) > 0 && ((strides[d].1 * bpe) as int)
                % (aligned_stride_gcd(strides, bpe, k) as int) == 0,
    decreases k,
{
    if k > 0 {
        lemma_stride_gcd_divides(strides, bpe, k - 1);
        let prev = aligned_stride_gcd(strides, bpe, k - 1);
        if stride_active(strides, k - 1) {
            let s = strides[k - 1].1 * bpe;
            assert(s >= 1) by (nonlinear_arith)
                requires
                    strides[k - 1].1 >= 1,
                    bpe >= 1,
                    s == strides[k - 1].1 * bpe,
            ;
            lemma_gcd_divides(prev, s);
            let g = aligned_stride_gcd(strides, bpe, k);
            assert forall|d: int|
                #![trigger strides[d]]
                0 <= d < k && stride_active(strides, d) implies g > 0 && ((strides[d].1 * bpe) as int) % (g as int) == 0 by {
                if d < k - 1 {
                    lemma_divides_trans((strides[d].1 * bpe) as int, prev as int, g as int);
                }
            }
        }
    }
}

/// Where every repeating byte stride is a multiple of `g`, so is the byte
/// distance from a block's first element to the start of any of its ranges.
proof fn lemma_range_start_multiple(first: nat, strides: Seq<(nat, nat)>, k: nat, g: int, bpe: nat)
    requires
        forall|d: int| 0 <= d < strides.len() ==> (#[trigger] strides[d]).0 >= 1,
        k < num_ranges(strides),
        g > 0,
        forall|d: int|
            #![trigger strides[d]]
            0 <= d < strides.len() && stride_active(strides, d) ==> ((strides[d].1 * bpe) as int) % g == 0,
    ensures
        range_start(first, strides, k) >= first,
        ((range_start(first, strides, k) - first) * bpe) % g == 0,
    decreases strides.len(),
{
    if strides.len() == 0 {
        assert((range_start(first, strides, k) - first) * bpe == 0) by (nonlinear_arith)
            requires
                range_start(first, strides, k) == first,
        ;
        lemma_multiple_of(0, g, 0);
    } else {
        let rest = strides.drop_first();
        lemma_counts_rest(strides);
        let inner = num_ranges(rest);
        let count = strides[0].0;
        let s = strides[0].1;
        lemma_fundamental_div_mod(k as int, inner as int);
        lemma_mod_bound(k as int, inner as int);
        let q = k / inner;
        let m = k % inner;
        assert(q < count) by (nonlinear_arith)
            requires
                k == inner * q + m,
                m >= 0,
                k < count * inner,
                inner >= 1,
        ;
        assert forall|d: int|
            #![trigger rest[d]]
            0 <= d < rest.len() && stride_active(rest, d) implies ((rest[d].1 * bpe) as int) % g == 0 by {
            assert(rest[d] == strides[d + 1]);
        }
        let next = first + q * s;
        lemma_range_start_multiple(next, rest, m, g, bpe);
        let rs = range_start(first, strides, k);
        assert(rs == range_start(next, rest, m));
        let x = (rs - next) * bpe;
        let y = (q * s * bpe) as int;
        assert(y % g == 0) by {
            if stride_active(strides, 0) {
                lemma_quotient_of((s * bpe) as int, g);
                let t = ((s * bpe) as int) / g;
                assert(y == g * (q * t)) by (nonlinear_arith)
                    requires
                        (s * bpe) as int == g * t,
                        y == q * s * bpe,
                ;
                lemma_multiple_of(y, g, q * t);
            } else {
                assert(q == 0);
                assert(y == 0) by (nonlinear_arith)
                    requires
                        q == 0,
                        y == q * s * bpe,
                ;
                lemma_multiple_of(y, g, 0);
            }
        }
        lemma_quotient_of(x, g);
        lemma_quotient_of(y, g);
        assert((rs - first) * bpe == g * (x / g + y / g)) by (nonlinear_arith)
            requires
                x == g * (x / g),
                y == g * (y / g),
                x == (rs - next) * bpe,
                y == q * s * bpe,
                next == first + q * s,
        ;
        lemma_multiple_of((rs - first) * bpe, g, x / g + y / g);
    }
}

/// Where no stride repeats, every range starts at the block's first element.
proof fn lemma_range_start_fixed(first: nat, strides: Seq<(nat, nat)>, k: nat)
    requires
        forall|d: int| 0 <= d < strides.len() ==> (#[trigger] strides[d]).0 >= 1,
        forall|d: int| #![trigger strides[d]] 0 <= d < strides.len() ==> !stride_active(strides, d),
        k < num_ranges(strides),
    ensures
        range_start(first, strides, k) == first,
    decreases strides.len(),
{
    if strides.len() > 0 {
        let rest = strides.drop_first();
        lemma_counts_rest(strides);
        let inner = num_ranges(rest);
        lemma_fundamental_div_mod(k as int, inner as int);
        lemma_mod_bound(k as int, inner as int);
        let q = k / inner;
        let m = k % inner;
        assert(strides[0].0 == 1);
        assert(q == 0) by (nonlinear_arith)
            requires
                k == inner * q + m,
                m >= 0,
                k < 1 * inner,
                inner >= 1,
        ;
        assert forall|d: int| #![trigger rest[d]] 0 <= d < rest.len() implies !stride_active(rest, d) by {
            assert(rest[d] == strides[d + 1]);
        }
        lemma_range_start_fixed(first, rest, m);
        assert(first + q * strides[0].1 == first);
    }
}

/// Every byte range of a well-formed layout of a byte-aligned type, at
/// `base`, is one range of its start progression.
proof fn lemma_range_on_progression(l: LayoutModel, base: nat, k: nat)
    requires
        layout_well_formed(l),
        l.bits % 8 == 0,
        base <= u64::MAX,
        k < num_ranges(l.strides),
    ensures
        layout_progressions(l, base).len() == 1,
        exists|i: int|
            0 <= i < progression_len(layout_progressions(l, base)[0]) && #[trigger] progression_start(
                layout_progressions(l, base)[0],
                i,
            ) == base + raw_byte_range(l, k).0,
        layout_progressions(l, base)[0].num_bytes_per_range == raw_byte_range(l, k).1 - raw_byte_range(l, k).0,
{
    let bpe = l.bits / 8;
    assert(bpe >= 1 && bpe <= 8 && l.bits == 8 * bpe);
    let first = l.first_element;
    let strides = l.strides;
    let epr = l.elements_per_range;
    let sp = span(strides);
    let rs = range_start(first, strides, k);
    lemma_range_start_bounds(first, strides, k);
    assert(first + sp + epr <= usize::MAX);
    let n = strides.len() as int;
    let g = aligned_stride_gcd(strides, bpe, n);
    let p = layout_progressions(l, base)[0];
    // The bytes of the range are whole elements.
    assert(raw_byte_range(l, k).0 == rs * bpe) by {
        assert(rs * l.bits == 8 * (rs * bpe)) by (nonlinear_arith)
            requires
                l.bits == 8 * bpe,
        ;
        lemma_div_multiples_vanish((rs * bpe) as int, 8);
    }
    assert(raw_byte_range(l, k).1 == (rs + epr) * bpe) by {
        assert((rs + epr) * l.bits + 7 == 8 * ((rs + epr) * bpe) + 7) by (nonlinear_arith)
            requires
                l.bits == 8 * bpe,
        ;
        lemma_div_multiples_vanish_fancy(((rs + epr) * bpe) as int, 7, 8);
    }
    assert((rs + epr) * bpe - rs * bpe == epr * bpe) by (nonlinear_arith);
    assert(first * bpe <= 8 * first && sp * bpe <= 8 * sp && epr * bpe <= 8 * epr) by (nonlinear_arith)
        requires
            bpe <= 8,
    ;
    assert(p.first_start == base + first * bpe);
    assert((first + sp) * bpe == first * bpe + sp * bpe) by (nonlinear_arith);
    assert(p.last_start == base + first * bpe + sp * bpe);
    assert(p.num_bytes_per_range == epr * bpe);
    lemma_stride_gcd_at_most(strides, bpe, n);
    assert(p.stride == g);
    assert forall|d: int| 0 <= d < strides.len() implies (#[trigger] strides[d]).1 >= 1 by {
        assert(span(strides.skip(d + 1)) + epr < strides[d].1);
    }
    lemma_stride_gcd_divides(strides, bpe, n);
    if g == 0 {
        assert forall|d: int| #![trigger strides[d]] 0 <= d < strides.len() implies !stride_active(strides, d) by {}
        lemma_range_start_fixed(first, strides, k);
        assert(progression_start(p, 0) == base + raw_byte_range(l, k).0);
        assert(progression_len(p) == 1);
    } else {
        lemma_range_start_multiple(first, strides, k, g as int, bpe);
        let off = (rs - first) * bpe;
        lemma_quotient_of(off, g as int);
        let i = off / (g as int);
        assert(rs * bpe == first * bpe + off) by (nonlinear_arith)
            requires
                off == (rs - first) * bpe,
        ;
        assert(progression_start(p, i) == base + raw_byte_range(l, k).0);
        assert(off <= sp * bpe) by (nonlinear_arith)
            requires
                off == (rs - first) * bpe,
                rs <= first + sp,
                rs >= first,
        ;
        assert(off >= 0) by (nonlinear_arith)
            requires
                off == (rs - first) * bpe,
                rs >= first,
        ;
        lemma_div_is_ordered(off, (sp * bpe) as int, g as int);
        lemma_div_is_ordered(0, off, g as int);
        assert(progression_len(p) == (sp * bpe) as int / (g as int) + 1);
    }
}

/// Where no start progression of one well-formed layout meets one of
/// another, no byte range of the one shares an address with a byte range of
/// the other.
pub proof fn lemma_strides_disjoint_apart(a: LayoutModel, a_base: nat, b: LayoutModel, b_base: nat)
    requires
        layout_well_formed(a),
        layout_well_formed(b),
        a_base <= u64::MAX,
        b_base <= u64::MAX,
        strides_disjoint(a, a_base, b, b_base),
    ensures
        raw_ranges_apart(a, a_base as int, b, b_base as int),
{
    assert forall|i: nat, j: nat| i < num_ranges(a.strides) && j < num_ranges(b.strides) implies !spans_overlap(
        (a_base as int) + #[trigger] raw_byte_range(a, i).0,
        (a_base as int) + raw_byte_range(a, i).1,
        (b_base as int) + #[trigger] raw_byte_range(b, j).0,
        (b_base as int) + raw_byte_range(b, j).1,
    ) by {
        let ia = lemma_range_on_some_progression(a, a_base, i);
        let jb = lemma_range_on_some_progression(b, b_base, j);
        let pa = layout_progressions(a, a_base)[ia];
        let pb = layout_progressions(b, b_base)[jb];
        if spans_overlap(
            (a_base as int) + raw_byte_range(a, i).0,
            (a_base as int) + raw_byte_range(a, i).1,
            (b_base as int) + raw_byte_range(b, j).0,
            (b_base as int) + raw_byte_range(b, j).1,
        ) {
            let x = choose|x: int| 0 <= x < progression_len(pa) && #[trigger] progression_start(pa, x) == a_base + raw_byte_range(a, i).0;
            let y = choose|y: int| 0 <= y < progression_len(pb) && #[trigger] progression_start(pb, y) == b_base + raw_byte_range(b, j).0;
            assert(ranges_meet(progression_start(pa, x), pa.num_bytes_per_range as int, progression_start(pb, y), pb.num_bytes_per_range as int));
            assert(progressions_overlap(pa, pb));
        }
    }
}

/// The coordinate along dimension `d` of element `e` of a tensor.
pub open spec fn coordinate_of(tensor_dims: Seq<usize>, e: nat, d: int) -> nat {
    (e / element_stride(tensor_dims, d)) % (tensor_dims[d] as nat)
}

/// The product of the extents from `i` on is extent `i` times the product
/// of those after it.
proof fn lemma_suffix_product_step(t: Seq<usize>, i: int)
    requires
        0 <= i < t.len(),
    ensures
        seq_product(t.skip(i)) == (t[i] as nat) * seq_product(t.skip(i + 1)),
{
    lemma_product_first(t.skip(i));
    assert(t.skip(i).drop_first() =~= t.skip(i + 1));
}

/// Coordinates that agree on the first `m` dimensions have the same index
/// among them.
proof fn lemma_flat_index_prefix(t: Seq<usize>, y: Seq<usize>, z: Seq<usize>, m: int)
    requires
        0 <= m,
        forall|i: int| 0 <= i < m ==> y[i] == z[i],
    ensures
        flat_index(t, y, m) == flat_index(t, z, m),
    decreases m,
{
    if m > 0 {
        lemma_flat_index_prefix(t, y, z, m - 1);
    }
}

/// Changing one coordinate moves the index by the change times the stride
/// of that dimension among the first `k`.
proof fn lemma_flat_index_update(t: Seq<usize>, y: Seq<usize>, j: int, v: usize, k: int)
    requires
        0 <= j < k <= t.len(),
        y.len() == t.len(),
    ensures
        flat_index(t, y.update(j, v), k) + (y[j] as nat) * seq_product(t.subrange(j + 1, k)) == flat_index(t, y, k) + (v as nat)
            * seq_product(t.subrange(j + 1, k)),
    decreases k,
{
    let y2 = y.update(j, v);
    if k == j + 1 {
        lemma_flat_index_prefix(t, y, y2, j);
        assert(t.subrange(j + 1, k) =~= Seq::<usize>::empty());
        assert(seq_product(t.subrange(j + 1, k)) == 1);
        assert(flat_index(t, y2, k) == flat_index(t, y2, j) * (t[j] as nat) + (v as nat));
        assert(flat_index(t, y, k) == flat_index(t, y, j) * (t[j] as nat) + (y[j] as nat));
        let p = seq_product(t.subrange(j + 1, k));
        assert((y[j] as nat) * p == (y[j] as nat) && (v as nat) * p == (v as nat)) by (nonlinear_arith)
            requires
                p == 1,
        ;
    } else {
        lemma_flat_index_update(t, y, j, v, k - 1);
        assert(t.subrange(j + 1, k).drop_last() =~= t.subrange(j + 1, k - 1));
        let q = seq_product(t.subrange(j + 1, k - 1));
        let a2 = flat_index(t, y2, k - 1);
        let a = flat_index(t, y, k - 1);
        let tk = t[k - 1] as nat;
        let c = y[k - 1] as nat;
        assert(y2[k - 1] == y[k - 1]);
        assert((a2 * tk + c) + (y[j] as nat) * (q * tk) == (a * tk + c) + (v as nat) * (q * tk)) by (nonlinear_arith)
            requires
                a2 + (y[j] as nat) * q == a + (v as nat) * q,
        ;
        assert(flat_index(t, y2, k) == a2 * tk + c);
        assert(flat_index(t, y, k) == a * tk + c);
        assert(seq_product(t.subrange(j + 1, k)) == q * tk);
    }
}

/// Coordinates that are zero after dimension `c` index as the first `c + 1`
/// scaled by the product of the rest.
proof fn lemma_flat_index_zero_tail(t: Seq<usize>, z: Seq<usize>, c: int, m: int)
    requires
        0 <= c < m <= t.len(),
        forall|i: int| c < i < m ==> z[i] == 0,
    ensures
        flat_index(t, z, m) == flat_index(t, z, c + 1) * seq_product(t.subrange(c + 1, m)),
    decreases m,
{
    let f = flat_index(t, z, c + 1);
    if m == c + 1 {
        assert(t.subrange(c + 1, m) =~= Seq::<usize>::empty());
        assert(seq_product(t.subrange(c + 1, m)) == 1);
        let p = seq_product(t.subrange(c + 1, m));
        assert(f * p == f) by (nonlinear_arith)
            requires
                p == 1,
        ;
    } else {
        lemma_flat_index_zero_tail(t, z, c, m - 1);
        assert(t.subrange(c + 1, m).drop_last() =~= t.subrange(c + 1, m - 1));
        let q = seq_product(t.subrange(c + 1, m - 1));
        assert((f * q) * (t[m - 1] as nat) + 0 == f * (q * (t[m - 1] as nat))) by (nonlinear_arith);
        assert(z[m - 1] == 0);
        assert(flat_index(t, z, m) == flat_index(t, z, m - 1) * (t[m - 1] as nat) + (z[m - 1] as nat));
        assert(seq_product(t.subrange(c + 1, m)) == q * (t[m - 1] as nat));
    }
}

/// An element given by coordinates inside the tensor on its first `m`
/// dimensions, scaled by the product of the rest, plus less than that
/// product, has each of those coordinates.
proof fn lemma_coordinate_of_index(t: Seq<usize>, y: Seq<usize>, m: int, r0: nat, d: int)
    requires
        all_positive(t),
        0 <= d < m <= t.len(),
        forall|i: int| 0 <= i < m ==> y[i] < t[i],
        r0 < seq_product(t.skip(m)),
    ensures
        (flat_index(t, y, m) * seq_product(t.skip(m)) + r0) / seq_product(t.skip(d + 1)) == flat_index(t, y, d + 1),
        coordinate_of(t, flat_index(t, y, m) * seq_product(t.skip(m)) + r0, d) == y[d],
    decreases m,
{
    let e = flat_index(t, y, m) * seq_product(t.skip(m)) + r0;
    assert(all_positive(t.skip(d + 1)));
    lemma_product_positive(t.skip(d + 1));
    if m == d + 1 {
        lemma_div_multiples_vanish_fancy(flat_index(t, y, m) as int, r0 as int, seq_product(t.skip(m)) as int);
        assert(flat_index(t, y, m) * seq_product(t.skip(m)) == seq_product(t.skip(m)) * flat_index(t, y, m)) by (nonlinear_arith);
    } else {
        let pm = seq_product(t.skip(m));
        let pm1 = seq_product(t.skip(m - 1));
        lemma_suffix_product_step(t, m - 1);
        let f = flat_index(t, y, m - 1);
        let c = y[m - 1] as nat;
        let tk = t[m - 1] as nat;
        let r1 = c * pm + r0;
        assert(r1 < pm1) by (nonlinear_arith)
            requires
                r0 < pm,
                c < tk,
                pm1 == tk * pm,
                r1 == c * pm + r0,
        ;
        assert(e == f * pm1 + r1) by (nonlinear_arith)
            requires
                e == (f * tk + c) * pm + r0,
                pm1 == tk * pm,
                r1 == c * pm + r0,
        ;
        lemma_coordinate_of_index(t, y, m - 1, r1, d);
    }
    let g = flat_index(t, y, d + 1);
    assert(g == flat_index(t, y, d) * (t[d] as nat) + (y[d] as nat));
    lemma_mod_multiples_vanish(flat_index(t, y, d) as int, y[d] as int, t[d] as int);
    assert((t[d] as nat) * flat_index(t, y, d) == flat_index(t, y, d) * (t[d] as nat)) by (nonlinear_arith);
    lemma_small_mod(y[d] as nat, t[d] as nat);
}

/// The dimensions inside the contiguous inner block of a view cover the
/// tensor completely from offset zero.
proof fn lemma_contiguous_from(tensor_dims: Seq<usize>, dims: Seq<usize>, offsets: Seq<usize>, c: int)
    requires
        0 <= c < dims.len(),
    ensures
        0 <= contiguous_from(tensor_dims, dims, offsets, c) <= c,
        forall|i: int|
            contiguous_from(tensor_dims, dims, offsets, c) < i <= c ==> #[trigger] offsets[i] == 0 && dims[i] == tensor_dims[i],
    decreases c,
{
    if c > 0 && offsets[c] == 0 && dims[c] == tensor_dims[c] {
        lemma_contiguous_from(tensor_dims, dims, offsets, c - 1);
    }
}

/// Each range of a view starts at the element of some coordinates inside
/// the view on the dimensions before its contiguous block, and at the view's
/// offsets from there on.
proof fn lemma_range_start_coordinates(v: ViewModel, j: int, y: Seq<usize>, k: nat)
    requires
        view_valid(v),
        v.dims.len() >= 1,
        0 <= j <= contiguous_start(v),
        y.len() == v.dims.len(),
        forall|d: int| 0 <= d < j ==> v.offsets[d] <= #[trigger] y[d] < v.offsets[d] + v.dims[d],
        forall|d: int| j <= d < v.dims.len() ==> #[trigger] y[d] == v.offsets[d],
        k < num_ranges(layout_of(v).strides.skip(j)),
    ensures
        exists|z: Seq<usize>|
            z.len() == v.dims.len() && (forall|d: int| 0 <= d < contiguous_start(v) ==> v.offsets[d] <= #[trigger] z[d] < v.offsets[d]
                + v.dims[d]) && (forall|d: int| contiguous_start(v) <= d < v.dims.len() ==> #[trigger] z[d] == v.offsets[d])
                && range_start(flat_index(v.tensor.dims, y, v.dims.len() as int), layout_of(v).strides.skip(j), k) == flat_index(
                v.tensor.dims,
                z,
                v.dims.len() as int,
            ),
    decreases contiguous_start(v) - j,
{
    let t = v.tensor.dims;
    let n = v.dims.len() as int;
    let c = contiguous_start(v);
    let l = layout_of(v);
    lemma_contiguous_from(t, v.dims, v.offsets, n - 1);
    let s = l.strides.skip(j);
    let f = flat_index(t, y, n);
    if j == c {
        assert(s =~= Seq::<(nat, nat)>::empty());
        assert(range_start(f, s, k) == f);
        assert(y.len() == v.dims.len() && (forall|d: int| 0 <= d < c ==> v.offsets[d] <= #[trigger] y[d] < v.offsets[d] + v.dims[d])
            && (forall|d: int| c <= d < v.dims.len() ==> #[trigger] y[d] == v.offsets[d]) && range_start(f, s, k) == flat_index(t, y, n));
    } else {
        let rest = s.drop_first();
        assert(rest =~= l.strides.skip(j + 1));
        assert(s[0] == (v.dims[j] as nat, element_stride(t, j)));
        assert(all_positive(v.dims));
        assert forall|d: int| 0 <= d < rest.len() implies (#[trigger] rest[d]).0 >= 1 by {
            assert(rest[d] == l.strides[j + 1 + d]);
        }
        lemma_num_ranges_positive(rest);
        let inner = num_ranges(rest);
        let e = element_stride(t, j);
        lemma_fundamental_div_mod(k as int, inner as int);
        lemma_mod_bound(k as int, inner as int);
        let q = k / inner;
        let m = k % inner;
        assert(q < v.dims[j]) by (nonlinear_arith)
            requires
                k == inner * q + m,
                m >= 0,
                k < (v.dims[j] as nat) * inner,
                inner >= 1,
        ;
        assert(range_start(f, s, k) == range_start(f + q * e, rest, m));
        assert(v.offsets[j] + v.dims[j] <= t[j]);
        let y2 = y.update(j, (v.offsets[j] + q) as usize);
        lemma_flat_index_update(t, y, j, (v.offsets[j] + q) as usize, n);
        assert(t.subrange(j + 1, n) =~= t.skip(j + 1));
        assert((y[j] as nat) * e + q * e == ((v.offsets[j] + q) as usize as nat) * e) by (nonlinear_arith)
            requires
                y[j] == v.offsets[j],
                ((v.offsets[j] + q) as usize as nat) == v.offsets[j] + q,
        ;
        assert(flat_index(t, y2, n) == f + q * e);
        lemma_range_start_coordinates(v, j + 1, y2, m);
    }
}

/// Every element of every range of a view has each of its coordinates
/// inside the view.
proof fn lemma_range_element_coordinates(v: ViewModel, k: nat, r: nat, d: int)
    requires
        view_valid(v),
        k < num_ranges(layout_of(v).strides),
        r < layout_of(v).elements_per_range,
        0 <= d < v.dims.len(),
    ensures
        v.offsets[d] <= coordinate_of(
            v.tensor.dims,
            range_start(layout_of(v).first_element, layout_of(v).strides, k) + r,
            d,
        ) < v.offsets[d] + v.dims[d],
{
    let t = v.tensor.dims;
    let n = v.dims.len() as int;
    let o = v.offsets;
    let c = contiguous_start(v);
    let l = layout_of(v);
    lemma_contiguous_from(t, v.dims, o, n - 1);
    assert(all_positive(t));
    assert(l.strides.skip(0) =~= l.strides);
    lemma_range_start_coordinates(v, 0, o, k);
    let z = choose|z: Seq<usize>|
        z.len() == v.dims.len() && (forall|d: int| 0 <= d < c ==> o[d] <= #[trigger] z[d] < o[d] + v.dims[d]) && (forall|d: int|
            c <= d < v.dims.len() ==> #[trigger] z[d] == o[d]) && range_start(flat_index(t, o, n), l.strides.skip(0), k)
            == flat_index(t, z, n);
    let big_e = seq_product(t.skip(c + 1));
    lemma_product_positive(t.skip(c + 1));
    let e = range_start(l.first_element, l.strides, k) + r;
    assert(e == flat_index(t, z, n) + r);
    assert forall|i: int| c < i < n implies z[i] == 0 by {
        assert(z[i] == o[i]);
    }
    lemma_flat_index_zero_tail(t, z, c, n);
    assert(t.subrange(c + 1, n) =~= t.skip(c + 1));
    // The elements of a range: the contiguous block from dimension `c` on.
    lemma_product_first(v.dims.skip(c));
    assert(v.dims.skip(c).drop_first() =~= t.skip(c + 1));
    assert(l.elements_per_range == (v.dims[c] as nat) * big_e);
    lemma_fundamental_div_mod(r as int, big_e as int);
    lemma_mod_bound(r as int, big_e as int);
    let r1 = r / big_e;
    let r0 = r % big_e;
    assert(r1 < v.dims[c]) by (nonlinear_arith)
        requires
            r == big_e * r1 + r0,
            r0 >= 0,
            r < (v.dims[c] as nat) * big_e,
            big_e >= 1,
    ;
    assert(o[c] + v.dims[c] <= t[c]);
    let z2 = z.update(c, (o[c] + r1) as usize);
    lemma_flat_index_update(t, z, c, (o[c] + r1) as usize, c + 1);
    assert(t.subrange(c + 1, c + 1) =~= Seq::<usize>::empty());
    let f = flat_index(t, z, c + 1);
    let f2 = flat_index(t, z2, c + 1);
    let p1 = seq_product(t.subrange(c + 1, c + 1));
    assert(p1 == 1);
    assert(z[c] == o[c]);
    assert(((o[c] + r1) as usize) as nat == o[c] + r1);
    assert(f2 == f + r1) by (nonlinear_arith)
        requires
            f2 + (z[c] as nat) * p1 == f + (((o[c] + r1) as usize) as nat) * p1,
            p1 == 1,
            z[c] == o[c],
            (((o[c] + r1) as usize) as nat) == o[c] + r1,
    ;
    assert(e == f2 * big_e + r0) by (nonlinear_arith)
        requires
            e == f * big_e + r,
            r == big_e * r1 + r0,
            f2 == f + r1,
    ;
    if d <= c {
        assert forall|i: int| 0 <= i < c + 1 implies z2[i] < t[i] by {
            if i < c {
                assert(o[i] + v.dims[i] <= t[i]);
            }
        }
        lemma_coordinate_of_index(t, z2, c + 1, r0, d);
        if d < c {
            assert(z2[d] == z[d]);
        }
    } else {
        lemma_mod_bound((e / element_stride(t, d)) as int, t[d] as int);
        assert(o[d] == 0 && v.dims[d] == t[d]);
    }
}

/// The bytes of a range of a layout of a byte-aligned type are whole
/// elements.
proof fn lemma_aligned_raw_range(l: LayoutModel, k: nat)
    requires
        l.bits % 8 == 0,
    ensures
        raw_byte_range(l, k).0 == range_start(l.first_element, l.strides, k) * (l.bits / 8),
        raw_byte_range(l, k).1 == (range_start(l.first_element, l.strides, k) + l.elements_per_range) * (l.bits / 8),
{
    let bpe = l.bits / 8;
    let rs = range_start(l.first_element, l.strides, k);
    let epr = l.elements_per_range;
    assert(rs * l.bits == 8 * (rs * bpe)) by (nonlinear_arith)
        requires
            l.bits == 8 * bpe,
    ;
    lemma_div_multiples_vanish((rs * bpe) as int, 8);
    assert((rs + epr) * l.bits + 7 == 8 * ((rs + epr) * bpe) + 7) by (nonlinear_arith)
        requires
            l.bits == 8 * bpe,
    ;
    lemma_div_multiples_vanish_fancy(((rs + epr) * bpe) as int, 7, 8);
}

/// Views of one tensor of a byte-aligned type whose regions are apart in
/// some dimension have no byte range in common.
pub proof fn lemma_coordinates_disjoint_apart(a: ViewModel, b: ViewModel)
    requires
        view_valid(a),
        view_valid(b),
        coordinates_disjoint(a, b),
    ensures
        raw_ranges_apart(layout_of(a), a.tensor.addr as int, layout_of(b), b.tensor.addr as int),
{
    let la = layout_of(a);
    let lb = layout_of(b);
    let base = a.tensor.addr as int;
    let bpe = la.bits / 8;
    assert(bpe >= 1) by {
        assert(bits_of(a.tensor.dtype) >= 4);
    }
    let dd = choose|d: int|
        0 <= d < a.dims.len() && d < b.dims.len() && (a.offsets[d] + a.dims[d] <= b.offsets[d] || b.offsets[d] + b.dims[d]
            <= #[trigger] a.offsets[d]);
    lemma_contiguous_from(a.tensor.dims, a.dims, a.offsets, a.dims.len() - 1);
    lemma_contiguous_from(b.tensor.dims, b.dims, b.offsets, b.dims.len() - 1);
    assert(all_positive(a.dims.skip(contiguous_start(a)))) by {
        assert forall|i: int| 0 <= i < a.dims.skip(contiguous_start(a)).len() implies a.dims.skip(contiguous_start(a))[i] > 0 by {
            assert(a.dims.skip(contiguous_start(a))[i] == a.dims[contiguous_start(a) + i]);
        }
    }
    assert(all_positive(b.dims.skip(contiguous_start(b)))) by {
        assert forall|i: int| 0 <= i < b.dims.skip(contiguous_start(b)).len() implies b.dims.skip(contiguous_start(b))[i] > 0 by {
            assert(b.dims.skip(contiguous_start(b))[i] == b.dims[contiguous_start(b) + i]);
        }
    }
    lemma_product_positive(a.dims.skip(contiguous_start(a)));
    lemma_product_positive(b.dims.skip(contiguous_start(b)));
    assert forall|i: nat, j: nat| i < num_ranges(la.strides) && j < num_ranges(lb.strides) implies !spans_overlap(
        (a.tensor.addr as int) + #[trigger] raw_byte_range(la, i).0,
        (a.tensor.addr as int) + raw_byte_range(la, i).1,
        (b.tensor.addr as int) + #[trigger] raw_byte_range(lb, j).0,
        (b.tensor.addr as int) + raw_byte_range(lb, j).1,
    ) by {
        lemma_aligned_raw_range(la, i);
        lemma_aligned_raw_range(lb, j);
        let sa = range_start(la.first_element, la.strides, i);
        let sb = range_start(lb.first_element, lb.strides, j);
        let ea = la.elements_per_range;
        let eb = lb.elements_per_range;
        if spans_overlap(
            base + raw_byte_range(la, i).0,
            base + raw_byte_range(la, i).1,
            base + raw_byte_range(lb, j).0,
            base + raw_byte_range(lb, j).1,
        ) {
            assert(sa < sb + eb && sb < sa + ea) by (nonlinear_arith)
                requires
                    sa * bpe < (sb + eb) * bpe,
                    sb * bpe < (sa + ea) * bpe,
                    bpe >= 1,
            ;
            let e: nat = if sa >= sb { sa } else { sb };
            lemma_range_element_coordinates(a, i, (e - sa) as nat, dd);
            lemma_range_element_coordinates(b, j, (e - sb) as nat, dd);
            assert(sa + (e - sa) as nat == e);
            assert(sb + (e - sb) as nat == e);
        }
    }
}

/// Element `e` of a view's tensor lies inside the view: it is an element of
/// the tensor and each of its coordinates lies in the view's region.
pub open spec fn in_view(v: ViewModel, e: nat) -> bool {
    &&& e < seq_product(v.tensor.dims)
    &&& forall|d: int|
        0 <= d < v.dims.len() ==> v.offsets[d] <= #[trigger] coordinate_of(v.tensor.dims, e, d) < v.offsets[d] + v.dims[d]
}

/// Byte `y` holds a bit of element `e`, where elements have `bits` bits.
pub open spec fn holds_bit_of(y: nat, e: nat, bits: nat) -> bool {
    e * bits < 8 * y + 8 && 8 * y < (e + 1) * bits
}

/// Every byte of every byte range of a view holds a bit of an element of
/// the view.
proof fn lemma_range_bytes_hold_view_elements(v: ViewModel, k: nat, y: nat)
    requires
        view_valid(v),
        k < num_ranges(layout_of(v).strides),
        raw_byte_range(layout_of(v), k).0 <= y < raw_byte_range(layout_of(v), k).1,
    ensures
        exists|e: nat| in_view(v, e) && holds_bit_of(y, e, bits_of(v.tensor.dtype)),
{
    let l = layout_of(v);
    let bits = l.bits;
    let rs = range_start(l.first_element, l.strides, k);
    let epr = l.elements_per_range;
    lemma_layout_well_formed(v);
    lemma_range_start_bounds(l.first_element, l.strides, k);
    assert(epr >= 1);
    let e: nat = if bits % 8 == 0 {
        let bpe = bits / 8;
        lemma_aligned_raw_range(l, k);
        (y / bpe) as nat
    } else {
        if 2 * y >= rs { 2 * y } else { 2 * y + 1 }
    };
    if bits % 8 == 0 {
        let bpe = bits / 8;
        assert(bpe >= 1);
        lemma_fundamental_div_mod(y as int, bpe as int);
        lemma_mod_bound(y as int, bpe as int);
        assert(rs <= e < rs + epr && e * bits < 8 * y + 8 && 8 * y < (e + 1) * bits) by (nonlinear_arith)
            requires
                rs * bpe <= y < (rs + epr) * bpe,
                y == bpe * e + y % bpe,
                0 <= y % bpe < bpe,
                bits == 8 * bpe,
                bpe >= 1,
        ;
    } else {
        assert(bits == 4);
        let lo = raw_byte_range(l, k).0;
        let hi = raw_byte_range(l, k).1;
        lemma_fundamental_div_mod((rs * 4) as int, 8);
        lemma_mod_bound((rs * 4) as int, 8);
        lemma_fundamental_div_mod(((rs + epr) * 4 + 7) as int, 8);
        lemma_mod_bound(((rs + epr) * 4 + 7) as int, 8);
        assert(rs <= e < rs + epr && e * bits < 8 * y + 8 && 8 * y < (e + 1) * bits) by (nonlinear_arith)
            requires
                rs * 4 == 8 * lo + (rs * 4) % 8,
                0 <= (rs * 4) % 8 < 8,
                (rs + epr) * 4 + 7 == 8 * hi + ((rs + epr) * 4 + 7) % 8,
                0 <= ((rs + epr) * 4 + 7) % 8 < 8,
                lo <= y < hi,
                e == if 2 * y >= rs { 2 * y } else { 2 * y + 1 },
                bits == 4,
                epr >= 1,
        ;
    }
    assert forall|d: int| 0 <= d < v.dims.len() implies v.offsets[d] <= #[trigger] coordinate_of(v.tensor.dims, e, d) < v.offsets[d]
        + v.dims[d] by {
        lemma_range_element_coordinates(v, k, (e - rs) as nat, d);
        assert(rs + (e - rs) as nat == e);
    }
    assert(in_view(v, e));
}

/// The coordinates of element `e` of a tensor.
spec fn coordinates(t: Seq<usize>, e: nat) -> Seq<usize> {
    Seq::new(t.len(), |d: int| coordinate_of(t, e, d) as usize)
}

/// An element of a tensor is the index of its coordinates on the first `m`
/// dimensions, scaled by the product of the rest, plus its remainder by
/// that product.
proof fn lemma_index_decomposition(t: Seq<usize>, e: nat, m: int)
    requires
        all_positive(t),
        0 <= m <= t.len(),
        e < seq_product(t),
    ensures
        seq_product(t.skip(m)) >= 1,
        e == flat_index(t, coordinates(t, e), m) * seq_product(t.skip(m)) + e % seq_product(t.skip(m)),
    decreases m,
{
    assert(all_positive(t.skip(m))) by {
        assert forall|i: int| 0 <= i < t.skip(m).len() implies t.skip(m)[i] > 0 by {
            assert(t.skip(m)[i] == t[m + i]);
        }
    }
    lemma_product_positive(t.skip(m));
    let p = seq_product(t.skip(m));
    if m == 0 {
        assert(t.skip(0) =~= t);
        lemma_small_mod(e, p);
        assert(flat_index(t, coordinates(t, e), 0) == 0);
        assert(0 * p + e == e) by (nonlinear_arith);
    } else {
        lemma_index_decomposition(t, e, m - 1);
        lemma_suffix_product_step(t, m - 1);
        let p1 = seq_product(t.skip(m - 1));
        let tk = t[m - 1] as nat;
        lemma_mod_breakdown(e as int, p as int, tk as int);
        assert(p1 == p * tk) by (nonlinear_arith)
            requires
                p1 == tk * p,
        ;
        assert(element_stride(t, m - 1) == p);
        let x = coordinate_of(t, e, m - 1);
        lemma_mod_bound((e / p) as int, tk as int);
        assert(coordinates(t, e)[m - 1] as nat == x);
        let f = flat_index(t, coordinates(t, e), m - 1);
        assert(flat_index(t, coordinates(t, e), m) == f * tk + x);
        assert(e == (f * tk + x) * p + e % p) by (nonlinear_arith)
            requires
                e == f * p1 + e % p1,
                p1 == p * tk,
                e % p1 == p * x + e % p,
        ;
    }
}

/// The coordinates that a view's ranges start at, on the dimensions from
/// `j` on before the contiguous block: those of `x`, taken as the digits of
/// a range index.
spec fn range_index(v: ViewModel, x: Seq<usize>, j: int) -> nat
    decreases contiguous_start(v) - j,
{
    if j >= contiguous_start(v) || j < 0 {
        0
    } else {
        ((x[j] - v.offsets[j]) as nat) * num_ranges(layout_of(v).strides.skip(j + 1)) + range_index(v, x, j + 1)
    }
}

/// Coordinates `x` inside a view before its contiguous block, and the
/// view's offsets from `j` on: the coordinates a range walk reaches after
/// `j` strides.
spec fn walked(v: ViewModel, x: Seq<usize>, j: int) -> Seq<usize> {
    Seq::new(v.dims.len(), |d: int| if d < j { x[d] } else { v.offsets[d] })
}

/// The range whose index is made of the digits of coordinates inside a
/// view starts at the element of those coordinates before the contiguous
/// block and of the view's offsets from there on.
proof fn lemma_range_index_start(v: ViewModel, x: Seq<usize>, j: int)
    requires
        view_valid(v),
        v.dims.len() >= 1,
        0 <= j <= contiguous_start(v),
        x.len() == v.dims.len(),
        forall|d: int| 0 <= d < v.dims.len() ==> v.offsets[d] <= #[trigger] x[d] < v.offsets[d] + v.dims[d],
    ensures
        range_index(v, x, j) < num_ranges(layout_of(v).strides.skip(j)),
        range_start(
            flat_index(v.tensor.dims, walked(v, x, j), v.dims.len() as int),
            layout_of(v).strides.skip(j),
            range_index(v, x, j),
        ) == flat_index(v.tensor.dims, walked(v, x, contiguous_start(v)), v.dims.len() as int),
    decreases contiguous_start(v) - j,
{
    let t = v.tensor.dims;
    let n = v.dims.len() as int;
    let c = contiguous_start(v);
    let l = layout_of(v);
    lemma_contiguous_from(t, v.dims, v.offsets, n - 1);
    let s = l.strides.skip(j);
    if j == c {
        assert(s =~= Seq::<(nat, nat)>::empty());
    } else {
        lemma_range_index_start(v, x, j + 1);
        let rest = s.drop_first();
        assert(rest =~= l.strides.skip(j + 1));
        assert(s[0] == (v.dims[j] as nat, element_stride(t, j)));
        assert forall|d: int| 0 <= d < rest.len() implies (#[trigger] rest[d]).0 >= 1 by {
            assert(rest[d] == l.strides[j + 1 + d]);
        }
        lemma_num_ranges_positive(rest);
        let inner = num_ranges(rest);
        let q = (x[j] - v.offsets[j]) as nat;
        let k1 = range_index(v, x, j + 1);
        let k = range_index(v, x, j);
        assert(k == q * inner + k1);
        assert(q < v.dims[j]);
        assert(k < (v.dims[j] as nat) * inner) by (nonlinear_arith)
            requires
                k == q * inner + k1,
                k1 < inner,
                q < v.dims[j],
        ;
        assert(num_ranges(s) == (v.dims[j] as nat) * inner);
        vstd::arithmetic::div_mod::lemma_fundamental_div_mod_converse(k as int, inner as int, q as int, k1 as int);
        let f = flat_index(t, walked(v, x, j), n);
        let e = element_stride(t, j);
        assert(range_start(f, s, k) == range_start(f + q * e, rest, k1));
        let w = walked(v, x, j);
        assert(w[j] == v.offsets[j]);
        lemma_flat_index_update(t, w, j, x[j], n);
        assert(w.update(j, x[j]) =~= walked(v, x, j + 1));
        assert(t.subrange(j + 1, n) =~= t.skip(j + 1));
        assert((w[j] as nat) * e + q * e == (x[j] as nat) * e) by (nonlinear_arith)
            requires
                w[j] == v.offsets[j],
                q == x[j] - v.offsets[j],
        ;
    }
}

/// Every element of a view lies in one of its ranges.
proof fn lemma_view_element_in_range(v: ViewModel, e: nat) -> (kr: (nat, nat))
    requires
        view_valid(v),
        in_view(v, e),
    ensures
        kr.0 < num_ranges(layout_of(v).strides),
        kr.1 < layout_of(v).elements_per_range,
        e == range_start(layout_of(v).first_element, layout_of(v).strides, kr.0) + kr.1,
{
    let t = v.tensor.dims;
    let n = v.dims.len() as int;
    let o = v.offsets;
    let l = layout_of(v);
    assert(all_positive(t));
    let x = coordinates(t, e);
    assert forall|d: int| 0 <= d < n implies o[d] <= #[trigger] x[d] < o[d] + v.dims[d] by {
        assert(o[d] <= coordinate_of(t, e, d) < o[d] + v.dims[d]);
        assert(o[d] + v.dims[d] <= t[d]);
    }
    if n == 0 {
        assert(l.strides =~= Seq::<(nat, nat)>::empty());
        assert(seq_product(t) == 1);
        assert(l.first_element == 0);
        assert(v.dims.skip(0) =~= v.dims);
        assert(range_start(l.first_element, l.strides, 0) + e == e);
        assert(num_ranges(l.strides) == 1);
        assert(l.elements_per_range == seq_product(v.dims));
        assert(seq_product(v.dims) == 1);
        (0, e)
    } else {
        let c = contiguous_start(v);
        lemma_contiguous_from(t, v.dims, o, n - 1);
        lemma_range_index_start(v, x, 0);
        assert(walked(v, x, 0) =~= o);
        assert(l.strides.skip(0) =~= l.strides);
        let k = range_index(v, x, 0);
        let y = walked(v, x, c);
        let rs = range_start(l.first_element, l.strides, k);
        assert(rs == flat_index(t, y, n));
        // The start of the range, split at the contiguous block.
        assert forall|i: int| c < i < n implies y[i] == 0 by {}
        lemma_flat_index_zero_tail(t, y, c, n);
        assert(t.subrange(c + 1, n) =~= t.skip(c + 1));
        let p1 = seq_product(t.skip(c + 1));
        let p = seq_product(t.skip(c));
        lemma_suffix_product_step(t, c);
        lemma_flat_index_prefix(t, y, x, c);
        let fc = flat_index(t, x, c);
        assert(flat_index(t, y, c + 1) == fc * (t[c] as nat) + (o[c] as nat));
        // The element, split the same way.
        lemma_index_decomposition(t, e, c);
        lemma_index_decomposition(t, e, c + 1);
        lemma_mod_breakdown(e as int, p1 as int, t[c] as int);
        assert(element_stride(t, c) == p1);
        lemma_mod_bound((e / p1) as int, t[c] as int);
        lemma_mod_bound(e as int, p1 as int);
        let xc = x[c] as nat;
        assert(xc == coordinate_of(t, e, c));
        assert(p == (t[c] as nat) * p1);
        let r = ((xc - o[c]) * p1 + e % p1) as nat;
        assert(o[c] <= xc < o[c] + v.dims[c]);
        assert((p1 as int) * (t[c] as int) == p as int) by (nonlinear_arith)
            requires
                p == (t[c] as nat) * p1,
        ;
        assert(e % p == p1 * xc + e % p1);
        assert(e == rs + r) by (nonlinear_arith)
            requires
                e == fc * p + e % p,
                p == (t[c] as nat) * p1,
                e % p == p1 * xc + e % p1,
                rs == (fc * (t[c] as nat) + (o[c] as nat)) * p1,
                r == (xc - o[c]) * p1 + e % p1,
                o[c] <= xc,
        ;
        lemma_product_first(v.dims.skip(c));
        assert(v.dims.skip(c).drop_first() =~= t.skip(c + 1));
        assert(l.elements_per_range == (v.dims[c] as nat) * p1);
        assert(r < l.elements_per_range) by (nonlinear_arith)
            requires
                r == (xc - o[c]) * p1 + e % p1,
                e % p1 < p1,
                xc - o[c] < v.dims[c],
                o[c] <= xc,
                l.elements_per_range == (v.dims[c] as nat) * p1,
        ;
        (k, r)
    }
}

/// Every byte that holds a bit of an element of a view lies in one of its
/// byte ranges.
proof fn lemma_view_element_bytes_in_range(v: ViewModel, e: nat, y: nat) -> (k: nat)
    requires
        view_valid(v),
        in_view(v, e),
        holds_bit_of(y, e, bits_of(v.tensor.dtype)),
    ensures
        k < num_ranges(layout_of(v).strides),
        raw_byte_range(layout_of(v), k).0 <= y < raw_byte_range(layout_of(v), k).1,
{
    let l = layout_of(v);
    let (k, r) = lemma_view_element_in_range(v, e);
    let rs = range_start(l.first_element, l.strides, k);
    let epr = l.elements_per_range;
    let bits = l.bits;
    let lo = raw_byte_range(l, k).0;
    let hi = raw_byte_range(l, k).1;
    lemma_fundamental_div_mod((rs * bits) as int, 8);
    lemma_mod_bound((rs * bits) as int, 8);
    lemma_fundamental_div_mod(((rs + epr) * bits + 7) as int, 8);
    lemma_mod_bound(((rs + epr) * bits + 7) as int, 8);
    assert(lo <= y < hi) by (nonlinear_arith)
        requires
            rs * bits == 8 * lo + (rs * bits) % 8,
            0 <= (rs * bits) % 8 < 8,
            (rs + epr) * bits + 7 == 8 * hi + ((rs + epr) * bits + 7) % 8,
            0 <= ((rs + epr) * bits + 7) % 8 < 8,
            e == rs + r,
            r < epr,
            e * bits < 8 * y + 8,
            8 * y < (e + 1) * bits,
    ;
    k
}

/// The bytes of a view's byte ranges are exactly the bytes that hold a bit
/// of an element of the view.
pub proof fn lemma_range_bytes_are_view_element_bytes(v: ViewModel, y: nat)
    requires
        view_valid(v),
    ensures
        (exists|k: nat|
            #![trigger raw_byte_range(layout_of(v), k)]
            k < num_ranges(layout_of(v).strides) && raw_byte_range(layout_of(v), k).0 <= y < raw_byte_range(layout_of(v), k).1)
            <==> (exists|e: nat| #[trigger] in_view(v, e) && holds_bit_of(y, e, bits_of(v.tensor.dtype))),
{
    if exists|k: nat|
        #![trigger raw_byte_range(layout_of(v), k)]
        k < num_ranges(layout_of(v).strides) && raw_byte_range(layout_of(v), k).0 <= y < raw_byte_range(layout_of(v), k).1 {
        let k = choose|k: nat|
            #![trigger raw_byte_range(layout_of(v), k)]
            k < num_ranges(layout_of(v).strides) && raw_byte_range(layout_of(v), k).0 <= y < raw_byte_range(layout_of(v), k).1;
        lemma_range_bytes_hold_view_elements(v, k, y);
    }
    if exists|e: nat| #[trigger] in_view(v, e) && holds_bit_of(y, e, bits_of(v.tensor.dtype)) {
        let e = choose|e: nat| #[trigger] in_view(v, e) && holds_bit_of(y, e, bits_of(v.tensor.dtype));
        let k = lemma_view_element_bytes_in_range(v, e, y);
        assert(raw_byte_range(layout_of(v), k).0 <= y < raw_byte_range(layout_of(v), k).1);
    }
}

/// The ranges of the run that starts at range `k` touch one another.
proof fn lemma_run_touches(l: LayoutModel, k: nat, j: nat)
    requires
        k < num_ranges(l.strides),
        k <= j,
        j + 1 < run_end(l, k),
    ensures
        raw_byte_range(l, j + 1).0 <= raw_byte_range(l, j).1,
    decreases num_ranges(l.strides) - k,
{
    if !(k + 1 >= num_ranges(l.strides) || raw_byte_range(l, k + 1).0 > raw_byte_range(l, k).1) {
        if j > k {
            lemma_run_touches(l, k + 1, j);
        }
    }
}

/// A byte lies between the start of range `j` and the end of the last range
/// of the run that starts at `k` exactly when it lies in one of the ranges
/// `j..` of that run.
proof fn lemma_run_bytes(l: LayoutModel, k: nat, j: nat, y: nat)
    requires
        layout_well_formed(l),
        k < num_ranges(l.strides),
        k <= j < run_end(l, k),
    ensures
        (raw_byte_range(l, j).0 <= y < raw_byte_range(l, (run_end(l, k) - 1) as nat).1) <==> (exists|i: nat|
            #![trigger raw_byte_range(l, i)]
            j <= i < run_end(l, k) && raw_byte_range(l, i).0 <= y < raw_byte_range(l, i).1),
    decreases run_end(l, k) - j,
{
    lemma_run_end_after(l, k);
    let e = run_end(l, k);
    if j + 1 < e {
        lemma_run_bytes(l, k, j + 1, y);
        lemma_run_touches(l, k, j);
        lemma_raw_byte_ranges_ordered(l, j);
        lemma_raw_byte_ranges_ordered(l, j + 1);
        lemma_raw_range_before(l, j + 1, (e - 1) as nat);
        if exists|i: nat| #![trigger raw_byte_range(l, i)] j <= i < e && raw_byte_range(l, i).0 <= y < raw_byte_range(l, i).1 {
            let i = choose|i: nat| #![trigger raw_byte_range(l, i)] j <= i < e && raw_byte_range(l, i).0 <= y < raw_byte_range(l, i).1;
            if i > j {
                assert(j + 1 <= i < e && raw_byte_range(l, i).0 <= y < raw_byte_range(l, i).1);
            }
        }
        if raw_byte_range(l, j).0 <= y < raw_byte_range(l, (e - 1) as nat).1 {
            if y < raw_byte_range(l, j).1 {
                assert(j <= j < e && raw_byte_range(l, j).0 <= y < raw_byte_range(l, j).1);
            } else {
                let i = choose|i: nat|
                    #![trigger raw_byte_range(l, i)]
                    j + 1 <= i < e && raw_byte_range(l, i).0 <= y < raw_byte_range(l, i).1;
                assert(j <= i < e);
            }
        }
    }
}

/// Byte `y` lies in one of the merged byte ranges of a layout, walking its
/// runs from the run that starts at range `k`.
pub open spec fn in_merged_from(l: LayoutModel, k: nat, y: nat) -> bool
    decreases num_ranges(l.strides) - k,
{
    if k >= num_ranges(l.strides) {
        false
    } else {
        proof {
            lemma_run_end_after(l, k);
        }
        (raw_byte_range(l, k).0 <= y < raw_byte_range(l, (run_end(l, k) - 1) as nat).1) || in_merged_from(l, run_end(l, k), y)
    }
}

/// The merged byte ranges from the run that starts at range `k` hold
/// exactly the bytes of the ranges from `k` on.
proof fn lemma_merged_bytes(l: LayoutModel, k: nat, y: nat)
    requires
        layout_well_formed(l),
    ensures
        in_merged_from(l, k, y) <==> (exists|i: nat|
            #![trigger raw_byte_range(l, i)]
            k <= i < num_ranges(l.strides) && raw_byte_range(l, i).0 <= y < raw_byte_range(l, i).1),
    decreases num_ranges(l.strides) - k,
{
    if k < num_ranges(l.strides) {
        lemma_run_end_after(l, k);
        let e = run_end(l, k);
        lemma_merged_bytes(l, e, y);
        lemma_run_bytes(l, k, k, y);
        if exists|i: nat| #![trigger raw_byte_range(l, i)] k <= i < num_ranges(l.strides) && raw_byte_range(l, i).0 <= y < raw_byte_range(l, i).1 {
            let i = choose|i: nat|
                #![trigger raw_byte_range(l, i)]
                k <= i < num_ranges(l.strides) && raw_byte_range(l, i).0 <= y < raw_byte_range(l, i).1;
            if i < e {
                assert(k <= i < e && raw_byte_range(l, i).0 <= y < raw_byte_range(l, i).1);
            } else {
                assert(e <= i < num_ranges(l.strides) && raw_byte_range(l, i).0 <= y < raw_byte_range(l, i).1);
            }
        }
    }
}

/// The merged byte ranges of a view, the ranges its layout yields, hold
/// exactly the bytes that hold a bit of an element of the view.
pub proof fn lemma_merged_bytes_are_view_element_bytes(v: ViewModel, y: nat)
    requires
        view_valid(v),
    ensures
        in_merged_from(layout_of(v), 0, y) <==> (exists|e: nat| #[trigger] in_view(v, e) && holds_bit_of(y, e, bits_of(v.tensor.dtype))),
{
    lemma_layout_well_formed(v);
    lemma_merged_bytes(layout_of(v), 0, y);
    lemma_range_bytes_are_view_element_bytes(v, y);
}

/// A positive multiple of `g` is at least `g`.
proof fn lemma_divisor_at_most(x: int, g: int)
    requires
        g > 0,
        x > 0,
        x % g == 0,
    ensures
        g <= x,
{
    lemma_quotient_of(x, g);
    let t = x / g;
    assert(g <= x) by (nonlinear_arith)
        requires
            x == g * t,
            x > 0,
            g > 0,
    ;
}

/// The smallest odd repeating stride is odd, at most every odd repeating
/// stride and at most the span; where there is none, every repeating stride
/// is even.
proof fn lemma_smallest_odd(s: Seq<(nat, nat)>, k: int)
    requires
        0 <= k <= s.len(),
        forall|d: int| 0 <= d < s.len() ==> (#[trigger] s[d]).0 >= 1,
    ensures
        match smallest_odd_stride(s, k) {
            Some(o) => o % 2 == 1 && o <= span(s) && forall|d: int|
                #![trigger s[d]]
                0 <= d < k && stride_active(s, d) && s[d].1 % 2 == 1 ==> o <= s[d].1,
            None => forall|d: int| #![trigger s[d]] 0 <= d < k && stride_active(s, d) ==> s[d].1 % 2 == 0,
        },
    decreases k,
{
    if k > 0 {
        lemma_smallest_odd(s, k - 1);
        if stride_active(s, k - 1) && s[k - 1].1 % 2 == 1 {
            lemma_active_stride_in_span(s, k - 1);
        }
    }
}

/// The divisor of the halves of the even repeating strides divides each of
/// them, is positive where one repeats, and is at most the span.
proof fn lemma_even_half_gcd(s: Seq<(nat, nat)>, k: int)
    requires
        0 <= k <= s.len(),
        forall|d: int| 0 <= d < s.len() ==> (#[trigger] s[d]).0 >= 1,
        forall|d: int| 0 <= d < s.len() ==> (#[trigger] s[d]).1 >= 1,
    ensures
        even_half_gcd(s, k) <= span(s),
        forall|d: int|
            #![trigger s[d]]
            0 <= d < k && stride_active(s, d) && s[d].1 % 2 == 0 ==> even_half_gcd(s, k) > 0 && ((s[d].1 / 2) as int) % (
            even_half_gcd(s, k) as int) == 0,
    decreases k,
{
    if k > 0 {
        lemma_even_half_gcd(s, k - 1);
        let prev = even_half_gcd(s, k - 1);
        if stride_active(s, k - 1) && s[k - 1].1 % 2 == 0 {
            let h = s[k - 1].1 / 2;
            assert(h >= 1);
            lemma_active_stride_in_span(s, k - 1);
            lemma_gcd_divides(prev, h);
            lemma_gcd_at_most(prev, h);
            let g = even_half_gcd(s, k);
            assert forall|d: int|
                #![trigger s[d]]
                0 <= d < k && stride_active(s, d) && s[d].1 % 2 == 0 implies g > 0 && ((s[d].1 / 2) as int) % (g as int) == 0 by {
                if d < k - 1 {
                    lemma_divides_trans((s[d].1 / 2) as int, prev as int, g as int);
                }
            }
        }
    }
}

/// Folding the half differences of the odd repeating strides from `odd`
/// into a positive divisor keeps it positive, dividing what it started
/// from and each half difference.
proof fn lemma_odd_half_difference_gcd(s: Seq<(nat, nat)>, odd: nat, acc: nat, k: int)
    requires
        0 <= k <= s.len(),
        acc > 0,
    ensures
        odd_half_difference_gcd(s, odd, acc, k) > 0,
        (acc as int) % (odd_half_difference_gcd(s, odd, acc, k) as int) == 0,
        forall|d: int|
            #![trigger s[d]]
            0 <= d < k && stride_active(s, d) && s[d].1 % 2 == 1 && s[d].1 != odd ==> ((if s[d].1 > odd {
                (s[d].1 - odd) as nat
            } else {
                (odd - s[d].1) as nat
            } / 2) as int) % (odd_half_difference_gcd(s, odd, acc, k) as int) == 0,
    decreases k,
{
    if k == 0 {
        lemma_multiple_of(acc as int, acc as int, 1);
    } else {
        lemma_odd_half_difference_gcd(s, odd, acc, k - 1);
        let before = odd_half_difference_gcd(s, odd, acc, k - 1);
        let sk = s[k - 1].1;
        if stride_active(s, k - 1) && sk % 2 == 1 && sk != odd {
            let diff: nat = if sk > odd { (sk - odd) as nat } else { (odd - sk) as nat };
            lemma_gcd_divides(before, diff / 2);
            let g = odd_half_difference_gcd(s, odd, acc, k);
            lemma_divides_trans(acc as int, before as int, g as int);
            assert forall|d: int|
                #![trigger s[d]]
                0 <= d < k && stride_active(s, d) && s[d].1 % 2 == 1 && s[d].1 != odd implies ((if s[d].1 > odd {
                    (s[d].1 - odd) as nat
                } else {
                    (odd - s[d].1) as nat
                } / 2) as int) % (g as int) == 0 by {
                if d < k - 1 {
                    let dd: nat = if s[d].1 > odd { (s[d].1 - odd) as nat } else { (odd - s[d].1) as nat };
                    lemma_divides_trans((dd / 2) as int, before as int, g as int);
                }
            }
        }
    }
}

/// Where every repeating stride is a multiple of `m` or `odd` more than
/// one, and twice `odd` is a multiple of `m`, the distance from a block's
/// first element to the start of each of its ranges is a multiple of `m`,
/// or `odd` more than one.
proof fn lemma_range_start_class(first: nat, s: Seq<(nat, nat)>, k: nat, m: int, odd: int) -> (bt: (bool, int))
    requires
        forall|d: int| 0 <= d < s.len() ==> (#[trigger] s[d]).0 >= 1,
        k < num_ranges(s),
        m > 0,
        odd >= 0,
        (2 * odd) % m == 0,
        forall|d: int|
            #![trigger s[d]]
            0 <= d < s.len() && stride_active(s, d) ==> (s[d].1 as int) % m == 0 || (s[d].1 >= odd && ((s[d].1 - odd) as int) % m
                == 0),
    ensures
        range_start(first, s, k) >= first,
        bt.1 >= 0,
        range_start(first, s, k) - first == (if bt.0 { odd } else { 0 }) + m * bt.1,
    decreases s.len(),
{
    if s.len() == 0 {
        assert(m * 0 == 0) by (nonlinear_arith);
        (false, 0)
    } else {
        let rest = s.drop_first();
        lemma_counts_rest(s);
        let inner = num_ranges(rest);
        let count = s[0].0;
        let s0 = s[0].1;
        lemma_fundamental_div_mod(k as int, inner as int);
        lemma_mod_bound(k as int, inner as int);
        let q = k / inner;
        let mm = k % inner;
        assert(q < count) by (nonlinear_arith)
            requires
                k == inner * q + mm,
                mm >= 0,
                k < count * inner,
                inner >= 1,
        ;
        assert forall|d: int|
            #![trigger rest[d]]
            0 <= d < rest.len() && stride_active(rest, d) implies (rest[d].1 as int) % m == 0 || (rest[d].1 >= odd && ((rest[d].1
                - odd) as int) % m == 0) by {
            assert(rest[d] == s[d + 1]);
        }
        let next = first + q * s0;
        let (b1, t1) = lemma_range_start_class(next, rest, mm, m, odd);
        let rs = range_start(first, s, k);
        assert(rs == range_start(next, rest, mm));
        let x = (q * s0) as int;
        lemma_quotient_of(2 * odd, m);
        let w = (2 * odd) / m;
        assert(w >= 0) by (nonlinear_arith)
            requires
                2 * odd == m * w,
                m > 0,
                odd >= 0,
        ;
        let (bx, tx): (bool, int) = if !stride_active(s, 0) {
            assert(q == 0);
            assert(x == 0) by (nonlinear_arith)
                requires
                    q == 0,
                    x == q * s0,
            ;
            (false, 0)
        } else if (s0 as int) % m == 0 {
            lemma_quotient_of(s0 as int, m);
            let u = (s0 as int) / m;
            assert(x == m * (q * u) && q * u >= 0) by (nonlinear_arith)
                requires
                    s0 == m * u,
                    x == q * s0,
                    m > 0,
                    s0 >= 0,
            ;
            (false, q * u)
        } else {
            lemma_quotient_of((s0 - odd) as int, m);
            let u = ((s0 - odd) as int) / m;
            lemma_fundamental_div_mod(q as int, 2);
            lemma_mod_bound(q as int, 2);
            let h = q / 2;
            let b = q % 2;
            assert(u >= 0) by (nonlinear_arith)
                requires
                    s0 - odd == m * u,
                    s0 >= odd,
                    m > 0,
            ;
            assert(x == b * odd + m * (h * w + q * u)) by (nonlinear_arith)
                requires
                    s0 == odd + m * u,
                    x == q * s0,
                    q == 2 * h + b,
                    2 * odd == m * w,
            ;
            assert(h * w + q * u >= 0) by (nonlinear_arith)
                requires
                    h >= 0,
                    w >= 0,
                    q >= 0,
                    u >= 0,
            ;
            let tq = h * w + q * u;
            if b == 0 {
                assert(x == m * tq) by (nonlinear_arith)
                    requires
                        x == b * odd + m * tq,
                        b == 0,
                ;
                (false, h * w + q * u)
            } else {
                assert(x == odd + m * tq) by (nonlinear_arith)
                    requires
                        x == b * odd + m * tq,
                        b == 1,
                ;
                (true, h * w + q * u)
            }
        };
        assert(rs - first == x + (rs - next));
        if bx && b1 {
            assert(rs - first == m * (w + tx + t1)) by (nonlinear_arith)
                requires
                    rs - first == (odd + m * tx) + (odd + m * t1),
                    2 * odd == m * w,
            ;
            (false, w + tx + t1)
        } else {
            assert(rs - first == (if bx || b1 { odd } else { 0 }) + m * (tx + t1)) by (nonlinear_arith)
                requires
                    rs - first == ((if bx { odd } else { 0 }) + m * tx) + ((if b1 { odd } else { 0 }) + m * t1),
                    !(bx && b1),
            ;
            (bx || b1, tx + t1)
        }
    }
}

/// A range of a packed layout whose first element is `2 * g * t` past
/// `fe`, where `g` is the packed stride, is range `t` of the progression
/// from `fe`.
proof fn lemma_on_packed_progression(l: LayoutModel, base: nat, fe: nat, k: nat, t: int)
    requires
        layout_well_formed(l),
        l.bits == 4,
        base <= u64::MAX,
        k < num_ranges(l.strides),
        l.first_element <= fe,
        t >= 0,
        range_start(l.first_element, l.strides, k) == fe + 2 * packed_stride(l.strides) * t,
        range_start(l.first_element, l.strides, k) <= l.first_element + span(l.strides),
        packed_stride(l.strides) <= span(l.strides),
        packed_stride(l.strides) == 0 ==> t == 0,
    ensures
        0 <= t < progression_len(packed_progression(l, base, fe)),
        progression_start(packed_progression(l, base, fe), t) == base + raw_byte_range(l, k).0,
        packed_progression(l, base, fe).num_bytes_per_range == raw_byte_range(l, k).1 - raw_byte_range(l, k).0,
{
    let g = packed_stride(l.strides);
    let first = l.first_element;
    let sp = span(l.strides);
    let epr = l.elements_per_range;
    let rs = range_start(first, l.strides, k);
    let p = packed_progression(l, base, fe);
    assert(first + sp + epr <= usize::MAX);
    // Halving: rs is fe plus an even number.
    lemma_fundamental_div_mod(fe as int, 2);
    lemma_mod_bound(fe as int, 2);
    let fh = fe / 2;
    let fp = fe % 2;
    lemma_fundamental_div_mod(rs as int, 2);
    lemma_mod_bound(rs as int, 2);
    let gt = g * t;
    assert(2 * g * t == 2 * gt) by (nonlinear_arith)
        requires
            gt == g * t,
    ;
    assert(gt >= 0) by (nonlinear_arith)
        requires
            gt == g * t,
            t >= 0,
    ;
    vstd::arithmetic::div_mod::lemma_fundamental_div_mod_converse(rs as int, 2, fh + gt, fp as int);
    assert(rs / 2 == fh + g * t && rs % 2 == fp);
    // The bytes of a range of 4-bit elements.
    let lo = raw_byte_range(l, k).0;
    let hi = raw_byte_range(l, k).1;
    lemma_fundamental_div_mod((rs * 4) as int, 8);
    lemma_mod_bound((rs * 4) as int, 8);
    lemma_fundamental_div_mod(((rs + epr) * 4 + 7) as int, 8);
    lemma_mod_bound(((rs + epr) * 4 + 7) as int, 8);
    lemma_fundamental_div_mod((epr + fp + 1) as int, 2);
    lemma_mod_bound((epr + fp + 1) as int, 2);
    assert(lo == rs / 2 && hi - lo == (epr + fp + 1) / 2) by (nonlinear_arith)
        requires
            rs * 4 == 8 * lo + (rs * 4) % 8,
            0 <= (rs * 4) % 8 < 8,
            (rs + epr) * 4 + 7 == 8 * hi + ((rs + epr) * 4 + 7) % 8,
            0 <= ((rs + epr) * 4 + 7) % 8 < 8,
            rs == 2 * (rs / 2) + fp,
            0 <= fp < 2,
            epr + fp + 1 == 2 * ((epr + fp + 1) / 2) + (epr + fp + 1) % 2,
            0 <= (epr + fp + 1) % 2 < 2,
    ;
    assert(p.first_start == base + fh);
    assert(p.stride == g);
    assert(p.num_bytes_per_range == (epr + fp + 1) / 2);
    assert(progression_start(p, t) == base + fh + t * g);
    assert(t * g == g * t) by (nonlinear_arith);
    let upper = base + (first + sp) / 2;
    lemma_div_is_ordered(rs as int, (first + sp) as int, 2);
    if g == 0 {
        assert(p.last_start == p.first_start);
    } else {
        let span_h = upper - (base + fh);
        assert(span_h >= g * t);
        lemma_div_is_ordered(g * t, span_h, g as int);
        lemma_div_multiples_vanish(t, g as int);
        let c = span_h / (g as int);
        assert(c >= t);
        lemma_fundamental_div_mod(span_h, g as int);
        lemma_mod_bound(span_h, g as int);
        assert((g as int) * c <= span_h);
        assert(c * g == (g as int) * c) by (nonlinear_arith);
        assert(upper <= u64::MAX + usize::MAX);
        assert(p.last_start == base + fh + c * g);
        assert(c * g == (g as int) * c) by (nonlinear_arith);
        lemma_div_multiples_vanish(c, g as int);
        assert(progression_len(p) == c + 1);
    }
}

/// An odd repeating stride at least `odd`, with `odd` a multiple of `g`
/// and the half difference too, is `odd` plus a multiple of `2 * g`; an
/// even one whose half is a multiple of `g` is a multiple of `2 * g`.
proof fn lemma_stride_class(s: nat, odd: nat, g: int)
    requires
        g > 0,
        s % 2 == 0 ==> ((s / 2) as int) % g == 0,
        s % 2 == 1 ==> s >= odd && odd % 2 == 1 && (s == odd || (((s - odd) as nat / 2) as int) % g == 0),
    ensures
        (s as int) % (2 * g) == 0 || (s >= odd && ((s - odd) as int) % (2 * g) == 0),
{
    if s % 2 == 0 {
        lemma_quotient_of((s / 2) as int, g);
        let v = ((s / 2) as int) / g;
        assert(s == (2 * g) * v) by (nonlinear_arith)
            requires
                (s / 2) as int == g * v,
                s == 2 * (s / 2) + s % 2,
                s % 2 == 0,
        ;
        lemma_multiple_of(s as int, 2 * g, v);
    } else if s == odd {
        lemma_multiple_of(0, 2 * g, 0);
    } else {
        let diff = (s - odd) as nat;
        lemma_quotient_of((diff / 2) as int, g);
        let v = ((diff / 2) as int) / g;
        assert(diff % 2 == 0);
        assert(diff == (2 * g) * v) by (nonlinear_arith)
            requires
                (diff / 2) as int == g * v,
                diff == 2 * (diff / 2) + diff % 2,
                diff % 2 == 0,
        ;
        lemma_multiple_of(diff as int, 2 * g, v);
    }
}

/// The claim that byte range `k` of a layout at `base` is one range of
/// start progression `pi`.
spec fn on_progression(l: LayoutModel, base: nat, k: nat, pi: int) -> bool {
    &&& 0 <= pi < layout_progressions(l, base).len()
    &&& exists|i: int|
        0 <= i < progression_len(layout_progressions(l, base)[pi]) && #[trigger] progression_start(
            layout_progressions(l, base)[pi],
            i,
        ) == base + raw_byte_range(l, k).0
    &&& layout_progressions(l, base)[pi].num_bytes_per_range == raw_byte_range(l, k).1 - raw_byte_range(l, k).0
}

/// A range of a packed layout with an odd repeating stride lies on one of
/// its two progressions.
#[verifier::spinoff_prover]
proof fn lemma_packed_with_odd(l: LayoutModel, base: nat, k: nat, o: nat) -> (pi: int)
    requires
        layout_well_formed(l),
        l.bits == 4,
        base <= u64::MAX,
        k < num_ranges(l.strides),
        smallest_odd_stride(l.strides, l.strides.len() as int) == Some(o),
        forall|d: int| 0 <= d < l.strides.len() ==> (#[trigger] l.strides[d]).1 >= 1,
    ensures
        on_progression(l, base, k, pi),
{
    let s = l.strides;
    let n = s.len() as int;
    let first = l.first_element;
    lemma_range_start_bounds(first, s, k);
    lemma_smallest_odd(s, n);
    lemma_even_half_gcd(s, n);
    let ehg = even_half_gcd(s, n);
    let acc = gcd_spec(ehg, o);
    lemma_gcd_divides(ehg, o);
    lemma_odd_half_difference_gcd(s, o, acc, n);
    let g = packed_stride(s);
    assert(g == odd_half_difference_gcd(s, o, acc, n));
    lemma_divides_trans(o as int, acc as int, g as int);
    lemma_divisor_at_most(o as int, g as int);
    let m = 2 * (g as int);
    lemma_quotient_of(o as int, g as int);
    assert(2 * (o as int) == m * ((o as int) / (g as int))) by (nonlinear_arith)
        requires
            o as int == (g as int) * ((o as int) / (g as int)),
            m == 2 * (g as int),
    ;
    lemma_multiple_of(2 * (o as int), m, (o as int) / (g as int));
    assert forall|d: int|
        #![trigger s[d]]
        0 <= d < s.len() && stride_active(s, d) implies (s[d].1 as int) % m == 0 || (s[d].1 >= o && ((s[d].1 - o) as int) % m
            == 0) by {
        if s[d].1 % 2 == 0 {
            lemma_divides_trans(ehg as int, acc as int, g as int);
            lemma_divides_trans((s[d].1 / 2) as int, ehg as int, g as int);
        }
        lemma_stride_class(s[d].1, o, g as int);
    }
    let (b, t) = lemma_range_start_class(first, s, k, m, o as int);
    assert(2 * g * t == m * t) by (nonlinear_arith)
        requires
            m == 2 * (g as int),
    ;
    if b {
        lemma_on_packed_progression(l, base, first + o, k, t);
        assert(layout_progressions(l, base)[1] == packed_progression(l, base, first + o));
        1
    } else {
        lemma_on_packed_progression(l, base, first, k, t);
        assert(layout_progressions(l, base)[0] == packed_progression(l, base, first));
        0
    }
}

/// A range of a packed layout whose repeating strides are all even lies on
/// its one progression.
#[verifier::spinoff_prover]
proof fn lemma_packed_without_odd(l: LayoutModel, base: nat, k: nat)
    requires
        layout_well_formed(l),
        l.bits == 4,
        base <= u64::MAX,
        k < num_ranges(l.strides),
        smallest_odd_stride(l.strides, l.strides.len() as int) is None,
        forall|d: int| 0 <= d < l.strides.len() ==> (#[trigger] l.strides[d]).1 >= 1,
    ensures
        on_progression(l, base, k, 0),
{
    let s = l.strides;
    let n = s.len() as int;
    let first = l.first_element;
    lemma_range_start_bounds(first, s, k);
    lemma_smallest_odd(s, n);
    lemma_even_half_gcd(s, n);
    let g = even_half_gcd(s, n);
    assert(packed_stride(s) == g);
    assert(layout_progressions(l, base)[0] == packed_progression(l, base, first));
    if g == 0 {
        assert forall|d: int| #![trigger s[d]] 0 <= d < s.len() implies !stride_active(s, d) by {}
        lemma_range_start_fixed(first, s, k);
        lemma_on_packed_progression(l, base, first, k, 0);
    } else {
        let m = 2 * (g as int);
        lemma_multiple_of(0, m, 0);
        assert forall|d: int|
            #![trigger s[d]]
            0 <= d < s.len() && stride_active(s, d) implies (s[d].1 as int) % m == 0 || (s[d].1 >= 0 && ((s[d].1 - 0) as int) % m
                == 0) by {
            let sd = s[d].1;
            assert(sd % 2 == 0);
            lemma_quotient_of((sd / 2) as int, g as int);
            let v = ((sd / 2) as int) / (g as int);
            assert(sd == m * v) by (nonlinear_arith)
                requires
                    (sd / 2) as int == (g as int) * v,
                    sd == 2 * (sd / 2) + sd % 2,
                    sd % 2 == 0,
                    m == 2 * (g as int),
            ;
            lemma_multiple_of(sd as int, m, v);
        }
        let (b, t) = lemma_range_start_class(first, s, k, m, 0);
        assert(2 * g * t == m * t) by (nonlinear_arith)
            requires
                m == 2 * (g as int),
        ;
        lemma_on_packed_progression(l, base, first, k, t);
    }
}

/// Every byte range of a well-formed layout at `base` is one range of one
/// of its start progressions.
proof fn lemma_range_on_some_progression(l: LayoutModel, base: nat, k: nat) -> (pi: int)
    requires
        layout_well_formed(l),
        base <= u64::MAX,
        k < num_ranges(l.strides),
    ensures
        on_progression(l, base, k, pi),
{
    if l.bits % 8 == 0 {
        lemma_range_on_progression(l, base, k);
        0
    } else {
        assert(l.bits == 4);
        let s = l.strides;
        assert forall|d: int| 0 <= d < s.len() implies (#[trigger] s[d]).1 >= 1 by {
            assert(span(s.skip(d + 1)) + l.elements_per_range < s[d].1);
        }
        match smallest_odd_stride(s, s.len() as int) {
            Some(o) => lemma_packed_with_odd(l, base, k, o),
            None => {
                lemma_packed_without_odd(l, base, k);
                0
            },
        }
    }
}

} // verus!
