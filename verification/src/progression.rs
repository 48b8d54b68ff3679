//! Finite arithmetic progressions of range starts, and whether two of them
//! hold overlapping ranges.
use vstd::prelude::*;
use vstd::arithmetic::div_mod::{lemma_div_is_ordered, lemma_fundamental_div_mod, lemma_fundamental_div_mod_converse};

use crate::floor_sum::{checked_floor_sum, floor_sum, floor_term};

verus! {

/// A finite arithmetic progression of start bytes, each starting a range of
/// `num_bytes_per_range` bytes.
#[derive(Clone, Copy, Debug, PartialEq, Eq)]
pub struct ByteStartProgression {
    pub first_start: i128,
    pub last_start: i128,
    pub stride: i128,
    pub num_bytes_per_range: i128,
}

/// A progression runs forwards from its first start, holds non-empty
/// ranges, and a progression with no stride has a single start.
pub open spec fn progression_valid(p: ByteStartProgression) -> bool {
    &&& p.stride >= 0
    &&& p.num_bytes_per_range >= 1
    &&& p.first_start <= p.last_start
    &&& p.stride == 0 ==> p.last_start == p.first_start
}

/// The number of starts in a progression: those from the first start, one
/// stride apart, up to the last start.
pub open spec fn progression_len(p: ByteStartProgression) -> int {
    if p.stride == 0 {
        1
    } else {
        (p.last_start - p.first_start) / (p.stride as int) + 1
    }
}

/// Start `i` of a progression.
pub open spec fn progression_start(p: ByteStartProgression, i: int) -> int {
    p.first_start + i * p.stride
}

/// The ranges `a..a + na` and `b..b + nb` share a byte.
pub open spec fn ranges_meet(a: int, na: int, b: int, nb: int) -> bool {
    a < b + nb && b < a + na
}

/// Some range of the first progression shares a byte with some range of the
/// second.
pub open spec fn progressions_overlap(p: ByteStartProgression, q: ByteStartProgression) -> bool {
    exists|i: int, j: int|
        0 <= i < progression_len(p) && 0 <= j < progression_len(q) && #[trigger] ranges_meet(
            progression_start(p, i),
            p.num_bytes_per_range as int,
            progression_start(q, j),
            q.num_bytes_per_range as int,
        )
}

/// Some start of the progression lies in `lower..=upper`.
pub open spec fn has_start_between(p: ByteStartProgression, lower: int, upper: int) -> bool {
    exists|i: int| 0 <= i < progression_len(p) && lower <= #[trigger] progression_start(p, i) <= upper
}

/// The number of the first `n` starts of `q` that are at most `x`.
pub open spec fn starts_at_most(q: ByteStartProgression, x: int, n: nat) -> nat
    decreases n,
{
    if n == 0 {
        0
    } else {
        starts_at_most(q, x, (n - 1) as nat) + if progression_start(q, n - 1) <= x {
            1nat
        } else {
            0nat
        }
    }
}

/// The number of pairs of a start among the first `m` of `p` and a start of
/// `q` whose difference, second minus first, is at most `d`.
pub open spec fn pairs_at_most(p: ByteStartProgression, q: ByteStartProgression, d: int, m: nat) -> nat
    decreases m,
{
    if m == 0 {
        0
    } else {
        pairs_at_most(p, q, d, (m - 1) as nat) + starts_at_most(q, d + progression_start(p, m - 1), progression_len(q) as nat)
    }
}

/// The index of the first of `count` values, `first_value` and then one
/// `stride` apart, that is at least `target`; `count` if none is.
pub open spec fn index_at_least(first_value: int, stride: nat, target: int, count: nat) -> nat {
    if first_value >= target {
        0
    } else {
        let steps = ((target - first_value + stride - 1) / (stride as int)) as nat;
        if steps < count {
            steps
        } else {
            count
        }
    }
}

/// `v`, limited to `0..=n`.
pub open spec fn clamp(v: int, n: nat) -> nat {
    if v < 0 {
        0
    } else if v > n {
        n
    } else {
        v as nat
    }
}

/// The greatest common divisor.
pub open spec fn gcd_spec(a: nat, b: nat) -> nat
    decreases b,
{
    if b == 0 {
        a
    } else {
        gcd_spec(b, a % b)
    }
}

/// The greatest common divisor of two sizes.
pub fn gcd(first: usize, second: usize) -> (divisor: usize)
    ensures
        divisor == gcd_spec(first as nat, second as nat),
{
    let ghost g = gcd_spec(first as nat, second as nat);
    let mut a = first;
    let mut b = second;
    while b != 0
        invariant
            gcd_spec(a as nat, b as nat) == g,
        decreases b,
    {
        let rest = a % b;
        a = b;
        b = rest;
    }
    a
}

/// `k * t <= y` exactly when `k <= y / t`.
proof fn lemma_mul_le_iff(k: int, y: int, t: int)
    requires
        t > 0,
    ensures
        k * t <= y <==> k <= y / t,
{
    lemma_fundamental_div_mod(y, t);
    let q = y / t;
    let r = y % t;
    if k <= q {
        assert(k * t <= q * t) by (nonlinear_arith) requires k <= q, t > 0;
        assert(q * t <= y) by (nonlinear_arith) requires y == t * q + r, r >= 0;
    } else {
        assert(k * t >= (q + 1) * t) by (nonlinear_arith) requires k >= q + 1, t > 0;
        assert((q + 1) * t > y) by (nonlinear_arith) requires y == t * q + r, r < t;
    }
}

/// The starts of a progression lie between its first and last starts.
proof fn lemma_progression_bounds(p: ByteStartProgression, i: int)
    requires
        progression_valid(p),
        0 <= i < progression_len(p),
    ensures
        progression_len(p) >= 1,
        p.first_start <= progression_start(p, i) <= p.last_start,
{
    if p.stride > 0 {
        let span = p.last_start - p.first_start;
        lemma_mul_le_iff(i, span, p.stride as int);
        assert(i * p.stride >= 0) by (nonlinear_arith) requires i >= 0, p.stride > 0;
        vstd::arithmetic::div_mod::lemma_div_pos_is_pos(span, p.stride as int);
    } else {
        assert(i == 0);
    }
}

/// The starts of a progression that are at most `x`, in closed form.
proof fn lemma_starts_closed_form(q: ByteStartProgression, x: int, n: nat)
    requires
        q.stride > 0,
    ensures
        starts_at_most(q, x, n) == clamp((x - q.first_start) / (q.stride as int) + 1, n),
    decreases n,
{
    if n > 0 {
        lemma_starts_closed_form(q, x, (n - 1) as nat);
        lemma_mul_le_iff(n - 1, x - q.first_start, q.stride as int);
    }
}

/// Fewer starts lie at or below a lower bound, and strictly fewer exactly
/// when some start lies above it and at or below the higher bound.
proof fn lemma_starts_between(q: ByteStartProgression, lo: int, hi: int, n: nat)
    requires
        lo <= hi,
    ensures
        starts_at_most(q, lo, n) <= starts_at_most(q, hi, n),
        starts_at_most(q, lo, n) < starts_at_most(q, hi, n) <==> exists|j: int|
            0 <= j < n && lo < #[trigger] progression_start(q, j) <= hi,
    decreases n,
{
    if n > 0 {
        lemma_starts_between(q, lo, hi, (n - 1) as nat);
        let j = n - 1;
        if lo < progression_start(q, j) <= hi {
            assert(exists|k: int| 0 <= k < n && lo < #[trigger] progression_start(q, k) <= hi);
        }
        if exists|k: int| 0 <= k < n && lo < #[trigger] progression_start(q, k) <= hi {
            let k = choose|k: int| 0 <= k < n && lo < #[trigger] progression_start(q, k) <= hi;
            if k < n - 1 {
                assert(exists|m: int| 0 <= m < n - 1 && lo < #[trigger] progression_start(q, m) <= hi);
            }
        }
    }
}

/// The difference of start `j` of `q` and start `i` of `p` lies in
/// `lo + 1..=hi`.
pub open spec fn difference_between(p: ByteStartProgression, q: ByteStartProgression, lo: int, hi: int, i: int, j: int) -> bool {
    lo < progression_start(q, j) - progression_start(p, i) <= hi
}

/// Fewer pairs differ by at most a lower bound, and strictly fewer exactly
/// when some pair differs by more than it and at most the higher bound.
proof fn lemma_pairs_between(p: ByteStartProgression, q: ByteStartProgression, lo: int, hi: int, m: nat)
    requires
        lo <= hi,
        progression_len(q) >= 0,
    ensures
        pairs_at_most(p, q, lo, m) <= pairs_at_most(p, q, hi, m),
        pairs_at_most(p, q, lo, m) < pairs_at_most(p, q, hi, m) <==> exists|i: int, j: int|
            0 <= i < m && 0 <= j < progression_len(q) && #[trigger] difference_between(p, q, lo, hi, i, j),
    decreases m,
{
    if m > 0 {
        lemma_pairs_between(p, q, lo, hi, (m - 1) as nat);
        let i = m - 1;
        let n = progression_len(q) as nat;
        let s = progression_start(p, i);
        lemma_starts_between(q, lo + s, hi + s, n);
        if exists|j: int| 0 <= j < n && lo + s < #[trigger] progression_start(q, j) <= hi + s {
            let j = choose|j: int| 0 <= j < n && lo + s < #[trigger] progression_start(q, j) <= hi + s;
            assert(difference_between(p, q, lo, hi, i, j));
        }
        if exists|a: int, b: int| 0 <= a < m && 0 <= b < progression_len(q) && #[trigger] difference_between(p, q, lo, hi, a, b) {
            let (a, b) = choose|a: int, b: int| 0 <= a < m && 0 <= b < progression_len(q) && #[trigger] difference_between(p, q, lo, hi, a, b);
            if a == i {
                assert(lo + s < progression_start(q, b) <= hi + s);
            } else {
                assert(exists|a2: int, b2: int| 0 <= a2 < m - 1 && 0 <= b2 < progression_len(q) && #[trigger] difference_between(p, q, lo, hi, a2, b2));
            }
        }
    }
}

/// Two progressions overlap exactly when some pair of starts differs by
/// more than minus the second's range length and at most the first's range
/// length less one.
proof fn lemma_overlap_as_difference(p: ByteStartProgression, q: ByteStartProgression)
    ensures
        progressions_overlap(p, q) <==> exists|i: int, j: int|
            0 <= i < progression_len(p) && 0 <= j < progression_len(q) && #[trigger] difference_between(
                p,
                q,
                -q.num_bytes_per_range,
                p.num_bytes_per_range - 1,
                i,
                j,
            ),
{
    let lo = -q.num_bytes_per_range;
    let hi = p.num_bytes_per_range - 1;
    if progressions_overlap(p, q) {
        let (i, j) = choose|i: int, j: int|
            0 <= i < progression_len(p) && 0 <= j < progression_len(q) && #[trigger] ranges_meet(
                progression_start(p, i),
                p.num_bytes_per_range as int,
                progression_start(q, j),
                q.num_bytes_per_range as int,
            );
        assert(difference_between(p, q, lo, hi, i, j));
    }
    if exists|i: int, j: int| 0 <= i < progression_len(p) && 0 <= j < progression_len(q) && #[trigger] difference_between(p, q, lo, hi, i, j) {
        let (i, j) = choose|i: int, j: int| 0 <= i < progression_len(p) && 0 <= j < progression_len(q) && #[trigger] difference_between(p, q, lo, hi, i, j);
        assert(ranges_meet(progression_start(p, i), p.num_bytes_per_range as int, progression_start(q, j), q.num_bytes_per_range as int));
    }
}

/// The number of starts of a progression.
pub fn progression_count(progression: ByteStartProgression) -> (count: Option<u128>)
    requires
        progression_valid(progression),
    ensures
        count is Some <==> progression.last_start - progression.first_start <= i128::MAX,
        count matches Some(c) ==> c == progression_len(progression),
{
    if progression.stride == 0 {
        return Some(1);
    }
    let span = match progression.last_start.checked_sub(progression.first_start) {
        Some(span) => span,
        None => return None,
    };
    let steps = (span as u128) / (progression.stride as u128);
    proof {
        vstd::arithmetic::div_mod::lemma_div_is_ordered_by_denominator(span as int, 1, progression.stride as int);
    }
    Some(steps + 1)
}

/// The ceiling of a quotient of naturals, as the floor of a shifted one.
proof fn lemma_ceil_div(d: nat, s: nat)
    requires
        s > 0,
    ensures
        (d + s - 1) / (s as int) == d / s + if d % s == 0 { 0int } else { 1int },
{
    lemma_fundamental_div_mod(d as int, s as int);
    let q = d / s;
    let r = d % s;
    if r == 0 {
        assert(d + s - 1 == q * s + (s - 1)) by (nonlinear_arith) requires d == s * q + r, r == 0;
        lemma_fundamental_div_mod_converse(d + s - 1, s as int, q as int, s - 1);
    } else {
        assert(d + s - 1 == (q + 1) * s + (r - 1)) by (nonlinear_arith) requires d == s * q + r;
        lemma_fundamental_div_mod_converse(d + s - 1, s as int, (q + 1) as int, r - 1);
    }
}

/// The first of `count` values, `first_value` and then one `stride` apart,
/// that is at least `target`.
fn first_index_at_least(first_value: i128, stride: u128, target: i128, count: u128) -> (index: Option<u128>)
    ensures
        index is None <==> (stride == 0 || (first_value < target && target - first_value > i128::MAX)),
        index matches Some(r) ==> r == index_at_least(first_value as int, stride as nat, target as int, count as nat),
{
    if stride == 0 {
        return None;
    }
    if first_value >= target {
        return Some(0);
    }
    let difference = match target.checked_sub(first_value) {
        Some(difference) => difference as u128,
        None => return None,
    };
    let steps = difference / stride + if difference % stride == 0 { 0 } else { 1 };
    proof {
        lemma_ceil_div(difference as nat, stride as nat);
        vstd::arithmetic::div_mod::lemma_div_is_ordered_by_denominator(difference as int, 1, stride as int);
    }
    Some(if steps < count { steps } else { count })
}

/// The characterising property of the first index at least a target.
proof fn lemma_index_at_least(first_value: int, stride: nat, target: int, count: nat, i: int)
    requires
        stride > 0,
        0 <= i < count,
    ensures
        index_at_least(first_value, stride, target, count) <= count,
        i < index_at_least(first_value, stride, target, count) ==> first_value + i * stride < target,
        i >= index_at_least(first_value, stride, target, count) ==> first_value + i * stride >= target,
{
    if first_value < target {
        let d = (target - first_value) as nat;
        lemma_ceil_div(d, stride);
        lemma_fundamental_div_mod(d as int, stride as int);
        let steps = ((d + stride - 1) / (stride as int)) as nat;
        if i < steps {
            lemma_mul_le_iff(i + 1, d + stride - 1, stride as int);
            assert((i + 1) * stride == i * stride + stride) by (nonlinear_arith);
            assert(i * stride < d) by (nonlinear_arith) requires (i + 1) * stride <= d + stride - 1, (i + 1) * stride == i * stride + stride, stride > 0;
        } else {
            lemma_mul_le_iff(steps as int, d + stride - 1, stride as int);
            assert(steps * stride >= d) by (nonlinear_arith)
                requires d == stride * (d / stride) + d % stride, 0 <= d % stride < stride,
                    steps == d / stride + (if d % stride == 0 { 0int } else { 1int });
            assert(i * stride >= steps * stride) by (nonlinear_arith) requires i >= steps, stride > 0;
        }
    } else {
        assert(i * stride >= 0) by (nonlinear_arith) requires i >= 0;
    }
}

/// The search for a start in `lower..=upper` stays within `i128`: the
/// window is empty once clipped to the progression, the progression has a
/// single start, or the first start at or above the window's low end, and
/// the distance to it rounded up to whole strides, fit.
pub open spec fn value_search_fits(p: ByteStartProgression, lower: int, upper: int) -> bool {
    let low = if lower > p.first_start { lower } else { p.first_start as int };
    let high = if upper < p.last_start { upper } else { p.last_start as int };
    ||| low > high
    ||| p.stride == 0
    ||| {
        let shifted = low - p.first_start + p.stride - 1;
        &&& shifted <= i128::MAX
        &&& p.first_start + (shifted / (p.stride as int)) * p.stride <= i128::MAX
    }
}

/// Whether some start of the progression lies in `lower..=upper`; `None`
/// where the search leaves `i128`.
fn progression_has_value_between(progression: ByteStartProgression, lower: i128, upper: i128) -> (found: Option<bool>)
    requires
        progression_valid(progression),
    ensures
        found is Some <==> value_search_fits(progression, lower as int, upper as int),
        found matches Some(b) ==> b == has_start_between(progression, lower as int, upper as int),
{
    let p = progression;
    let low = if lower > p.first_start { lower } else { p.first_start };
    let high = if upper < p.last_start { upper } else { p.last_start };
    if low > high {
        proof {
            if has_start_between(p, lower as int, upper as int) {
                let i = choose|i: int| 0 <= i < progression_len(p) && lower <= #[trigger] progression_start(p, i) <= upper;
                lemma_progression_bounds(p, i);
            }
        }
        return Some(false);
    }
    if p.stride == 0 {
        assert(progression_start(p, 0) == p.first_start);
        return Some(true);
    }
    let offset = match low.checked_sub(p.first_start) {
        Some(offset) => offset,
        None => return None,
    };
    let stride_less_one = match p.stride.checked_sub(1) {
        Some(v) => v,
        None => return None,
    };
    let shifted = match offset.checked_add(stride_less_one) {
        Some(v) => v,
        None => return None,
    };
    let steps = ((shifted as u128) / (p.stride as u128)) as i128;
    proof {
        vstd::arithmetic::div_mod::lemma_div_is_ordered_by_denominator(shifted as int, 1, p.stride as int);
        let t = p.stride as int;
        let sh = shifted as int;
        assert(steps as int == sh / t);
        vstd::arithmetic::div_mod::lemma_fundamental_div_mod(sh, t);
        assert(steps * t <= sh) by (nonlinear_arith)
            requires
                sh == t * (sh / t) + sh % t,
                sh % t >= 0,
                steps == sh / t,
        ;
        assert(steps * t >= 0) by (nonlinear_arith)
            requires
                steps >= 0,
                t > 0,
        ;
    }
    let step_offset = match p.stride.checked_mul(steps) {
        Some(v) => v,
        None => return None,
    };
    let first_value = match p.first_start.checked_add(step_offset) {
        Some(v) => v,
        None => {
            proof {
                let t = p.stride as int;
                assert(step_offset == (shifted as int / t) * t) by (nonlinear_arith)
                    requires
                        step_offset == t * steps,
                        steps == shifted as int / t,
                ;
            }
            return None;
        },
    };
    proof {
        let t = p.stride as int;
        let len = progression_len(p);
        let span = p.last_start - p.first_start;
        assert(steps as int == index_at_least(p.first_start as int, t as nat, low as int, (span / t + 2) as nat)) by {
            lemma_ceil_div(offset as nat, t as nat);
            vstd::arithmetic::div_mod::lemma_div_is_ordered(offset as int, span, t);
        }
        assert(steps < span / t + 2) by {
            lemma_ceil_div(offset as nat, t as nat);
            assert(offset <= span);
            vstd::arithmetic::div_mod::lemma_div_is_ordered(offset as int, span, t);
        }
        lemma_index_at_least(p.first_start as int, t as nat, low as int, (span / t + 2) as nat, steps as int);
        assert(first_value == progression_start(p, steps as int)) by {
            assert(step_offset == steps * t) by (nonlinear_arith) requires step_offset == t * steps;
        }
        if first_value <= high {
            lemma_mul_le_iff(steps as int, span, t);
            assert(0 <= steps < len);
        } else {
            if has_start_between(p, lower as int, upper as int) {
                let i = choose|i: int| 0 <= i < progression_len(p) && lower <= #[trigger] progression_start(p, i) <= upper;
                lemma_progression_bounds(p, i);
                if i < steps {
                    lemma_index_at_least(p.first_start as int, t as nat, low as int, (span / t + 2) as nat, i);
                } else {
                    assert(i * t >= steps * t) by (nonlinear_arith) requires i >= steps, t > 0;
                }
            }
        }
    }
    Some(first_value <= high)
}

/// Each start of `p` pairs with the starts of `q` at most `d` after it, in
/// closed form: none while `num0 + i * t1` is negative, all of them from
/// `cs` on, and a floor quotient in between.
proof fn lemma_row_regimes(p: ByteStartProgression, q: ByteStartProgression, d: int, ps: nat, cs: nat, i: int)
    requires
        progression_valid(p),
        progression_valid(q),
        p.stride > 0,
        q.stride > 0,
        ps == index_at_least(d + p.first_start - q.first_start, p.stride as nat, 0, progression_len(p) as nat),
        cs == index_at_least(d + p.first_start - q.first_start, p.stride as nat, q.last_start - q.first_start, progression_len(p) as nat),
        0 <= i < progression_len(p),
    ensures
        ps <= cs,
        i < ps ==> starts_at_most(q, d + progression_start(p, i), progression_len(q) as nat) == 0,
        ps <= i < cs ==> d + p.first_start - q.first_start + i * p.stride >= 0 && starts_at_most(q, d + progression_start(p, i), progression_len(q) as nat)
            == (d + p.first_start - q.first_start + i * p.stride) / (q.stride as int) + 1,
        cs <= i ==> starts_at_most(q, d + progression_start(p, i), progression_len(q) as nat) == progression_len(q),
{
    let num0 = d + p.first_start - q.first_start;
    let t1 = p.stride as nat;
    let t2 = q.stride as int;
    let c1 = progression_len(p) as nat;
    let c2 = progression_len(q);
    let thr = q.last_start - q.first_start;
    let x = num0 + i * t1;
    lemma_index_at_least(num0, t1, 0, c1, i);
    lemma_index_at_least(num0, t1, thr, c1, i);
    lemma_starts_closed_form(q, d + progression_start(p, i), c2 as nat);
    assert(d + progression_start(p, i) - q.first_start == x);
    vstd::arithmetic::div_mod::lemma_div_pos_is_pos(thr, t2);
    if cs < ps {
        lemma_index_at_least(num0, t1, 0, c1, cs as int);
        lemma_index_at_least(num0, t1, thr, c1, cs as int);
    }
    if i < ps {
        vstd::arithmetic::div_mod::lemma_div_is_ordered(x, -1, t2);
        assert(-1int / t2 == -1) by {
            lemma_fundamental_div_mod_converse(-1, t2, -1, t2 - 1);
        }
    }
    if ps <= i < cs {
        vstd::arithmetic::div_mod::lemma_div_pos_is_pos(x, t2);
        vstd::arithmetic::div_mod::lemma_div_is_ordered(x, thr, t2);
    }
    if cs <= i {
        vstd::arithmetic::div_mod::lemma_div_is_ordered(thr, x, t2);
    }
}

/// The pair count, summed over the three regimes of the starts of `p`.
proof fn lemma_pairs_regimes(p: ByteStartProgression, q: ByteStartProgression, d: int, ps: nat, cs: nat, m: nat)
    requires
        progression_valid(p),
        progression_valid(q),
        p.stride > 0,
        q.stride > 0,
        ps == index_at_least(d + p.first_start - q.first_start, p.stride as nat, 0, progression_len(p) as nat),
        cs == index_at_least(d + p.first_start - q.first_start, p.stride as nat, q.last_start - q.first_start, progression_len(p) as nat),
        m <= progression_len(p),
    ensures
        m <= ps ==> pairs_at_most(p, q, d, m) == 0,
        ps <= m <= cs ==> ps < cs ==> pairs_at_most(p, q, d, m) == floor_sum(
            (m - ps) as nat,
            q.stride as nat,
            p.stride as nat,
            (d + p.first_start - q.first_start + ps * p.stride) as nat,
        ) + (m - ps),
        ps == cs && ps <= m ==> pairs_at_most(p, q, d, m) == (m - cs) * progression_len(q),
        cs <= m ==> pairs_at_most(p, q, d, m) == pairs_at_most(p, q, d, cs) + (m - cs) * progression_len(q),
    decreases m,
{
    if m > 0 {
        lemma_pairs_regimes(p, q, d, ps, cs, (m - 1) as nat);
        let i = m - 1;
        lemma_row_regimes(p, q, d, ps, cs, i);
        let num0 = d + p.first_start - q.first_start;
        let t1 = p.stride as nat;
        let c2 = progression_len(q);
        if ps <= i && i < cs {
            let off = num0 + ps * t1;
            lemma_row_regimes(p, q, d, ps, cs, ps as int);
            assert(t1 * (i - ps) + off == num0 + i * t1) by (nonlinear_arith) requires off == num0 + ps * t1;
            assert(floor_term(q.stride as nat, t1, off as nat, i - ps) == (num0 + i * t1) / (q.stride as int));
        }
        if cs <= i {
            assert((m - cs) * c2 == (i - cs) * c2 + c2) by (nonlinear_arith) requires m == i + 1;
        }
    } else {
        assert(0 * progression_len(q) == 0);
    }
}

/// Every start, the stride and the range length of a progression lie
/// within `2^60` of zero.
pub open spec fn progression_moderate(p: ByteStartProgression) -> bool {
    &&& -0x1000_0000_0000_0000 <= p.first_start
    &&& p.last_start <= 0x1000_0000_0000_0000
    &&& p.stride <= 0x1000_0000_0000_0000
    &&& p.num_bytes_per_range <= 0x1000_0000_0000_0000
}

/// At most `n` of the first `n` starts lie at or below any bound.
proof fn lemma_starts_at_most_bound(q: ByteStartProgression, x: int, n: nat)
    ensures
        starts_at_most(q, x, n) <= n,
    decreases n,
{
    if n > 0 {
        lemma_starts_at_most_bound(q, x, (n - 1) as nat);
    }
}

/// At most every pair of the first `m` starts of `p` with the starts of `q`
/// is counted.
proof fn lemma_pairs_at_most_bound(p: ByteStartProgression, q: ByteStartProgression, d: int, m: nat)
    requires
        progression_len(q) >= 0,
    ensures
        pairs_at_most(p, q, d, m) <= m * progression_len(q),
    decreases m,
{
    if m > 0 {
        lemma_pairs_at_most_bound(p, q, d, (m - 1) as nat);
        lemma_starts_at_most_bound(q, d + progression_start(p, m - 1), progression_len(q) as nat);
        assert(m * progression_len(q) == (m - 1) * progression_len(q) + progression_len(q)) by (nonlinear_arith);
    }
}

/// A moderate progression has at most `2^61 + 1` starts.
proof fn lemma_moderate_len(p: ByteStartProgression)
    requires
        progression_valid(p),
        progression_moderate(p),
    ensures
        1 <= progression_len(p) <= 0x2000_0000_0000_0001,
{
    if p.stride > 0 {
        let span = p.last_start - p.first_start;
        vstd::arithmetic::div_mod::lemma_div_is_ordered_by_denominator(span, 1, p.stride as int);
        vstd::arithmetic::div_mod::lemma_div_pos_is_pos(span, p.stride as int);
    }
}

/// The number of pairs of a start of the first progression and a start of
/// the second whose difference, second minus first, is at most
/// `max_start_difference`, without visiting the pairs.
fn count_progression_differences_at_most(
    first_progression: ByteStartProgression,
    second_progression: ByteStartProgression,
    max_start_difference: i128,
) -> (count: Option<u128>)
    requires
        progression_valid(first_progression),
        progression_valid(second_progression),
        first_progression.stride > 0,
        second_progression.stride > 0,
    ensures
        count matches Some(c) ==> c == pairs_at_most(
            first_progression,
            second_progression,
            max_start_difference as int,
            progression_len(first_progression) as nat,
        ),
        progression_moderate(first_progression) && progression_moderate(second_progression) && -0x2000_0000_0000_0000
            <= max_start_difference <= 0x2000_0000_0000_0000 ==> count is Some,
{
    let p = first_progression;
    let q = second_progression;
    let ghost moderate = progression_moderate(p) && progression_moderate(q) && -0x2000_0000_0000_0000 <= max_start_difference
        <= 0x2000_0000_0000_0000;
    proof {
        if moderate {
            lemma_moderate_len(p);
            lemma_moderate_len(q);
        }
    }
    let first_count = match progression_count(p) {
        Some(c) => c,
        None => return None,
    };
    let second_count = match progression_count(q) {
        Some(c) => c,
        None => return None,
    };
    let first_stride = p.stride as u128;
    let second_stride = q.stride as u128;
    let first_numerator = match max_start_difference.checked_add(p.first_start) {
        Some(v) => match v.checked_sub(q.first_start) {
            Some(w) => w,
            None => return None,
        },
        None => return None,
    };
    let partial_start = match first_index_at_least(first_numerator, first_stride, 0, first_count) {
        Some(v) => v,
        None => return None,
    };
    let complete_threshold = match q.last_start.checked_sub(q.first_start) {
        Some(span) => span,
        None => return None,
    };
    let complete_start = match first_index_at_least(first_numerator, first_stride, complete_threshold, first_count) {
        Some(v) => v,
        None => return None,
    };
    let ghost d = max_start_difference as int;
    proof {
        lemma_pairs_regimes(p, q, d, partial_start as nat, complete_start as nat, first_count as nat);
        lemma_row_regimes(p, q, d, partial_start as nat, complete_start as nat, 0);
    }
    let partial_count = complete_start - partial_start;
    let partial_pairs: u128 = if partial_count == 0 {
        0
    } else {
        proof {
            if moderate {
                assert(first_stride * partial_start <= 0x1000_0000_0000_0000 * 0x2000_0000_0000_0001) by (nonlinear_arith)
                    requires
                        first_stride <= 0x1000_0000_0000_0000,
                        partial_start <= 0x2000_0000_0000_0001,
                ;
            }
        }
        let step_offset = match first_stride.checked_mul(partial_start) {
            Some(v) => v,
            None => return None,
        };
        if step_offset > i128::MAX as u128 {
            return None;
        }
        let shifted = match first_numerator.checked_add(step_offset as i128) {
            Some(v) => v,
            None => return None,
        };
        proof {
            lemma_row_regimes(p, q, d, partial_start as nat, complete_start as nat, partial_start as int);
        }
        let partial_offset = shifted as u128;
        proof {
            assert(step_offset == partial_start * p.stride) by (nonlinear_arith)
                requires step_offset == first_stride * partial_start, first_stride == p.stride;
        }
        proof {
            if moderate {
                let ps = partial_start as nat;
                let cs = complete_start as nat;
                lemma_pairs_regimes(p, q, d, ps, cs, cs);
                lemma_pairs_at_most_bound(p, q, d, cs);
                assert(partial_offset as int == d + p.first_start - q.first_start + ps * p.stride);
                assert(cs * progression_len(q) <= 0x2000_0000_0000_0001 * 0x2000_0000_0000_0001) by (nonlinear_arith)
                    requires
                        cs <= 0x2000_0000_0000_0001,
                        0 <= progression_len(q) <= 0x2000_0000_0000_0001,
                ;
                assert(second_stride * (partial_count + 1) <= 0x1000_0000_0000_0000 * 0x2000_0000_0000_0002) by (nonlinear_arith)
                    requires
                        second_stride <= 0x1000_0000_0000_0000,
                        partial_count + 1 <= 0x2000_0000_0000_0002,
                ;
            }
        }
        let sum = match checked_floor_sum(partial_count, second_stride, first_stride, partial_offset) {
            Some(v) => v,
            None => return None,
        };
        match sum.checked_add(partial_count) {
            Some(v) => v,
            None => return None,
        }
    };
    proof {
        if moderate {
            assert((first_count - complete_start) * second_count <= 0x2000_0000_0000_0001 * 0x2000_0000_0000_0001)
                by (nonlinear_arith)
                requires
                    first_count - complete_start <= 0x2000_0000_0000_0001,
                    second_count <= 0x2000_0000_0000_0001,
            ;
            lemma_pairs_at_most_bound(p, q, d, first_count as nat);
            assert(first_count * progression_len(q) <= 0x2000_0000_0000_0001 * 0x2000_0000_0000_0001) by (nonlinear_arith)
                requires
                    first_count <= 0x2000_0000_0000_0001,
                    0 <= progression_len(q) <= 0x2000_0000_0000_0001,
            ;
        }
    }
    let complete_pairs = match (first_count - complete_start).checked_mul(second_count) {
        Some(v) => v,
        None => return None,
    };
    proof {
        let c1 = first_count as nat;
        let ps = partial_start as nat;
        let cs = complete_start as nat;
        if ps < cs {
            lemma_pairs_regimes(p, q, d, ps, cs, cs);
            assert(partial_pairs == pairs_at_most(p, q, d, cs));
        } else {
            lemma_pairs_regimes(p, q, d, ps, cs, cs);
            assert(pairs_at_most(p, q, d, cs) == 0);
        }
        assert(pairs_at_most(p, q, d, c1) == partial_pairs + complete_pairs);
    }
    partial_pairs.checked_add(complete_pairs)
}

/// The search for a start stays within `i128` on a moderate progression
/// and a window within `2^62` of zero.
proof fn lemma_moderate_search_fits(p: ByteStartProgression, lower: int, upper: int)
    requires
        progression_valid(p),
        progression_moderate(p),
        -0x4000_0000_0000_0000 <= lower <= 0x4000_0000_0000_0000,
        -0x4000_0000_0000_0000 <= upper <= 0x4000_0000_0000_0000,
    ensures
        value_search_fits(p, lower, upper),
{
    let low = if lower > p.first_start { lower } else { p.first_start as int };
    let t = p.stride as int;
    if p.stride > 0 {
        let sh = low - p.first_start + t - 1;
        vstd::arithmetic::div_mod::lemma_fundamental_div_mod(sh, t);
        assert((sh / t) * t <= sh) by (nonlinear_arith)
            requires
                sh == t * (sh / t) + sh % t,
                sh % t >= 0,
        ;
    }
}

/// Whether some range of the first progression shares a byte with some
/// range of the second, decided without visiting the ranges; `None` where
/// an intermediate value does not fit.
pub fn bounded_progression_ranges_overlap(
    first_progression: ByteStartProgression,
    second_progression: ByteStartProgression,
) -> (overlap: Option<bool>)
    requires
        progression_valid(first_progression),
        progression_valid(second_progression),
    ensures
        overlap matches Some(b) ==> b == progressions_overlap(first_progression, second_progression),
        progression_moderate(first_progression) && progression_moderate(second_progression) ==> overlap == Some(
            progressions_overlap(first_progression, second_progression),
        ),
{
    let p = first_progression;
    let q = second_progression;
    let ghost moderate = progression_moderate(p) && progression_moderate(q);
    proof {
        lemma_overlap_as_difference(p, q);
    }
    let min_start_difference = match 1i128.checked_sub(q.num_bytes_per_range) {
        Some(v) => v,
        None => return None,
    };
    let max_start_difference = match p.num_bytes_per_range.checked_sub(1) {
        Some(v) => v,
        None => return None,
    };
    let ghost lo = -q.num_bytes_per_range;
    let ghost hi = p.num_bytes_per_range - 1;
    if p.stride == 0 {
        let lower = match p.first_start.checked_add(min_start_difference) {
            Some(v) => v,
            None => return None,
        };
        let upper = match p.first_start.checked_add(max_start_difference) {
            Some(v) => v,
            None => return None,
        };
        proof {
            if moderate {
                lemma_moderate_search_fits(q, lower as int, upper as int);
            }
        }
        let found = progression_has_value_between(q, lower, upper);
        proof {
            assert(progression_len(p) == 1);
            assert(progression_start(p, 0) == p.first_start);
            if has_start_between(q, lower as int, upper as int) {
                let j = choose|j: int| 0 <= j < progression_len(q) && lower <= #[trigger] progression_start(q, j) <= upper;
                assert(difference_between(p, q, lo, hi, 0, j));
            }
            if exists|i: int, j: int| 0 <= i < progression_len(p) && 0 <= j < progression_len(q) && #[trigger] difference_between(p, q, lo, hi, i, j) {
                let (i, j) = choose|i: int, j: int| 0 <= i < progression_len(p) && 0 <= j < progression_len(q) && #[trigger] difference_between(p, q, lo, hi, i, j);
                assert(lower <= progression_start(q, j) <= upper);
            }
        }
        return found;
    }
    if q.stride == 0 {
        let lower = match q.first_start.checked_sub(max_start_difference) {
            Some(v) => v,
            None => return None,
        };
        let upper = match q.first_start.checked_sub(min_start_difference) {
            Some(v) => v,
            None => return None,
        };
        proof {
            if moderate {
                lemma_moderate_search_fits(p, lower as int, upper as int);
            }
        }
        let found = progression_has_value_between(p, lower, upper);
        proof {
            assert(progression_len(q) == 1);
            assert(progression_start(q, 0) == q.first_start);
            if has_start_between(p, lower as int, upper as int) {
                let i = choose|i: int| 0 <= i < progression_len(p) && lower <= #[trigger] progression_start(p, i) <= upper;
                assert(difference_between(p, q, lo, hi, i, 0));
            }
            if exists|i: int, j: int| 0 <= i < progression_len(p) && 0 <= j < progression_len(q) && #[trigger] difference_between(p, q, lo, hi, i, j) {
                let (i, j) = choose|i: int, j: int| 0 <= i < progression_len(p) && 0 <= j < progression_len(q) && #[trigger] difference_between(p, q, lo, hi, i, j);
                assert(lower <= progression_start(p, i) <= upper);
            }
        }
        return found;
    }
    // A pair of ranges overlaps when the difference between their starts
    // lies in `min_start_difference..=max_start_difference`: more pairs
    // differ by at most the upper end than by less than the lower end
    // exactly when one does.
    let below = match min_start_difference.checked_sub(1) {
        Some(v) => v,
        None => return None,
    };
    let before_interval = match count_progression_differences_at_most(p, q, below) {
        Some(v) => v,
        None => return None,
    };
    let through_interval = match count_progression_differences_at_most(p, q, max_start_difference) {
        Some(v) => v,
        None => return None,
    };
    proof {
        lemma_pairs_between(p, q, lo, hi, progression_len(p) as nat);
    }
    Some(through_interval > before_interval)
}

/// Whether ranges of the two progressions may share a byte: `false` only
/// when none do.
pub fn start_progressions_may_overlap(first_progression: ByteStartProgression, second_progression: ByteStartProgression) -> (may: bool)
    requires
        progression_valid(first_progression),
        progression_valid(second_progression),
    ensures
        !may ==> !progressions_overlap(first_progression, second_progression),
        first_progression.first_start >= second_progression.last_start + second_progression.num_bytes_per_range
            || second_progression.first_start >= first_progression.last_start + first_progression.num_bytes_per_range ==> !may,
        progression_moderate(first_progression) && progression_moderate(second_progression) ==> may == progressions_overlap(
            first_progression,
            second_progression,
        ),
{
    let p = first_progression;
    let q = second_progression;
    let disjoint_bounds = match q.last_start.checked_add(q.num_bytes_per_range) {
        Some(q_end) => p.first_start >= q_end,
        None => false,
    } || match p.last_start.checked_add(p.num_bytes_per_range) {
        Some(p_end) => q.first_start >= p_end,
        None => false,
    };
    if disjoint_bounds {
        proof {
            if progressions_overlap(p, q) {
                let (i, j) = choose|i: int, j: int|
                    0 <= i < progression_len(p) && 0 <= j < progression_len(q) && #[trigger] ranges_meet(
                        progression_start(p, i),
                        p.num_bytes_per_range as int,
                        progression_start(q, j),
                        q.num_bytes_per_range as int,
                    );
                lemma_progression_bounds(p, i);
                lemma_progression_bounds(q, j);
            }
        }
        return false;
    }
    match bounded_progression_ranges_overlap(p, q) {
        Some(b) => b,
        None => true,
    }
}

/// Whether `value` is a start of the progression.
pub fn progression_contains(progression: ByteStartProgression, value: i128) -> (contains: bool)
    requires
        progression_valid(progression),
        progression.last_start - progression.first_start <= i128::MAX,
    ensures
        contains == (progression.first_start <= value <= progression.last_start && (progression.stride == 0
            || (value - progression.first_start) % (progression.stride as int) == 0)),
{
    let p = progression;
    if value < p.first_start || value > p.last_start {
        return false;
    }
    if p.stride == 0 {
        return true;
    }
    let difference = (value - p.first_start) as u128;
    difference % (p.stride as u128) == 0
}

/// The greatest common divisor of two naturals, one of them positive, is
/// positive.
pub proof fn lemma_gcd_positive(a: nat, b: nat)
    requires
        a > 0 || b > 0,
    ensures
        gcd_spec(a, b) > 0,
    decreases b,
{
    if b > 0 {
        lemma_gcd_positive(b, a % b);
    }
}

} // verus!
