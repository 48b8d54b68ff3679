//! Sums of floors of an arithmetic progression divided by a modulus.
use vstd::prelude::*;

use vstd::arithmetic::div_mod::{
    lemma_div_is_ordered, lemma_fundamental_div_mod, lemma_fundamental_div_mod_converse,
};

verus! {

/// The term of a floor sum at index `i`: `floor((step * i + offset) / modulus)`.
pub open spec fn floor_term(modulus: nat, step: nat, offset: nat, i: int) -> int {
    (step * i + offset) / (modulus as int)
}

/// `sum(i = 0..count) floor((step * i + offset) / modulus)`.
pub open spec fn floor_sum(count: nat, modulus: nat, step: nat, offset: nat) -> int
    decreases count,
{
    if count == 0 {
        0
    } else {
        floor_sum((count - 1) as nat, modulus, step, offset) + floor_term(modulus, step, offset, count - 1)
    }
}

/// The sum of `f(i)` for `i` in `0..n`.
spec fn sum(n: nat, f: spec_fn(int) -> int) -> int
    decreases n,
{
    if n == 0 {
        0
    } else {
        sum((n - 1) as nat, f) + f(n - 1)
    }
}

/// Sums of functions that agree on the summation range are equal.
proof fn lemma_sum_congruent(n: nat, f: spec_fn(int) -> int, g: spec_fn(int) -> int)
    requires
        forall|i: int| 0 <= i < n ==> #[trigger] f(i) == g(i),
    ensures
        sum(n, f) == sum(n, g),
    decreases n,
{
    if n > 0 {
        lemma_sum_congruent((n - 1) as nat, f, g);
    }
}

/// The sum of a pointwise sum is the sum of the sums.
proof fn lemma_sum_add(n: nat, f: spec_fn(int) -> int, g: spec_fn(int) -> int, h: spec_fn(int) -> int)
    requires
        forall|i: int| 0 <= i < n ==> #[trigger] h(i) == f(i) + g(i),
    ensures
        sum(n, h) == sum(n, f) + sum(n, g),
    decreases n,
{
    if n > 0 {
        lemma_sum_add((n - 1) as nat, f, g, h);
    }
}

/// A sum of zeros is zero.
proof fn lemma_sum_zero(n: nat, f: spec_fn(int) -> int)
    requires
        forall|i: int| 0 <= i < n ==> #[trigger] f(i) == 0,
    ensures
        sum(n, f) == 0,
    decreases n,
{
    if n > 0 {
        lemma_sum_zero((n - 1) as nat, f);
    }
}

/// The sum over `0..k` of row `i` of a table.
spec fn row_sum(k: nat, g: spec_fn(int, int) -> int, i: int) -> int {
    sum(k, |j: int| g(i, j))
}

/// The sum over `0..n` of column `j` of a table.
spec fn column_sum(n: nat, g: spec_fn(int, int) -> int, j: int) -> int {
    sum(n, |i: int| g(i, j))
}

/// Finite double sums can be taken in either order.
proof fn lemma_sum_swap(n: nat, k: nat, g: spec_fn(int, int) -> int)
    ensures
        sum(n, |i: int| row_sum(k, g, i)) == sum(k, |j: int| column_sum(n, g, j)),
    decreases n,
{
    if n > 0 {
        let n1 = (n - 1) as nat;
        lemma_sum_swap(n1, k, g);
        let rows = |i: int| row_sum(k, g, i);
        assert(sum(n, rows) == sum(n1, rows) + row_sum(k, g, n1 as int));
        let before = |j: int| column_sum(n1, g, j);
        let last = |j: int| g(n1 as int, j);
        let after = |j: int| column_sum(n, g, j);
        assert forall|j: int| 0 <= j < k implies #[trigger] after(j) == before(j) + last(j) by {
            let col = |i: int| g(i, j);
            assert(sum(n, col) == sum(n1, col) + col(n1 as int));
        }
        lemma_sum_add(k, before, last, after);
        assert(rows =~= (|i: int| row_sum(k, g, i)));
        assert(before =~= (|j: int| column_sum(n1, g, j)));
        assert(after =~= (|j: int| column_sum(n, g, j)));
        assert(row_sum(k, g, n1 as int) == sum(k, last)) by {
            assert((|j: int| g(n1 as int, j)) =~= last);
        }
    } else {
        let columns = |j: int| column_sum(n, g, j);
        assert forall|j: int| 0 <= j < k implies #[trigger] columns(j) == 0 by {
            assert(column_sum(n, g, j) == sum(0, |i: int| g(i, j)));
        }
        lemma_sum_zero(k, columns);
    }
}

/// The indicator of `i >= c` sums over `0..n` to the number of such `i`.
proof fn lemma_sum_tail_count(n: nat, c: int)
    ensures
        sum(n, |i: int| if i >= c { 1int } else { 0int }) == if n <= c { 0 } else if c <= 0 { n as int } else { n - c },
    decreases n,
{
    if n > 0 {
        lemma_sum_tail_count((n - 1) as nat, c);
    }
}

/// For `d > 0` and `j >= 0`, `j * d <= x` exactly when `j <= x / d`.
proof fn lemma_mul_le_iff_le_div(j: int, d: int, x: int)
    requires
        d > 0,
        j >= 0,
    ensures
        (j * d <= x) == (j <= x / d),
{
    lemma_fundamental_div_mod(x, d);
    let q = x / d;
    let r = x % d;
    if j <= q {
        assert(j * d <= x) by (nonlinear_arith) requires j <= q, d > 0, x == d * q + r, r >= 0;
    } else {
        assert(j * d > x) by (nonlinear_arith) requires j >= q + 1, d > 0, x == d * q + r, r < d;
    }
}

/// A quotient counts the multiples of the divisor that fit, counted here
/// from the top: `x / d == #{k < bound : (bound - k) * d <= x}` for a bound
/// at least the quotient.
proof fn lemma_div_as_count(x: int, d: int, bound: nat)
    requires
        d > 0,
        x >= 0,
        x / d <= bound,
    ensures
        x / d == sum(bound, |k: int| if (bound - k) * d <= x { 1int } else { 0int }),
{
    let q = x / d;
    lemma_fundamental_div_mod(x, d);
    assert(q >= 0) by (nonlinear_arith) requires x == d * q + x % d, x % d < d, d > 0, x >= 0;
    let rows = |k: int| if (bound - k) * d <= x { 1int } else { 0int };
    let tail = |k: int| if k >= bound - q { 1int } else { 0int };
    assert forall|k: int| 0 <= k < bound implies #[trigger] rows(k) == tail(k) by {
        lemma_mul_le_iff_le_div(bound - k, d, x);
    }
    lemma_sum_congruent(bound, rows, tail);
    lemma_sum_tail_count(bound, bound - q);
}

/// A floor sum is the sum of its terms.
proof fn lemma_floor_sum_as_sum(count: nat, modulus: nat, step: nat, offset: nat)
    ensures
        floor_sum(count, modulus, step, offset) == sum(count, |t: int| floor_term(modulus, step, offset, t)),
    decreases count,
{
    if count > 0 {
        lemma_floor_sum_as_sum((count - 1) as nat, modulus, step, offset);
    }
}

/// With a positive modulus, every floor sum is nonnegative.
pub proof fn lemma_floor_sum_nonnegative(count: nat, modulus: nat, step: nat, offset: nat)
    requires
        modulus > 0,
    ensures
        floor_sum(count, modulus, step, offset) >= 0,
    decreases count,
{
    if count > 0 {
        let i = count - 1;
        lemma_floor_sum_nonnegative((count - 1) as nat, modulus, step, offset);
        assert(step * i + offset >= 0) by (nonlinear_arith) requires i >= 0;
        vstd::arithmetic::div_mod::lemma_div_pos_is_pos(step * i + offset, modulus as int);
    }
}

/// `count * (count - 1) / 2` grows by `count` from `count` to `count + 1`.
proof fn lemma_triangle_step(count: nat)
    ensures
        (count + 1) * count / 2 == count * (count - 1) / 2 + count,
{
    let t = count * (count - 1);
    assert((count + 1) * count == t + 2 * count) by (nonlinear_arith) requires t == count * (count - 1);
    lemma_fundamental_div_mod(t, 2);
    lemma_fundamental_div_mod_converse(((count + 1) * count) as int, 2, t / 2 + count, t % 2);
}

/// Taking the whole multiples of the modulus out of the step.
proof fn lemma_reduce_step(count: nat, modulus: nat, step: nat, offset: nat)
    requires
        modulus > 0,
    ensures
        floor_sum(count, modulus, step, offset)
            == count * (count - 1) / 2 * (step / modulus) + floor_sum(count, modulus, step % modulus, offset),
    decreases count,
{
    let q = step / modulus;
    let r = step % modulus;
    if count == 0 {
        assert(0 * (0 - 1) / 2 * q == 0) by (nonlinear_arith);
    } else {
        let i = (count - 1) as nat;
        lemma_reduce_step(i, modulus, step, offset);
        lemma_fundamental_div_mod(step as int, modulus as int);
        let m = modulus as int;
        let x: int = (r * i + offset) as int;
        assert(step * i + offset == x + (q * i) * m) by (nonlinear_arith)
            requires step == m * q + r, x == r * i + offset;
        lemma_fundamental_div_mod(x, m);
        assert(step * i + offset == (x / m + q * i) * m + x % m) by (nonlinear_arith)
            requires step * i + offset == x + (q * i) * m, x == m * (x / m) + x % m;
        lemma_fundamental_div_mod_converse((step * i + offset) as int, m, x / m + q * i, x % m);
        assert(floor_term(modulus, step, offset, i as int) == floor_term(modulus, r, offset, i as int) + q * i);
        lemma_triangle_step(i);
        assert(i * (i - 1) / 2 * q + i * q == count * (count - 1) / 2 * q) by (nonlinear_arith)
            requires count == i + 1, (i + 1) * i / 2 == i * (i - 1) / 2 + i;
    }
}

/// Taking the whole multiples of the modulus out of the offset.
proof fn lemma_reduce_offset(count: nat, modulus: nat, step: nat, offset: nat)
    requires
        modulus > 0,
    ensures
        floor_sum(count, modulus, step, offset)
            == count * (offset / modulus) + floor_sum(count, modulus, step, offset % modulus),
    decreases count,
{
    let q = offset / modulus;
    let r = offset % modulus;
    if count > 0 {
        let i = (count - 1) as nat;
        lemma_reduce_offset(i, modulus, step, offset);
        lemma_fundamental_div_mod(offset as int, modulus as int);
        let m = modulus as int;
        let x: int = (step * i + r) as int;
        assert(step * i + offset == x + q * m) by (nonlinear_arith)
            requires offset == m * q + r, x == step * i + r;
        lemma_fundamental_div_mod(x, m);
        assert(step * i + offset == (x / m + q) * m + x % m) by (nonlinear_arith)
            requires step * i + offset == x + q * m, x == m * (x / m) + x % m;
        lemma_fundamental_div_mod_converse((step * i + offset) as int, m, x / m + q, x % m);
        assert(i * q + q == count * q) by (nonlinear_arith) requires count == i + 1;
        assert(floor_term(modulus, step, offset, i as int) == floor_term(modulus, step, r, i as int) + q);
    } else {
        assert(count * q == 0) by (nonlinear_arith) requires count == 0;
    }
}

/// A floor sum whose largest numerator is below the modulus is zero.
proof fn lemma_small_floor_sum(count: nat, modulus: nat, step: nat, offset: nat)
    requires
        modulus > 0,
        step * count + offset < modulus,
    ensures
        floor_sum(count, modulus, step, offset) == 0,
    decreases count,
{
    if count > 0 {
        let i = (count - 1) as nat;
        assert(step * i + offset <= step * count + offset) by (nonlinear_arith) requires i <= count;
        lemma_small_floor_sum(i, modulus, step, offset);
        lemma_fundamental_div_mod_converse((step * i + offset) as int, modulus as int, 0, (step * i + offset) as int);
    }
}

/// Exchanging the roles of step and modulus: with step and offset below the
/// modulus, the lattice points under the line `y = (step * x + offset) /
/// modulus` are counted by columns on the left and by rows on the right.
proof fn lemma_swap(count: nat, modulus: nat, step: nat, offset: nat)
    requires
        modulus > 0,
        step < modulus,
        offset < modulus,
        step * count + offset >= modulus,
    ensures
        step > 0,
        floor_sum(count, modulus, step, offset) == floor_sum(
            (step * count + offset) / modulus,
            step,
            modulus,
            (step * count + offset) % modulus,
        ),
{
    let m = modulus as int;
    let a = step as int;
    let b = offset as int;
    let n = count as int;
    let y = a * n + b;
    if a == 0 {
        assert(y == b);
    }
    assert(a > 0);
    lemma_fundamental_div_mod(y, m);
    let big_n = y / m;
    let r = y % m;
    assert(big_n >= 0) by (nonlinear_arith) requires y == m * big_n + r, r < m, m > 0, y >= 0;
    let nn = big_n as nat;
    // Each term counts the rows of multiples of the modulus below it.
    let g = |i: int, k: int| if (big_n - k) * m <= a * i + b { 1int } else { 0int };
    let terms = |t: int| floor_term(modulus, step, offset, t);
    let counted = |i: int| row_sum(nn, g, i);
    assert forall|i: int| 0 <= i < n implies #[trigger] terms(i) == counted(i) by {
        assert(a * i + b <= y) by (nonlinear_arith) requires i < n, a >= 0, y == a * n + b;
        assert(a * i + b >= 0) by (nonlinear_arith) requires i >= 0, a >= 0, b >= 0;
        lemma_div_is_ordered(a * i + b, y, m);
        lemma_div_as_count(a * i + b, m, nn);
        assert((|k: int| g(i, k)) =~= (|k: int| if (nn - k) * m <= a * i + b { 1int } else { 0int }));
        assert(row_sum(nn, g, i) == sum(nn, |k: int| g(i, k)));
    }
    lemma_floor_sum_as_sum(count, modulus, step, offset);
    lemma_sum_congruent(count, terms, counted);
    lemma_sum_swap(count, nn, g);
    // Each row counts the columns whose term reaches it.
    let by_rows = |k: int| column_sum(count, g, k);
    let swapped = |k: int| (m * k + r) / a;
    assert forall|k: int| 0 <= k < nn implies #[trigger] by_rows(k) == swapped(k) by {
        let z = m * k + r;
        assert(z == y - (big_n - k) * m) by (nonlinear_arith) requires y == m * big_n + r, z == m * k + r;
        assert(z < a * n) by (nonlinear_arith) requires z == y - (big_n - k) * m, k < big_n, y == a * n + b, b < m, m > 0;
        assert(z >= 0) by (nonlinear_arith) requires z == m * k + r, k >= 0, r >= 0, m > 0;
        lemma_fundamental_div_mod(z, a);
        let zq = z / a;
        assert(0 <= zq < n) by (nonlinear_arith) requires z == a * zq + z % a, 0 <= z % a < a, z < a * n, z >= 0, a > 0;
        let column = |i: int| g(i, k);
        let tail = |i: int| if i >= n - zq { 1int } else { 0int };
        assert forall|i: int| 0 <= i < n implies #[trigger] column(i) == tail(i) by {
            assert(((big_n - k) * m <= a * i + b) == (a * (n - i) <= z)) by (nonlinear_arith)
                requires z == y - (big_n - k) * m, y == a * n + b;
            lemma_mul_le_iff_le_div(n - i, a, z);
            assert(a * (n - i) == (n - i) * a) by (nonlinear_arith);
        }
        lemma_sum_congruent(count, column, tail);
        assert(column_sum(count, g, k) == sum(count, column));
        lemma_sum_tail_count(count, n - zq);
    }
    lemma_sum_congruent(nn, by_rows, swapped);
    lemma_floor_sum_as_sum(nn, step, modulus, r as nat);
    assert((|t: int| floor_term(step, modulus, r as nat, t)) =~= swapped);
}

/// Calculate `sum(i = 0..count) floor((step * i + offset) / modulus)`.
///
/// Each iteration removes the whole multiples of `modulus` from `step` and
/// `offset`, then exchanges the reduced numerator and denominator. This is
/// the Euclidean reduction of the floor sum, so the number of iterations is
/// logarithmic in `step` and `modulus`. `None` means a zero modulus or an
/// intermediate result that does not fit in `u128`; neither happens when the
/// modulus is positive, `modulus * (count + 1)` is at most `2^128` and the
/// sum fits.
pub fn checked_floor_sum(count: u128, modulus: u128, step: u128, offset: u128) -> (result: Option<u128>)
    ensures
        modulus == 0 ==> result is None,
        result matches Some(total) ==> total == floor_sum(count as nat, modulus as nat, step as nat, offset as nat),
        modulus > 0 && modulus * (count + 1) <= 0x1_0000_0000_0000_0000_0000_0000_0000_0000
            && floor_sum(count as nat, modulus as nat, step as nat, offset as nat) <= u128::MAX
            ==> result == Some(floor_sum(count as nat, modulus as nat, step as nat, offset as nat) as u128),
{
    if modulus == 0 {
        return None;
    }
    if count == 0 {
        return Some(0);
    }
    let ghost whole = floor_sum(count as nat, modulus as nat, step as nat, offset as nat);
    let ghost fits = modulus * (count + 1) <= 0x1_0000_0000_0000_0000_0000_0000_0000_0000 && whole <= u128::MAX;
    let mut n = count;
    let mut m = modulus;
    let mut a = step;
    let mut b = offset;
    let mut total: u128 = 0;
    loop
        invariant
            modulus >= 1,
            whole == floor_sum(count as nat, modulus as nat, step as nat, offset as nat),
            fits == (modulus * (count + 1) <= 0x1_0000_0000_0000_0000_0000_0000_0000_0000 && whole <= u128::MAX),
            m >= 1,
            n >= 1,
            total + floor_sum(n as nat, m as nat, a as nat, b as nat) == whole,
            fits ==> m * (n + 1) <= 0x1_0000_0000_0000_0000_0000_0000_0000_0000,
        decreases m,
    {
        if a >= m {
            let quotient = a / m;
            let ghost half = n * (n - 1) / 2;
            proof {
                lemma_reduce_step(n as nat, m as nat, a as nat, b as nat);
                lemma_floor_sum_nonnegative(n as nat, m as nat, (a % m) as nat, b as nat);
                assert(quotient >= 1) by (nonlinear_arith) requires a >= m, m >= 1, quotient == a / m;
                assert(n * (n - 1) >= 0) by (nonlinear_arith) requires n >= 1;
                assert(half >= 0);
                assert(half <= half * quotient) by (nonlinear_arith) requires quotient >= 1, half >= 0;
                assert(fits ==> half * quotient <= u128::MAX);
            }
            let halved = if n % 2 == 0 {
                proof {
                    let k = n / 2;
                    assert(n * (n - 1) == (k * (n - 1)) * 2) by (nonlinear_arith)
                        requires n == 2 * k + n % 2, n % 2 == 0;
                    lemma_fundamental_div_mod_converse(n * (n - 1), 2, k * (n - 1), 0);
                }
                (n / 2).checked_mul(n - 1)
            } else {
                proof {
                    let k = (n - 1) / 2;
                    assert(n * (n - 1) == (n * k) * 2) by (nonlinear_arith)
                        requires n - 1 == 2 * k + (n - 1) % 2, (n - 1) % 2 == 0;
                    lemma_fundamental_div_mod_converse(n * (n - 1), 2, n * k, 0);
                }
                n.checked_mul((n - 1) / 2)
            };
            let halved = match halved {
                Some(h) => h,
                None => return None,
            };
            let triangular = match halved.checked_mul(quotient) {
                Some(t) => t,
                None => return None,
            };
            total = match total.checked_add(triangular) {
                Some(t) => t,
                None => return None,
            };
            a = a % m;
        }
        if b >= m {
            let quotient = b / m;
            proof {
                lemma_reduce_offset(n as nat, m as nat, a as nat, b as nat);
                lemma_floor_sum_nonnegative(n as nat, m as nat, a as nat, (b % m) as nat);
                assert(n * quotient >= 0) by (nonlinear_arith) requires n >= 1, quotient >= 0;
            }
            let whole_rows = match n.checked_mul(quotient) {
                Some(w) => w,
                None => return None,
            };
            total = match total.checked_add(whole_rows) {
                Some(t) => t,
                None => return None,
            };
            b = b % m;
        }
        proof {
            assert(fits ==> a * n + b <= u128::MAX) by (nonlinear_arith)
                requires
                    fits ==> m * (n + 1) <= 0x1_0000_0000_0000_0000_0000_0000_0000_0000,
                    a < m,
                    b < m,
                    n >= 1;
        }
        let scaled = match a.checked_mul(n) {
            Some(s) => s,
            None => return None,
        };
        let maximum = match scaled.checked_add(b) {
            Some(y) => y,
            None => return None,
        };
        if maximum < m {
            proof {
                lemma_small_floor_sum(n as nat, m as nat, a as nat, b as nat);
            }
            return Some(total);
        }
        proof {
            lemma_swap(n as nat, m as nat, a as nat, b as nat);
            let y: int = a * n + b;
            let mi = m as int;
            lemma_fundamental_div_mod(y, mi);
            let n2 = y / mi;
            assert(y <= (mi - 1) * (n + 1)) by (nonlinear_arith)
                requires y == a * n + b, a < mi, b < mi;
            assert(n2 <= n && n2 >= 1) by (nonlinear_arith)
                requires
                    y == mi * n2 + y % mi,
                    0 <= y % mi < mi,
                    y >= mi,
                    y <= (mi - 1) * (n + 1),
                    mi >= 1;
            assert(a * (n2 + 1) <= m * (n + 1)) by (nonlinear_arith)
                requires a < m, n2 <= n;
        }
        n = maximum / m;
        b = maximum % m;
        let previous_modulus = m;
        m = a;
        a = previous_modulus;
    }
}

} // verus!
