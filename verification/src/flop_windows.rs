//! How an activity's ticks fall into the fixed windows over which work is
//! reported.
use vstd::prelude::*;

verus! {

/// The ticks of window `w`, of `ws` ticks each, that the activity over
/// `[start, end)` covers.
pub open spec fn window_overlap(start: int, end: int, w: int, ws: int) -> int {
    let lo = if start >= w * ws { start } else { w * ws };
    let hi = if end <= (w + 1) * ws { end } else { (w + 1) * ws };
    hi - lo
}

/// The windows of `ws` ticks that the activity over `[start, end)` touches,
/// in order, each with the number of its ticks that the activity covers.
pub open spec fn windows_split(start: nat, end: nat, ws: nat) -> Seq<(u64, u64)> {
    if start >= end {
        Seq::empty()
    } else {
        let first = (start as int) / (ws as int);
        Seq::new(
            (((end - 1) as int) / (ws as int) - first + 1) as nat,
            |k: int| ((first + k) as u64, window_overlap(start as int, end as int, first + k, ws as int) as u64),
        )
    }
}

/// The window of a tick, bounded by the window's ends.
proof fn lemma_window_of(t: int, ws: int)
    requires
        t >= 0,
        ws >= 1,
    ensures
        (t / ws) * ws <= t < (t / ws + 1) * ws,
        t / ws >= 0,
{
    vstd::arithmetic::div_mod::lemma_fundamental_div_mod(t, ws);
    vstd::arithmetic::div_mod::lemma_mod_bound(t, ws);
    vstd::arithmetic::div_mod::lemma_div_pos_is_pos(t, ws);
    assert((t / ws) * ws <= t < (t / ws + 1) * ws) by (nonlinear_arith)
        requires
            t == ws * (t / ws) + t % ws,
            0 <= t % ws < ws,
    ;
}

/// A tick between the ends of window `q` is in window `q`.
proof fn lemma_in_window(t: int, ws: int, q: int)
    requires
        t >= 0,
        ws >= 1,
        q * ws <= t < (q + 1) * ws,
    ensures
        t / ws == q,
{
    lemma_window_of(t, ws);
    let p = t / ws;
    if p < q {
        assert((p + 1) * ws <= q * ws) by (nonlinear_arith)
            requires
                p + 1 <= q,
                ws >= 1,
        ;
    } else if p > q {
        assert((q + 1) * ws <= p * ws) by (nonlinear_arith)
            requires
                q + 1 <= p,
                ws >= 1,
        ;
    }
}

/// Later windows start later.
proof fn lemma_window_starts_ordered(a: int, b: int, ws: int)
    requires
        a <= b,
        ws >= 1,
    ensures
        a * ws <= b * ws,
{
    assert(a * ws <= b * ws) by (nonlinear_arith)
        requires
            a <= b,
            ws >= 1,
    ;
}

/// Split an activity of `duration_ticks` ticks starting at `start_tick`
/// into the windows of `window_size_ticks` ticks that it touches, each with
/// the number of its ticks that the activity covers.
pub fn split_ticks_across_windows(start_tick: u64, duration_ticks: u64, window_size_ticks: u64) -> (split: Vec<(u64, u64)>)
    requires
        window_size_ticks >= 1,
        start_tick + duration_ticks <= u64::MAX,
        duration_ticks > 0 ==> ((start_tick + duration_ticks - 1) / (window_size_ticks as int) + 1) * window_size_ticks
            <= u64::MAX,
    ensures
        split@ == windows_split(start_tick as nat, (start_tick + duration_ticks) as nat, window_size_ticks as nat),
{
    let end_tick = start_tick + duration_ticks;
    let ghost ws = window_size_ticks as int;
    let ghost start = start_tick as int;
    let ghost end = end_tick as int;
    let ghost first = start / ws;
    let ghost last = (end - 1) / ws;
    let mut tick = start_tick;
    let mut split: Vec<(u64, u64)> = Vec::new();
    proof {
        lemma_window_of(start, ws);
    }
    while tick < end_tick
        invariant
            ws == window_size_ticks,
            start == start_tick,
            end == end_tick,
            end_tick == start_tick + duration_ticks,
            ws >= 1,
            first == start / ws,
            last == (end - 1) / ws,
            start < end ==> (last + 1) * ws <= u64::MAX,
            first * ws <= start,
            start <= tick <= end,
            split@.len() == 0 ==> tick == start,
            start >= end ==> split@.len() == 0,
            split@.len() > 0 ==> tick == (if end <= (first + split@.len()) * ws {
                end
            } else {
                (first + split@.len()) * ws
            }),
            split@.len() > 0 ==> first + split@.len() - 1 <= last,
            split@.len() > 0 ==> start < (first + split@.len()) * ws,
            tick < end ==> (tick as int) / ws == first + split@.len(),
            forall|j: int| 0 <= j < split@.len() ==> #[trigger] split@[j] == ((first + j) as u64, window_overlap(start, end, first + j, ws) as u64),
        decreases end - tick,
    {
        let ghost k = split@.len() as int;
        let window_idx = tick / window_size_ticks;
        proof {
            lemma_window_of(tick as int, ws);
            lemma_window_of(end - 1, ws);
            assert(tick <= end - 1);
            vstd::arithmetic::div_mod::lemma_div_is_ordered(tick as int, end - 1, ws);
            lemma_window_starts_ordered(window_idx + 1, last + 1, ws);
        }
        let next_window_start_tick = (window_idx + 1) * window_size_ticks;
        let window_end_tick = if next_window_start_tick < end_tick { next_window_start_tick } else { end_tick };
        proof {
            if k == 0 {
                assert(window_overlap(start, end, first, ws) == window_end_tick - tick);
            } else {
                assert(tick == (first + k) * ws);
                assert(window_overlap(start, end, first + k, ws) == window_end_tick - tick);
            }
        }
        split.push((window_idx, window_end_tick - tick));
        tick = window_end_tick;
        proof {
            let k1 = k + 1;
            assert(first + k1 == window_idx + 1);
            lemma_window_of(start, ws);
            lemma_window_starts_ordered(first + 1, first + k1, ws);
            if tick < end {
                assert(tick == (first + k1) * ws);
                assert((first + k1 + 1) * ws == (first + k1) * ws + ws) by (nonlinear_arith);
                lemma_in_window(tick as int, ws, first + k1);
            }
        }
    }
    proof {
        if start < end {
            let k = split@.len() as int;
            assert(k > 0);
            lemma_window_of(end - 1, ws);
            if first + k - 1 < last {
                lemma_window_starts_ordered(first + k, last, ws);
            }
            assert(k == last - first + 1);
        }
        let expected = windows_split(start_tick as nat, end_tick as nat, window_size_ticks as nat);
        if start < end {
            assert(expected.len() == split@.len());
            assert forall|j: int| 0 <= j < split@.len() implies split@[j] == expected[j] by {
                assert(split@[j] == ((first + j) as u64, window_overlap(start, end, first + j, ws) as u64));
            }
        }
        assert(split@ =~= expected);
    }
    split
}

} // verus!

verus! {

/// The ticks of all the windows of a split together.
pub open spec fn ticks_sum(s: Seq<(u64, u64)>) -> int
    decreases s.len(),
{
    if s.len() == 0 {
        0
    } else {
        ticks_sum(s.drop_last()) + s.last().1
    }
}

/// The first `m` windows cover the activity up to the end of the last of
/// them.
proof fn lemma_prefix_sum(start: nat, end: nat, ws: nat, m: nat)
    requires
        ws >= 1,
        start < end,
        1 <= m <= windows_split(start, end, ws).len(),
        end <= u64::MAX,
    ensures
        ticks_sum(windows_split(start, end, ws).take(m as int)) == (if end <= ((start / ws) + m) * ws {
            end as int
        } else {
            (((start / ws) + m) * ws) as int
        }) - start,
    decreases m,
{
    let s = windows_split(start, end, ws);
    let first = (start as int) / (ws as int);
    let last = ((end - 1) as int) / (ws as int);
    lemma_window_of(start as int, ws as int);
    lemma_window_of((end - 1) as int, ws as int);
    vstd::arithmetic::div_mod::lemma_div_is_ordered(start as int, (end - 1) as int, ws as int);
    assert(s.take(m as int).drop_last() =~= s.take(m - 1));
    let w = first + m - 1;
    lemma_window_starts_ordered(first, w, ws as int);
    lemma_window_starts_ordered(first + 1, w + 1, ws as int);
    assert((first + 1) * ws == first * ws + ws) by (nonlinear_arith);
    assert(w <= last);
    lemma_window_starts_ordered(w, last, ws as int);
    assert((w + 1) * ws == w * ws + ws) by (nonlinear_arith);
    assert(0 <= window_overlap(start as int, end as int, w, ws as int) <= u64::MAX);
    assert(start / ws == first);
    assert(s.take(m as int).last() == s[m - 1]);
    assert(s[m - 1].1 == window_overlap(start as int, end as int, w, ws as int));
    assert(ticks_sum(s.take(m as int)) == ticks_sum(s.take(m - 1)) + window_overlap(start as int, end as int, w, ws as int));
    assert(w * ws <= last * ws);
    if m == 1 {
        assert(s.take(0) =~= Seq::<(u64, u64)>::empty());
        assert(ticks_sum(s.take(0)) == 0);
    } else {
        lemma_prefix_sum(start, end, ws, (m - 1) as nat);
        lemma_window_starts_ordered(first + 1, w, ws as int);
        assert(w * ws > start);
    }
}

/// Splitting an activity into windows loses and repeats no tick: the
/// windows' ticks add up to the activity's duration.
pub proof fn lemma_split_covers_duration(start: nat, end: nat, ws: nat)
    requires
        ws >= 1,
        start <= end <= u64::MAX,
    ensures
        ticks_sum(windows_split(start, end, ws)) == end - start,
{
    if start < end {
        let s = windows_split(start, end, ws);
        let first = (start as int) / (ws as int);
        let last = ((end - 1) as int) / (ws as int);
        lemma_window_of(start as int, ws as int);
        lemma_window_of((end - 1) as int, ws as int);
        vstd::arithmetic::div_mod::lemma_div_is_ordered(start as int, (end - 1) as int, ws as int);
        lemma_prefix_sum(start, end, ws, s.len());
        assert(s.take(s.len() as int) =~= s);
        assert(first + s.len() == last + 1);
    }
}

} // verus!
