use gwr_models::flop_windows::split_ticks_across_windows;

fn split_flops_across_windows(start_tick: u64, duration_ticks: u64, total_flops: f64, window_size_ticks: u64) -> Vec<(u64, f64)> {
    let flops_per_tick = total_flops / duration_ticks as f64;
    split_ticks_across_windows(start_tick, duration_ticks, window_size_ticks)
        .into_iter()
        .map(|(window, ticks)| (window, ticks as f64 * flops_per_tick))
        .collect()
}

#[test]
fn split_flops_when_window_is_smaller_than_activity() {
    assert_eq!(split_flops_across_windows(2, 10, 100.0, 4), vec![(0, 20.0), (1, 40.0), (2, 40.0)]);
}

#[test]
fn split_flops_when_window_is_larger_than_activity() {
    assert_eq!(split_flops_across_windows(3, 4, 100.0, 16), vec![(0, 100.0)]);
}

#[test]
fn split_flops_start_after_window_0() {
    assert_eq!(split_flops_across_windows(110, 25, 100.0, 20), vec![(5, 40.0), (6, 60.0)]);
}

#[test]
fn tick_split_covers_the_activity_exactly() {
    assert_eq!(split_ticks_across_windows(2, 10, 4), vec![(0, 2), (1, 4), (2, 4)]);
    assert_eq!(split_ticks_across_windows(8, 4, 4), vec![(2, 4)]);
    assert_eq!(split_ticks_across_windows(7, 0, 4), vec![]);
    assert_eq!(split_ticks_across_windows(0, 5, 1), vec![(0, 1), (1, 1), (2, 1), (3, 1), (4, 1)]);
}
