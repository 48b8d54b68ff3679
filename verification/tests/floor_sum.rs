use gwr_models::floor_sum::checked_floor_sum;

#[test]
fn floor_sum_matches_direct_sum() {
    for count in 0..=12 {
        for modulus in 1..=12 {
            for step in 0..=12 {
                for offset in 0..=12 {
                    let expected = (0..count).map(|index| (step * index + offset) / modulus).sum::<u128>();
                    assert_eq!(
                        checked_floor_sum(count, modulus, step, offset),
                        Some(expected),
                        "count={count}, modulus={modulus}, step={step}, offset={offset}"
                    );
                }
            }
        }
    }
}

#[test]
fn floor_sum_rejects_a_zero_modulus() {
    assert_eq!(checked_floor_sum(3, 0, 1, 1), None);
}

#[test]
fn floor_sum_handles_large_counts_exactly() {
    // sum(i = 0..10^9) floor(i / 2) = 2 * (0 + 1 + ... + (5 * 10^8 - 1))
    let half: u128 = 500_000_000;
    assert_eq!(checked_floor_sum(1_000_000_000, 2, 1, 0), Some(half * (half - 1)));
    // A sum that does not fit in u128.
    assert_eq!(checked_floor_sum(u128::MAX / 2, 1, u128::MAX / 4, 0), None);
}
