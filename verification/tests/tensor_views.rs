use std::ops::Range;

use gwr_models::dtype::DataType;
use gwr_models::progression::{
    bounded_progression_ranges_overlap, progression_contains, progression_count, ByteStartProgression,
};
use gwr_models::tensor::Tensor;
use gwr_models::tensor_view::{element_range_to_byte_range, TensorView, TensorViewLayout};

fn tensor(dims: &[usize], dtype: DataType) -> Tensor {
    Tensor::new(dims, &dtype, 0).unwrap()
}

fn ranges_overlap<T: Ord>(first: &Range<T>, second: &Range<T>) -> bool {
    first.start < second.end && second.start < first.end
}

fn byte_ranges(layout: &TensorViewLayout) -> Vec<Range<usize>> {
    let mut ranges = layout.byte_ranges();
    let mut collected = Vec::new();
    while let Some(range) = ranges.next() {
        collected.push(range);
    }
    collected
}

fn address_ranges(view: &TensorView) -> Vec<Range<u128>> {
    let mut ranges = view.address_ranges();
    let mut collected = Vec::new();
    while let Some(range) = ranges.next() {
        collected.push(range);
    }
    collected
}

fn exact_overlap(first: &TensorView, second: &TensorView) -> Option<(Range<u128>, Range<u128>)> {
    let mut first_ranges = first.address_ranges();
    let mut second_ranges = second.address_ranges();
    let mut first = first_ranges.next()?;
    let mut second = second_ranges.next()?;

    loop {
        if ranges_overlap(&first, &second) {
            return Some((first, second));
        }
        if first.end <= second.start {
            first = first_ranges.next()?;
        } else {
            second = second_ranges.next()?;
        }
    }
}

fn three_dimensional_views(tensor: &Tensor) -> Vec<TensorView> {
    let dims = tensor.shape().dims().to_vec();
    assert_eq!(dims.len(), 3);
    let mut views = Vec::new();
    for first_offset in 0..dims[0] {
        for second_offset in 0..dims[1] {
            for third_offset in 0..dims[2] {
                for first_extent in 1..=dims[0] - first_offset {
                    for second_extent in 1..=dims[1] - second_offset {
                        for third_extent in 1..=dims[2] - third_offset {
                            views.push(
                                TensorView::new(
                                    tensor.clone(),
                                    &[first_extent, second_extent, third_extent],
                                    &[first_offset, second_offset, third_offset],
                                )
                                .unwrap(),
                            );
                        }
                    }
                }
            }
        }
    }
    views
}

fn progression(first: i128, stride: i128, count: i128, num_bytes_per_range: i128) -> ByteStartProgression {
    assert!(count > 0);
    assert!(num_bytes_per_range > 0);
    let count = if stride == 0 { 1 } else { count };
    ByteStartProgression {
        first_start: first,
        last_start: first + stride * (count - 1),
        stride,
        num_bytes_per_range,
    }
}

fn exact_progression_ranges_overlap(first: ByteStartProgression, second: ByteStartProgression) -> bool {
    let first_count = i128::try_from(progression_count(first).unwrap()).unwrap();
    let second_count = i128::try_from(progression_count(second).unwrap()).unwrap();
    (0..first_count).any(|first_index| {
        let first_start = first.first_start + first_index * first.stride;
        (0..second_count).any(|second_index| {
            let second_start = second.first_start + second_index * second.stride;
            first_start < second_start + second.num_bytes_per_range
                && second_start < first_start + first.num_bytes_per_range
        })
    })
}

#[test]
fn describes_strided_packed_views() {
    let tensor = tensor(&[4, 4], DataType::Int4);
    let view = TensorView::new(tensor, &[3, 1], &[1, 1]).unwrap();

    assert_eq!(view.layout().first_element(), 5);
    assert_eq!(view.layout().elements_per_range(), 1);
    assert_eq!(view.layout().bits_per_element(), 4);
    assert_eq!(view.layout().num_access_bytes(), 3);
    assert_eq!(view.layout().strides().len(), 1);
    assert_eq!(view.layout().strides()[0].count(), 3);
    assert_eq!(view.layout().strides()[0].stride_elements(), 4);
    assert_eq!(byte_ranges(view.layout()), vec![2..3, 4..5, 6..7]);
    assert_eq!(view.address_bounds(), 2..7);
}

#[test]
fn keeps_absolute_ranges_at_the_end_of_the_address_space() {
    let tensor = Tensor::new(&[2], &DataType::Int8, u64::MAX - 1).unwrap();
    let view = TensorView::new_full(tensor);
    assert_eq!(
        address_ranges(&view),
        vec![u128::from(u64::MAX) - 1..u128::from(u64::MAX) + 1]
    );
}

#[test]
fn calculates_access_bytes_without_enumerating_ranges() {
    let tensor = tensor(&[100_000_000, 2], DataType::Int8);
    let view = TensorView::new(tensor, &[100_000_000, 1], &[0, 0]).unwrap();

    assert_eq!(view.layout().num_access_bytes(), 100_000_000);
    let mut ranges = view.layout().byte_ranges();
    let first_three = vec![ranges.next().unwrap(), ranges.next().unwrap(), ranges.next().unwrap()];
    assert_eq!(first_three, vec![0..1, 2..3, 4..5]);
}

#[test]
fn analytical_sizes_match_exact_ranges_for_small_views() {
    for dtype in [DataType::Int4, DataType::Int8, DataType::Fp32] {
        for rows in 1..=5 {
            for columns in 1..=5 {
                let tensor = tensor(&[rows, columns], dtype);
                for row_offset in 0..rows {
                    for column_offset in 0..columns {
                        for view_rows in 1..=rows - row_offset {
                            for view_columns in 1..=columns - column_offset {
                                let view = TensorView::new(
                                    tensor.clone(),
                                    &[view_rows, view_columns],
                                    &[row_offset, column_offset],
                                )
                                .unwrap();
                                let exact = byte_ranges(view.layout())
                                    .into_iter()
                                    .map(|range| range.len())
                                    .sum::<usize>();
                                assert_eq!(view.layout().num_access_bytes(), exact);
                            }
                        }
                    }
                }
            }
        }
    }
}

#[test]
fn analytical_intersections_match_exact_ranges_for_small_views() {
    for dtype in [DataType::Int4, DataType::Int8, DataType::Fp32] {
        for rows in 1..=4 {
            for columns in 1..=4 {
                let tensor = tensor(&[rows, columns], dtype);
                for row_offset in 0..rows {
                    for column_offset in 0..columns {
                        let view = TensorView::new(
                            tensor.clone(),
                            &[rows - row_offset, columns - column_offset],
                            &[row_offset, column_offset],
                        )
                        .unwrap();
                        let ranges = byte_ranges(view.layout());
                        for start in 0..=tensor.num_bytes() {
                            for end in start..=tensor.num_bytes() {
                                let exact = ranges
                                    .iter()
                                    .map(|range| range.end.min(end).saturating_sub(range.start.max(start)))
                                    .sum::<usize>();
                                assert_eq!(
                                    view.layout().num_access_bytes_in(start..end),
                                    exact,
                                    "{dtype:?} {rows}x{columns} at {row_offset},{column_offset} in {start}..{end}",
                                );
                            }
                        }
                    }
                }
            }
        }
    }
}

#[test]
fn intersects_large_strided_views_without_enumerating_ranges() {
    let tensor = tensor(&[100_000_000, 2], DataType::Int8);
    let view = TensorView::new(tensor, &[100_000_000, 1], &[0, 0]).unwrap();

    assert_eq!(view.layout().num_access_bytes_in(50_000_000..150_000_000), 50_000_000);
}

#[test]
fn finds_exact_overlaps() {
    let tensor = tensor(&[4, 4], DataType::Int8);
    let first = TensorView::new(tensor.clone(), &[4, 1], &[0, 0]).unwrap();
    let second = TensorView::new(tensor.clone(), &[4, 1], &[0, 1]).unwrap();
    let overlapping = TensorView::new(tensor, &[2, 1], &[1, 0]).unwrap();

    assert_eq!(first.first_overlapping_byte_ranges(&second), None);
    assert_eq!(first.first_overlapping_byte_ranges(&overlapping), Some((4..5, 4..5)));
}

#[test]
fn bounded_progression_overlap_matches_exact_ranges() {
    for first_start in 0..=4 {
        for second_start in 0..=4 {
            for first_stride in 0..=4 {
                for second_stride in 0..=4 {
                    for first_count in 1..=5 {
                        for second_count in 1..=5 {
                            for first_num_bytes in 1..=4 {
                                for second_num_bytes in 1..=4 {
                                    let first = progression(first_start, first_stride, first_count, first_num_bytes);
                                    let second =
                                        progression(second_start, second_stride, second_count, second_num_bytes);
                                    assert_eq!(
                                        bounded_progression_ranges_overlap(first, second),
                                        Some(exact_progression_ranges_overlap(first, second)),
                                        "first={first:?}, second={second:?}",
                                    );
                                }
                            }
                        }
                    }
                }
            }
        }
    }
}

#[test]
fn bounded_progression_overlap_includes_the_final_physical_byte() {
    let final_byte = i128::from(u64::MAX);
    let first = progression(final_byte - 1, 0, 1, 2);
    let overlapping = progression(final_byte, 0, 1, 1);
    let disjoint = progression(final_byte - 2, 0, 1, 1);

    assert_eq!(bounded_progression_ranges_overlap(first, overlapping), Some(true));
    assert_eq!(bounded_progression_ranges_overlap(disjoint, overlapping), Some(false));
}

#[test]
fn packed_elements_in_one_byte_overlap() {
    let tensor = tensor(&[2], DataType::Int4);
    let first = TensorView::new(tensor.clone(), &[1], &[0]).unwrap();
    let second = TensorView::new(tensor, &[1], &[1]).unwrap();

    assert_eq!(first.first_overlapping_byte_ranges(&second), Some((0..1, 0..1)));
}

#[test]
fn finds_overlap_from_multiple_odd_packed_strides() {
    let packed_tensor = Tensor::new(&[2, 3, 3], &DataType::Int4, 0).unwrap();
    let packed = TensorView::new(packed_tensor, &[2, 2, 1], &[0, 0, 0]).unwrap();
    let byte_tensor = Tensor::new(&[1], &DataType::Int8, 1).unwrap();
    let byte = TensorView::new_full(byte_tensor);

    assert_eq!(address_ranges(&packed), vec![0..2, 4..5, 6..7]);
    assert_eq!(packed.first_overlapping_byte_ranges(&byte), Some((0..2, 1..2)));
}

#[test]
fn packed_start_progressions_cover_every_range() {
    for dtype in [DataType::Fp4, DataType::Int4] {
        let tensor = Tensor::new(&[2, 3, 3], &dtype, 0).unwrap();
        for view in three_dimensional_views(&tensor) {
            let layout = view.layout();
            let progressions = layout.byte_start_progressions(0);
            for index in 0..layout.num_ranges() {
                let range = element_range_to_byte_range(layout.element_range(index), layout.bits_per_element());
                assert!(progressions.iter().any(|progression| {
                    progression_contains(*progression, range.start as i128)
                        && progression.num_bytes_per_range >= range.len() as i128
                }));
            }
        }
    }
}

#[test]
fn packed_stride_proof_is_conservative_for_small_three_dimensional_views() {
    for dtype in [DataType::Fp4, DataType::Int4] {
        let first_tensor = Tensor::new(&[2, 3, 3], &dtype, 0).unwrap();
        let first_views = three_dimensional_views(&first_tensor);
        for second_address in 0..=1 {
            let second_tensor = Tensor::new(&[2, 3, 3], &dtype, second_address).unwrap();
            let second_views = three_dimensional_views(&second_tensor);
            for first in &first_views {
                for second in &second_views {
                    let exact = exact_overlap(first, second);
                    if first.byte_strides_are_disjoint(second) {
                        assert_eq!(exact, None);
                    }
                    assert_eq!(first.first_overlapping_byte_ranges(second), exact);
                }
            }
        }
    }
}

#[test]
fn proves_large_shifted_byte_strides_are_disjoint() {
    let first_tensor = Tensor::new(&[200_000_000, 2], &DataType::Int8, 0).unwrap();
    let second_tensor = Tensor::new(&[200_000_000, 2], &DataType::Int8, 1).unwrap();
    let first = TensorView::new(first_tensor, &[200_000_000, 1], &[0, 0]).unwrap();
    let second = TensorView::new(second_tensor, &[200_000_000, 1], &[0, 0]).unwrap();

    assert!(ranges_overlap(&first.address_bounds(), &second.address_bounds()));
    assert!(first.byte_strides_are_disjoint(&second));
    assert_eq!(first.first_overlapping_byte_ranges(&second), None);
}

#[test]
fn proves_finite_byte_strides_are_disjoint() {
    const STRIDE: usize = 1_000_000_000;
    const COUNT: usize = STRIDE / 2;

    let first_tensor = Tensor::new(&[COUNT, STRIDE], &DataType::Int8, 0).unwrap();
    let second_tensor = Tensor::new(&[COUNT, STRIDE + 1], &DataType::Int8, 1).unwrap();
    let first = TensorView::new(first_tensor, &[COUNT, 1], &[0, 0]).unwrap();
    let second = TensorView::new(second_tensor, &[COUNT, 1], &[0, 0]).unwrap();

    assert!(ranges_overlap(&first.address_bounds(), &second.address_bounds()));
    assert!(first.byte_strides_are_disjoint(&second));
    assert_eq!(first.first_overlapping_byte_ranges(&second), None);
}

#[test]
fn proves_wide_finite_byte_strides_are_disjoint() {
    const COUNT: usize = 100_000_000;

    let first_tensor = Tensor::new(&[COUNT, 1_000_000_001], &DataType::Int8, 0).unwrap();
    let second_tensor = Tensor::new(&[COUNT, 1_000_000_005], &DataType::Int8, 2).unwrap();
    let first = TensorView::new(first_tensor, &[COUNT, 2], &[0, 0]).unwrap();
    let second = TensorView::new(second_tensor, &[COUNT, 2], &[0, 0]).unwrap();

    assert!(ranges_overlap(&first.address_bounds(), &second.address_bounds()));
    assert!(first.byte_strides_are_disjoint(&second));
    assert_eq!(first.first_overlapping_byte_ranges(&second), None);
}

#[test]
fn proves_large_packed_strides_are_disjoint() {
    let tensor = Tensor::new(&[200_000_000, 4], &DataType::Int4, 0).unwrap();
    let first = TensorView::new(tensor.clone(), &[200_000_000, 1], &[0, 0]).unwrap();
    let second = TensorView::new(tensor, &[200_000_000, 1], &[0, 2]).unwrap();

    assert!(ranges_overlap(&first.address_bounds(), &second.address_bounds()));
    assert!(first.byte_strides_are_disjoint(&second));
    assert_eq!(first.first_overlapping_byte_ranges(&second), None);
}

#[test]
fn stride_proof_does_not_hide_shifted_overlaps() {
    let first_tensor = Tensor::new(&[10, 2], &DataType::Int8, 0).unwrap();
    let second_tensor = Tensor::new(&[10, 2], &DataType::Int8, 2).unwrap();
    let first = TensorView::new(first_tensor, &[10, 1], &[0, 0]).unwrap();
    let second = TensorView::new(second_tensor, &[10, 1], &[0, 0]).unwrap();

    assert!(!first.byte_strides_are_disjoint(&second));
    assert_eq!(first.first_overlapping_byte_ranges(&second), Some((2..3, 2..3)));
}

#[test]
fn stride_disjointness_proof_is_conservative_for_small_views() {
    for dtype in [DataType::Int4, DataType::Int8, DataType::Fp32] {
        for columns in 1..=5 {
            let tensor_bytes = Tensor::new(&[4, columns], &dtype, 0).unwrap().num_bytes();
            for first_address in 0..=2 {
                for second_address in 0..=2 {
                    let first_tensor = Tensor::new(&[4, columns], &dtype, first_address).unwrap();
                    let second_tensor = Tensor::new(&[4, columns], &dtype, second_address).unwrap();
                    for first_column in 0..columns {
                        for second_column in 0..columns {
                            let first = TensorView::new(first_tensor.clone(), &[4, 1], &[0, first_column]).unwrap();
                            let second = TensorView::new(second_tensor.clone(), &[4, 1], &[0, second_column]).unwrap();
                            let exact = exact_overlap(&first, &second);

                            if first.byte_strides_are_disjoint(&second) {
                                assert_eq!(exact, None);
                            }
                            assert_eq!(
                                first.first_overlapping_byte_ranges(&second),
                                exact,
                                "{dtype:?} {columns} columns, {tensor_bytes} bytes, addresses {first_address} and {second_address}, columns {first_column} and {second_column}",
                            );
                        }
                    }
                }
            }
        }
    }
}

#[test]
fn byte_ranges_are_sorted_and_separated() {
    let tensor = tensor(&[3, 4, 5], DataType::Int4);
    let view = TensorView::new(tensor, &[2, 2, 3], &[1, 1, 1]).unwrap();
    let ranges = byte_ranges(view.layout());
    for pair in ranges.windows(2) {
        assert!(pair[0].start < pair[0].end);
        assert!(pair[0].end < pair[1].start);
    }
    let bounds = view.address_bounds();
    assert_eq!(bounds.start as usize, ranges[0].start);
    assert_eq!(bounds.end as usize, ranges[ranges.len() - 1].end);
}

#[test]
fn bytes_in_a_covering_range_are_all_access_bytes() {
    let tensor = Tensor::new(&[6, 7], &DataType::Int4, 100).unwrap();
    let view = TensorView::new(tensor, &[3, 4], &[2, 1]).unwrap();
    let bounds = view.address_bounds();
    assert_eq!(view.num_access_bytes_in(bounds.clone()), view.layout().num_access_bytes());
    assert_eq!(view.num_access_bytes_in(0..bounds.start), 0);
    assert_eq!(view.num_access_bytes_in(bounds.end..u128::MAX), 0);
}

#[test]
fn progression_counts_and_containment() {
    let progression = progression(10, 3, 4, 2);
    assert_eq!(progression_count(progression), Some(4));
    assert!(progression_contains(progression, 16));
    assert!(!progression_contains(progression, 17));
    assert!(!progression_contains(progression, 22));
}

#[test]
fn disjoint_byte_strides_leave_every_range_apart() {
    for dtype in [DataType::Int8, DataType::Bf16, DataType::Fp32] {
        let first_tensor = Tensor::new(&[6, 4], &dtype, 0).unwrap();
        let bytes = first_tensor.num_bytes();
        let element = bytes / 24;
        let second_tensor = Tensor::new(&[6, 4], &dtype, 2 * element as u64).unwrap();
        let first = TensorView::new(first_tensor, &[6, 1], &[0, 0]).unwrap();
        let second = TensorView::new(second_tensor, &[6, 1], &[0, 1]).unwrap();

        assert!(first.byte_strides_are_disjoint(&second));
        assert_eq!(first.first_overlapping_byte_ranges(&second), None);
        for a in address_ranges(&first) {
            for b in address_ranges(&second) {
                assert!(!ranges_overlap(&a, &b));
            }
        }
    }
}

#[test]
fn views_apart_in_a_dimension_share_no_byte() {
    for dtype in [DataType::Int8, DataType::Bf16, DataType::Fp32] {
        let t = tensor(&[3, 4, 5], dtype);
        let first = TensorView::new(t.clone(), &[3, 2, 5], &[0, 0, 0]).unwrap();
        let second = TensorView::new(t.clone(), &[2, 2, 3], &[1, 2, 1]).unwrap();
        assert!(first.coordinates_are_disjoint(&second));
        assert_eq!(first.first_overlapping_byte_ranges(&second), None);
        for a in address_ranges(&first) {
            for b in address_ranges(&second) {
                assert!(!ranges_overlap(&a, &b));
            }
        }
    }
}

#[test]
fn byte_ranges_hold_exactly_the_bytes_of_the_view_elements() {
    for (dtype, bits) in [(DataType::Int4, 4usize), (DataType::Int8, 8), (DataType::Bf16, 16)] {
        let t = tensor(&[3, 4, 5], dtype);
        let view = TensorView::new(t, &[2, 2, 3], &[1, 1, 1]).unwrap();
        let mut expected = std::collections::BTreeSet::new();
        for i in 1..3 {
            for j in 1..3 {
                for k in 1..4 {
                    let e = (i * 4 + j) * 5 + k;
                    for y in (e * bits) / 8..((e + 1) * bits + 7) / 8 {
                        expected.insert(y);
                    }
                }
            }
        }
        let mut found = std::collections::BTreeSet::new();
        for range in byte_ranges(view.layout()) {
            for y in range {
                found.insert(y);
            }
        }
        assert_eq!(found, expected);
    }
}

#[test]
fn disjoint_packed_strides_leave_every_range_apart() {
    let first = TensorView::new(Tensor::new(&[6, 4], &DataType::Int4, 0).unwrap(), &[6, 1], &[0, 0]).unwrap();
    let second = TensorView::new(Tensor::new(&[6, 4], &DataType::Int4, 1).unwrap(), &[6, 1], &[0, 0]).unwrap();

    assert!(first.byte_strides_are_disjoint(&second));
    assert_eq!(first.first_overlapping_byte_ranges(&second), None);
    for a in address_ranges(&first) {
        for b in address_ranges(&second) {
            assert!(!ranges_overlap(&a, &b));
        }
    }
}
