use ngram_index::chunks::{chunk_bounds, chunk_count_label, chunk_name};

#[test]
fn bounds_example_ten_rows_by_four() {
    // total_rows = 10, chunk_size = 4: starts 0, 4, 8 and widths 4, 4, 2.
    let b = chunk_bounds(10, 4);
    assert_eq!(b, vec![(0, 4), (4, 4), (8, 2)]);
}

#[test]
fn bounds_exact_multiple() {
    let b = chunk_bounds(8, 4);
    assert_eq!(b, vec![(0, 4), (4, 4)]);
}

#[test]
fn bounds_empty_row_space() {
    let b = chunk_bounds(0, 5);
    assert_eq!(b, Vec::<(u64, u64)>::new());
}

#[test]
fn bounds_single_short_chunk() {
    let b = chunk_bounds(3, 5);
    assert_eq!(b, vec![(0, 3)]);
}

#[test]
fn bounds_chunk_size_one() {
    let b = chunk_bounds(3, 1);
    assert_eq!(b, vec![(0, 1), (1, 1), (2, 1)]);
}

#[test]
fn bounds_partition_every_row_once() {
    // No row index is skipped or duplicated across chunk boundaries.
    for (total, size) in [(10u64, 4u64), (8, 4), (1, 7), (13, 13), (25, 3)] {
        let b = chunk_bounds(total, size);
        let mut seen = vec![0u32; total as usize];
        for (start, width) in b {
            for row in start..start + width {
                seen[row as usize] += 1;
            }
        }
        assert!(seen.iter().all(|&n| n == 1));
    }
}

#[test]
fn label_counts_one_per_full_step_plus_one() {
    assert_eq!(chunk_count_label(10, 4), 3);
    assert_eq!(chunk_count_label(0, 4), 1);
    assert_eq!(chunk_count_label(3, 4), 1);
}

#[test]
fn label_is_one_high_on_exact_multiples() {
    // The declared label is cosmetic: one above the true chunk count when
    // the row count is an exact multiple of the chunk size.
    assert_eq!(chunk_count_label(8, 4), 3);
    assert_eq!(chunk_bounds(8, 4).len(), 2);
}

#[test]
fn name_pads_index_and_label_to_five_digits() {
    assert_eq!(chunk_name(1, 0, 3), "1-00000-of-00003");
    assert_eq!(chunk_name(4, 12, 345), "4-00012-of-00345");
}

#[test]
fn name_keeps_wide_values_unpadded() {
    assert_eq!(chunk_name(5, 99999, 100000), "5-99999-of-100000");
    assert_eq!(chunk_name(3, 1234567, 7654321), "3-1234567-of-7654321");
}

#[test]
fn name_boundary_widths() {
    assert_eq!(chunk_name(2, 9999, 10000), "2-09999-of-10000");
    assert_eq!(chunk_name(2, 10000, 10001), "2-10000-of-10001");
}
