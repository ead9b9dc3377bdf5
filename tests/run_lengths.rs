use granular_data::flags::{compute_run_lengths, FlagBits};

fn create_bitvec(flags: &[bool]) -> FlagBits {
    FlagBits::from_slice(flags)
}

/// Tests the expected run-lengths when you have only a single dimension.
#[test]
fn test_1d_run_lengths() {
    let sizes = vec![3, 2, 3];

    let flags = create_bitvec(&[true, false, false]);
    let run_lengths = compute_run_lengths(&flags, &sizes);
    assert_eq!(run_lengths, vec![1, 0, 0]);

    let flags = create_bitvec(&[false, true, false]);
    let run_lengths = compute_run_lengths(&flags, &sizes);
    assert_eq!(run_lengths, vec![0, 1, 0]);

    let flags = create_bitvec(&[false, false, true]);
    let run_lengths = compute_run_lengths(&flags, &sizes);
    assert_eq!(run_lengths, vec![0, 0, 1]);
}

#[test]
fn empty_input_gives_empty_run_lengths() {
    let flags = create_bitvec(&[]);
    let sizes: Vec<usize> = vec![];
    assert_eq!(compute_run_lengths(&flags, &sizes), Vec::<usize>::new());
}

#[test]
fn unflagged_positions_are_zero_and_length_kept() {
    let flags = create_bitvec(&[false, true, false, true, false]);
    let sizes = vec![7, 4, 9, 5, 2];
    let run_lengths = compute_run_lengths(&flags, &sizes);
    assert_eq!(run_lengths.len(), 5);
    assert_eq!(run_lengths, vec![0, 5, 0, 1, 0]);
}

#[test]
fn single_active_dimension_ignores_other_sizes() {
    let flags = create_bitvec(&[false, false, true, false]);
    let sizes = vec![0, 100, 6, 0];
    assert_eq!(compute_run_lengths(&flags, &sizes), vec![0, 0, 1, 0]);
}

#[test]
fn two_active_dimensions_are_row_major() {
    let flags = create_bitvec(&[true, false, true]);
    let sizes = vec![3, 2, 4];
    assert_eq!(compute_run_lengths(&flags, &sizes), vec![4, 0, 1]);
}

#[test]
fn three_active_dimensions_multiply_later_sizes() {
    let flags = create_bitvec(&[true, true, true]);
    let sizes = vec![2, 3, 5];
    assert_eq!(compute_run_lengths(&flags, &sizes), vec![15, 5, 1]);
}

#[test]
fn flag_bits_hold_what_was_given() {
    let flags = create_bitvec(&[true, false, true]);
    assert_eq!(flags.len(), 3);
    assert!(flags.get(0));
    assert!(!flags.get(1));
    assert!(flags.get(2));
}
