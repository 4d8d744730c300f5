use collatz_air::bits::required_bit_width;
use collatz_air::errors::CollatzError;
use collatz_air::sequence::compute_collatz_sequence;
use collatz_air::trace::generate_collatz_trace;
use collatz_air::trace::CollatzTrace;

fn row_value(t: &CollatzTrace, i: usize) -> u64 {
    let mut sum: u64 = 0;
    for j in 0..t.n_bits {
        sum += t.rows[i][j].val() << j;
    }
    sum
}

#[test]
fn scenario_52_has_the_documented_shape() {
    let t = generate_collatz_trace(52, 6).unwrap();
    let expected = [52u64, 26, 13, 40, 20, 10, 5, 16, 8, 4, 2, 1];
    assert_eq!(t.n_bits, 6);
    assert_eq!(t.steps_count, 11);
    assert_eq!(t.rows.len(), 16);
    for i in 0..12 {
        assert_eq!(row_value(&t, i), expected[i]);
    }
    // Counter reaches 11 at row 11 and stays pinned over the padding.
    assert_eq!(t.rows[11][6].val(), 11);
    for i in 12..16 {
        assert_eq!(row_value(&t, i), 1);
        assert_eq!(t.rows[i][6].val(), 11);
        assert_eq!(t.rows[i][7].val(), 0);
    }
}

#[test]
fn rows_reconstruct_the_padded_trajectory() {
    // 10 -> 5 -> 16 -> 8 -> 4 -> 2 -> 1: 6 steps, padded to 8 rows.
    let t = generate_collatz_trace(10, 5).unwrap();
    let expected = [10u64, 5, 16, 8, 4, 2, 1, 1];
    assert_eq!(t.steps_count, 6);
    assert_eq!(t.rows.len(), 8);
    for i in 0..8 {
        assert_eq!(row_value(&t, i), expected[i]);
    }
}

#[test]
fn first_and_last_rows_reconstruct_start_and_one() {
    let t = generate_collatz_trace(52, 6).unwrap();
    assert_eq!(row_value(&t, 0), 52);
    assert_eq!(row_value(&t, t.rows.len() - 1), 1);
    // Every bit cell is a bit.
    for i in 0..t.rows.len() {
        assert_eq!(t.rows[i].len(), t.n_bits + 2);
        for j in 0..t.n_bits {
            assert!(t.rows[i][j].val() <= 1);
        }
    }
}

#[test]
fn flags_mark_exactly_the_genuine_steps() {
    let t = generate_collatz_trace(52, 6).unwrap();
    for i in 0..t.rows.len() {
        let expected = if i >= 1 && i <= t.steps_count { 1 } else { 0 };
        assert_eq!(t.rows[i][7].val(), expected);
        let counter = if i <= t.steps_count { i as u64 } else { t.steps_count as u64 };
        assert_eq!(t.rows[i][6].val(), counter);
    }
}

#[test]
fn re_encoding_yields_identical_traces() {
    let t1 = generate_collatz_trace(52, 6).unwrap();
    let t2 = generate_collatz_trace(52, 6).unwrap();
    assert_eq!(t1.n_bits, t2.n_bits);
    assert_eq!(t1.steps_count, t2.steps_count);
    assert_eq!(t1.rows.len(), t2.rows.len());
    for i in 0..t1.rows.len() {
        assert_eq!(t1.rows[i].len(), t2.rows[i].len());
        for j in 0..t1.rows[i].len() {
            assert_eq!(t1.rows[i][j].val(), t2.rows[i][j].val());
        }
    }
}

#[test]
fn counter_at_last_row_equals_steps_count() {
    let t = generate_collatz_trace(52, 6).unwrap();
    assert_eq!(t.rows[t.rows.len() - 1][6].val(), t.steps_count as u64);
    let t1 = generate_collatz_trace(7, 6).unwrap();
    assert_eq!(
        t1.rows[t1.rows.len() - 1][t1.n_bits].val(),
        t1.steps_count as u64
    );
}

#[test]
fn scenario_1_is_a_single_row_trace() {
    let t = generate_collatz_trace(1, 1).unwrap();
    assert_eq!(t.steps_count, 0);
    assert_eq!(t.rows.len(), 1);
    // Row 0 is also the last row: value 1, counter 0, flag 0.
    assert_eq!(row_value(&t, 0), 1);
    assert_eq!(t.rows[0][1].val(), 0);
    assert_eq!(t.rows[0][2].val(), 0);
}

#[test]
fn scenario_27_with_6_bits_overflows_the_columns() {
    assert!(matches!(
        generate_collatz_trace(27, 6),
        Err(CollatzError::ColumnWidthOverflow)
    ));
}

#[test]
fn required_bit_width_is_the_length_of_the_maximum() {
    let seq = compute_collatz_sequence(52).unwrap();
    assert_eq!(required_bit_width(&seq), 6);
    let seq27 = compute_collatz_sequence(27).unwrap();
    // The trajectory of 27 peaks at 9232, which needs 14 bits.
    assert_eq!(required_bit_width(&seq27), 14);
    assert_eq!(required_bit_width(&vec![1]), 1);
    assert_eq!(required_bit_width(&Vec::new()), 0);
}

#[test]
fn invalid_bit_widths_are_rejected() {
    assert!(matches!(
        generate_collatz_trace(52, 0),
        Err(CollatzError::InvalidInput)
    ));
    assert!(matches!(
        generate_collatz_trace(52, 29),
        Err(CollatzError::InvalidInput)
    ));
    assert!(matches!(
        generate_collatz_trace(0, 6),
        Err(CollatzError::InvalidInput)
    ));
}
