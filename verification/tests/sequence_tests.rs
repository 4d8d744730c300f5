use collatz_air::errors::CollatzError;
use collatz_air::sequence::compute_collatz_sequence;

#[test]
fn every_small_start_reaches_one_by_the_step_rule() {
    for n in 1u32..=10000 {
        let seq = compute_collatz_sequence(n).expect("small starts stay within the fuses");
        assert!(!seq.is_empty());
        assert_eq!(seq[0], n);
        assert_eq!(*seq.last().unwrap(), 1);
        for w in seq.windows(2) {
            let (cur, next) = (w[0], w[1]);
            assert_ne!(cur, 1);
            if cur % 2 == 0 {
                assert_eq!(next, cur / 2);
            } else {
                assert_eq!(next, 3 * cur + 1);
            }
        }
    }
}

#[test]
fn trajectory_of_52_is_the_known_one() {
    let seq = compute_collatz_sequence(52).unwrap();
    assert_eq!(seq, vec![52, 26, 13, 40, 20, 10, 5, 16, 8, 4, 2, 1]);
    assert_eq!(seq.len() - 1, 11);
}

#[test]
fn trajectory_of_1_is_single_element() {
    let seq = compute_collatz_sequence(1).unwrap();
    assert_eq!(seq, vec![1]);
    assert_eq!(seq.len() - 1, 0);
}

#[test]
fn zero_is_invalid_input() {
    assert_eq!(compute_collatz_sequence(0), Err(CollatzError::InvalidInput));
}

#[test]
fn odd_start_above_value_cap_diverges() {
    // 1431655765 is odd and exceeds the value cap, so 3v + 1 would not fit.
    assert_eq!(
        compute_collatz_sequence(1431655765),
        Err(CollatzError::Divergence)
    );
}
