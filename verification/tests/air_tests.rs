use collatz_air::air::is_binary;
use collatz_air::air_laws::accepts_trace;
use collatz_air::air::weighted_sum_fp;
use collatz_air::air::Assertion;
use collatz_air::air::CollatzAir;
use collatz_air::field::Fp;
use collatz_air::trace::generate_collatz_trace;
use collatz_air::trace::CollatzTrace;

fn assertions_hold(air: &CollatzAir, t: &CollatzTrace) -> bool {
    air.get_assertions()
        .iter()
        .all(|a: &Assertion| t.rows[a.step][a.column].val() == a.value.val())
}

fn transitions_vanish(air: &CollatzAir, t: &CollatzTrace) -> bool {
    (0..t.rows.len() - 1).all(|i| {
        air.evaluate_transition(&t.rows[i], &t.rows[i + 1])
            .iter()
            .all(|c: &Fp| c.val() == 0)
    })
}

fn air_for(t: &CollatzTrace, starting_value: u32) -> CollatzAir {
    CollatzAir::new(
        t.n_bits,
        starting_value,
        t.steps_count as u32,
        t.rows.len(),
    )
}

#[test]
fn valid_trace_satisfies_every_constraint() {
    let t = generate_collatz_trace(52, 6).unwrap();
    let air = air_for(&t, 52);
    assert!(assertions_hold(&air, &t));
    assert!(transitions_vanish(&air, &t));
}

#[test]
fn single_row_trace_satisfies_its_boundaries() {
    let t = generate_collatz_trace(1, 1).unwrap();
    let air = air_for(&t, 1);
    // Row 0 and the last row coincide; both boundary sets hold of it.
    assert!(assertions_hold(&air, &t));
}

#[test]
fn flipping_any_non_padding_bit_is_detected() {
    let t = generate_collatz_trace(52, 6).unwrap();
    let air = air_for(&t, 52);
    for i in 0..=t.steps_count {
        for j in 0..t.n_bits {
            let mut rows: Vec<Vec<Fp>> = t.rows.clone();
            let flipped = 1 - rows[i][j].val();
            rows[i][j] = Fp::new(flipped);
            let tampered = CollatzTrace {
                n_bits: t.n_bits,
                steps_count: t.steps_count,
                rows,
            };
            let accepted =
                assertions_hold(&air, &tampered) && transitions_vanish(&air, &tampered);
            assert!(!accepted, "flip at row {i} bit {j} went unnoticed");
        }
    }
}

#[test]
fn acceptance_check_matches_the_instance() {
    let t = generate_collatz_trace(52, 6).unwrap();
    let air = air_for(&t, 52);
    assert!(accepts_trace(&air, &t));
    // A wrong claimed step count is rejected at the last row's counter.
    let wrong_steps = CollatzAir::new(6, 52, 10, 16);
    assert!(!accepts_trace(&wrong_steps, &t));
    // A wrong claimed starting value is rejected at row 0's bits.
    let wrong_start = CollatzAir::new(6, 53, 11, 16);
    assert!(!accepts_trace(&wrong_start, &t));
    // A tampered cell is rejected by a transition constraint.
    let mut rows = t.rows.clone();
    let flipped = 1 - rows[3][0].val();
    rows[3][0] = Fp::new(flipped);
    let tampered = CollatzTrace {
        n_bits: t.n_bits,
        steps_count: t.steps_count,
        rows,
    };
    assert!(!accepts_trace(&air, &tampered));
}

#[test]
fn constraint_degrees_follow_the_layout() {
    let air = CollatzAir::new(6, 52, 11, 16);
    let degrees = air.transition_constraint_degrees();
    assert_eq!(degrees.len(), 9);
    assert_eq!(&degrees[..7], &[2, 2, 2, 2, 2, 2, 2]);
    assert_eq!(degrees[7], 3);
    assert_eq!(degrees[8], 2);
    assert_eq!(*degrees.iter().max().unwrap(), 3);
    assert_eq!(air.width(), 8);
}

#[test]
fn boundary_assertions_pin_both_ends() {
    let air = CollatzAir::new(6, 52, 11, 16);
    let assertions = air.get_assertions();
    assert_eq!(assertions.len(), 15);
    // Row 0: the bits of 52 (110100 in binary, LSB first), counter 0, flag 0.
    let bits_of_52 = [0u64, 0, 1, 0, 1, 1];
    for j in 0..6 {
        assert_eq!(assertions[j].column, j);
        assert_eq!(assertions[j].step, 0);
        assert_eq!(assertions[j].value.val(), bits_of_52[j]);
    }
    assert_eq!((assertions[6].column, assertions[6].step), (6, 0));
    assert_eq!(assertions[6].value.val(), 0);
    assert_eq!((assertions[7].column, assertions[7].step), (7, 0));
    assert_eq!(assertions[7].value.val(), 0);
    // Last row: value 1 and counter 11.
    assert_eq!((assertions[8].column, assertions[8].step), (0, 15));
    assert_eq!(assertions[8].value.val(), 1);
    for j in 1..6 {
        let a = &assertions[8 + j];
        assert_eq!((a.column, a.step), (j, 15));
        assert_eq!(a.value.val(), 0);
    }
    assert_eq!((assertions[14].column, assertions[14].step), (6, 15));
    assert_eq!(assertions[14].value.val(), 11);
}

#[test]
fn is_binary_vanishes_exactly_on_bits() {
    assert_eq!(is_binary(Fp::new(0)).val(), 0);
    assert_eq!(is_binary(Fp::new(1)).val(), 0);
    assert_eq!(is_binary(Fp::new(2)).val(), 2);
    assert_eq!(is_binary(Fp::new(5)).val(), 20);
}

#[test]
fn weighted_sum_recovers_the_row_value() {
    let bits: Vec<Fp> = [0u64, 0, 1, 0, 1, 1].iter().map(|&b| Fp::new(b)).collect();
    assert_eq!(weighted_sum_fp(&bits, 6).val(), 52);
    let empty: Vec<Fp> = Vec::new();
    assert_eq!(weighted_sum_fp(&empty, 0).val(), 0);
}
