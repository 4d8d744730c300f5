use collatz_air::errors::CollatzError;
use collatz_air::public_inputs::PublicInputs;
use collatz_air::trace::generate_collatz_trace;

#[test]
fn packed_elements_are_bits_then_step_count() {
    let pi = PublicInputs::new(52, 11, 6);
    let elements = pi.to_elements();
    assert_eq!(elements.len(), 7);
    let bits_of_52 = [0u64, 0, 1, 0, 1, 1];
    for j in 0..6 {
        assert_eq!(elements[j].val(), bits_of_52[j]);
    }
    assert_eq!(elements[6].val(), 11);
}

#[test]
fn matching_inputs_validate_against_the_trace() {
    let t = generate_collatz_trace(52, 6).unwrap();
    let pi = PublicInputs::new(52, t.steps_count as u32, 6);
    assert!(pi.validate_against_trace(&t).is_ok());
}

#[test]
fn wrong_starting_value_is_a_mismatch() {
    let t = generate_collatz_trace(52, 6).unwrap();
    let pi = PublicInputs::new(53, t.steps_count as u32, 6);
    assert_eq!(
        pi.validate_against_trace(&t),
        Err(CollatzError::PublicInputMismatch)
    );
}

#[test]
fn wrong_step_count_is_a_mismatch() {
    let t = generate_collatz_trace(52, 6).unwrap();
    let pi = PublicInputs::new(52, 10, 6);
    assert_eq!(
        pi.validate_against_trace(&t),
        Err(CollatzError::PublicInputMismatch)
    );
}

#[test]
fn wrong_width_is_a_mismatch() {
    let t = generate_collatz_trace(52, 6).unwrap();
    let pi = PublicInputs::new(52, t.steps_count as u32, 5);
    assert_eq!(
        pi.validate_against_trace(&t),
        Err(CollatzError::PublicInputMismatch)
    );
}
