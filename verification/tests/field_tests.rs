use collatz_air::field::Fp;
use collatz_air::field::FIELD_PRIME;

#[test]
fn new_reduces_modulo_the_prime() {
    assert_eq!(Fp::new(0).val(), 0);
    assert_eq!(Fp::new(FIELD_PRIME).val(), 0);
    assert_eq!(Fp::new(FIELD_PRIME + 7).val(), 7);
    assert_eq!(Fp::new(u64::MAX).val(), u64::MAX % FIELD_PRIME);
}

#[test]
fn addition_wraps_at_the_prime() {
    assert_eq!(Fp::new(3).add(Fp::new(4)).val(), 7);
    assert_eq!(Fp::new(FIELD_PRIME - 1).add(Fp::new(1)).val(), 0);
    assert_eq!(Fp::new(FIELD_PRIME - 1).add(Fp::new(5)).val(), 4);
}

#[test]
fn subtraction_wraps_at_zero() {
    assert_eq!(Fp::new(9).sub(Fp::new(4)).val(), 5);
    assert_eq!(Fp::new(0).sub(Fp::new(1)).val(), FIELD_PRIME - 1);
    assert_eq!(Fp::new(2).sub(Fp::new(7)).val(), FIELD_PRIME - 5);
}

#[test]
fn multiplication_reduces_products() {
    assert_eq!(Fp::new(6).mul(Fp::new(7)).val(), 42);
    let a = 1u64 << 30;
    let expected = ((a as u128 * a as u128) % FIELD_PRIME as u128) as u64;
    assert_eq!(Fp::new(a).mul(Fp::new(a)).val(), expected);
    assert_eq!(Fp::new(FIELD_PRIME - 1).mul(Fp::new(FIELD_PRIME - 1)).val(), 1);
}

#[test]
fn identities_behave() {
    assert_eq!(Fp::zero().val(), 0);
    assert_eq!(Fp::one().val(), 1);
    let x = Fp::new(12345);
    assert_eq!(x.add(Fp::zero()).val(), 12345);
    assert_eq!(x.mul(Fp::one()).val(), 12345);
}
