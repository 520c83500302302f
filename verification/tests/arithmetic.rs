use std::cmp::Ordering;
use symbolica::finite_field::{FiniteField, FiniteFieldElement};
use symbolica::number::{BorrowedNumber, Number, NumberError};
use symbolica::digits::is_minimal;
use symbolica::rational::{same_digits, BorrowedRational, LargeRational};
use symbolica::state::{FiniteFieldIndex, State};
use symbolica::utils::{div_exact, gcd_signed, gcd_unsigned, magnitude, with_sign};

fn large(negative: bool, numer: &[u8], denom: &[u8]) -> Number {
    Number::Large(LargeRational { negative, numer: numer.to_vec(), denom: denom.to_vec() })
}

fn two_to_the_63() -> Number {
    large(false, &[0, 0, 0, 0, 0, 0, 0, 0x80], &[1])
}

fn state_with_fields() -> (State, FiniteFieldIndex, FiniteFieldIndex) {
    let mut state = State::new();
    let seven = state.get_or_insert_finite_field(FiniteField::new(7).unwrap());
    let big = state.get_or_insert_finite_field(FiniteField::new(18446744073709551557).unwrap());
    (state, seven, big)
}

#[test]
fn gcd_of_machine_integers() {
    assert_eq!(gcd_unsigned(12, 18), 6);
    assert_eq!(gcd_unsigned(0, 5), 5);
    assert_eq!(gcd_unsigned(5, 0), 5);
    assert_eq!(gcd_unsigned(0, 0), 0);
    assert_eq!(gcd_signed(-12, 18), 6);
    assert_eq!(gcd_signed(i64::MIN, 0), 1u64 << 63);
    assert_eq!(gcd_signed(i64::MIN, 6), 2);
}

#[test]
fn magnitudes_and_signs() {
    assert_eq!(magnitude(-5), 5);
    assert_eq!(magnitude(i64::MIN), 1u64 << 63);
    assert_eq!(with_sign(true, 1u64 << 63), Some(i64::MIN));
    assert_eq!(with_sign(false, 1u64 << 63), None);
    assert_eq!(with_sign(true, 3), Some(-3));
    assert_eq!(with_sign(false, u64::MAX), None);
    assert_eq!(div_exact(-12, 4), -3);
    assert_eq!(div_exact(i64::MIN, 1), i64::MIN);
    assert_eq!(div_exact(i64::MIN, 1u64 << 63), -1);
}

#[test]
fn zero_test_looks_at_the_numerator_only() {
    assert!(Number::Natural(0, 5).is_zero());
    assert!(!Number::Natural(1, 5).is_zero());
    assert!(!large(false, &[], &[1]).is_zero());
    assert!(Number::FiniteField(FiniteFieldElement(0), FiniteFieldIndex(0)).is_zero());
    assert!(!Number::FiniteField(FiniteFieldElement(3), FiniteFieldIndex(0)).is_zero());
}

#[test]
fn normalize_reduces_and_moves_the_sign() {
    assert_eq!(BorrowedNumber::Natural(6, 4).normalize(), Number::Natural(3, 2));
    assert_eq!(BorrowedNumber::Natural(1, -2).normalize(), Number::Natural(-1, 2));
    assert_eq!(BorrowedNumber::Natural(-6, -4).normalize(), Number::Natural(3, 2));
    assert_eq!(BorrowedNumber::Natural(0, -7).normalize(), Number::Natural(0, 1));
    assert_eq!(BorrowedNumber::Natural(i64::MIN, 2).normalize(), Number::Natural(i64::MIN / 2, 1));
}

#[test]
fn normalize_is_idempotent() {
    for (n, d) in [(6, 4), (1, -2), (0, 3), (-7, 7), (i64::MIN, -1), (i64::MAX, i64::MIN)] {
        let once = BorrowedNumber::Natural(n, d).normalize();
        let twice = once.to_borrowed().normalize();
        assert_eq!(once, twice);
    }
}

#[test]
fn normalize_promotes_what_does_not_fit() {
    assert_eq!(BorrowedNumber::Natural(i64::MIN, -1).normalize(), two_to_the_63());
    assert_eq!(
        BorrowedNumber::Natural(3, i64::MIN).normalize(),
        large(true, &[3], &[0, 0, 0, 0, 0, 0, 0, 0x80])
    );
}

#[test]
fn normalize_leaves_other_kinds_alone() {
    let l = large(true, &[4], &[6]);
    assert_eq!(l.to_borrowed().normalize(), l);
    let f = Number::FiniteField(FiniteFieldElement(9), FiniteFieldIndex(4));
    assert_eq!(f.to_borrowed().normalize(), f);
}

#[test]
fn borrowed_and_owned_agree() {
    let l = large(true, &[4, 1], &[7]);
    assert_eq!(l.to_borrowed().to_owned(), l);
    let b = l.to_borrowed();
    assert_eq!(
        b,
        BorrowedNumber::Large(BorrowedRational { negative: true, numer: &[4, 1], denom: &[7] })
    );
    assert_eq!(Number::Natural(2, 3).to_borrowed(), BorrowedNumber::Natural(2, 3));
}

#[test]
fn sum_over_the_least_common_denominator() {
    let state = State::new();
    let sum = BorrowedNumber::Natural(1, 6).add(&BorrowedNumber::Natural(1, 3), &state);
    assert_eq!(sum, Ok(Number::Natural(1, 2)));
    let sum = BorrowedNumber::Natural(3, 4).add(&BorrowedNumber::Natural(-3, 4), &state);
    assert_eq!(sum, Ok(Number::Natural(0, 1)));
    let sum = BorrowedNumber::Natural(1, -2).add(&BorrowedNumber::Natural(1, 3), &state);
    assert_eq!(sum, Ok(Number::Natural(-1, 6)));
}

#[test]
fn sum_that_overflows_is_large() {
    let state = State::new();
    let sum = BorrowedNumber::Natural(i64::MAX, 1).add(&BorrowedNumber::Natural(1, 1), &state);
    assert_eq!(sum, Ok(two_to_the_63()));
    // 1/2^62 + 1/3: the common denominator 3 * 2^62 does not fit
    let sum =
        BorrowedNumber::Natural(1, 1 << 62).add(&BorrowedNumber::Natural(1, 3), &state).unwrap();
    assert_eq!(
        sum,
        large(false, &[3, 0, 0, 0, 0, 0, 0, 0x40], &[0, 0, 0, 0, 0, 0, 0, 0xc0])
    );
}

#[test]
fn an_overflowing_step_gives_a_large_sum_even_if_the_sum_is_small() {
    let state = State::new();
    let a = BorrowedNumber::Natural(1 << 62, 2);
    let sum = a.add(&a, &state).unwrap();
    assert_eq!(sum, large(false, &[0, 0, 0, 0, 0, 0, 0, 0x40], &[1]));
    assert_eq!(sum.to_borrowed().cmp(&BorrowedNumber::Natural(1 << 62, 1)), Ordering::Equal);
}

#[test]
fn sum_with_a_large_operand_is_large() {
    let state = State::new();
    let big = two_to_the_63();
    let sum = BorrowedNumber::Natural(-1, 1).add(&big.to_borrowed(), &state).unwrap();
    assert_eq!(sum, large(false, &[0xff, 0xff, 0xff, 0xff, 0xff, 0xff, 0xff, 0x7f], &[1]));
    let sum = big.to_borrowed().add(&BorrowedNumber::Natural(-1, 1), &state).unwrap();
    assert_eq!(sum, large(false, &[0xff, 0xff, 0xff, 0xff, 0xff, 0xff, 0xff, 0x7f], &[1]));
    let sum = big.to_borrowed().add(&big.to_borrowed(), &state).unwrap();
    assert_eq!(sum, large(false, &[0, 0, 0, 0, 0, 0, 0, 0, 1], &[1]));
    let half = large(false, &[1], &[2]);
    let third = large(true, &[1], &[3]);
    let sum = half.to_borrowed().add(&third.to_borrowed(), &state).unwrap();
    assert_eq!(sum, large(false, &[1], &[6]));
}

#[test]
fn product_cancels_across() {
    let state = State::new();
    let product = BorrowedNumber::Natural(2, 3).mul(&BorrowedNumber::Natural(3, 4), &state);
    assert_eq!(product, Ok(Number::Natural(1, 2)));
    let product =
        BorrowedNumber::Natural(i64::MAX, 5).mul(&BorrowedNumber::Natural(5, i64::MAX), &state);
    assert_eq!(product, Ok(Number::Natural(1, 1)));
    let product = BorrowedNumber::Natural(0, 5).mul(&BorrowedNumber::Natural(3, 7), &state);
    assert_eq!(product, Ok(Number::Natural(0, 5)));
    let product = BorrowedNumber::Natural(-2, 3).mul(&BorrowedNumber::Natural(5, 7), &state);
    assert_eq!(product, Ok(Number::Natural(-10, 21)));
}

#[test]
fn product_with_overflowing_denominator_is_large() {
    let state = State::new();
    let product = BorrowedNumber::Natural(1, 1 << 62)
        .mul(&BorrowedNumber::Natural(1, 4), &state)
        .unwrap();
    assert_eq!(product, large(false, &[1], &[0, 0, 0, 0, 0, 0, 0, 0, 1]));
}

#[test]
fn product_with_a_large_operand_is_large() {
    let state = State::new();
    let big = two_to_the_63();
    let product = BorrowedNumber::Natural(-1, 2).mul(&big.to_borrowed(), &state).unwrap();
    assert_eq!(product, large(true, &[0, 0, 0, 0, 0, 0, 0, 0x40], &[1]));
    let product = big.to_borrowed().mul(&BorrowedNumber::Natural(-1, 2), &state).unwrap();
    assert_eq!(product, large(true, &[0, 0, 0, 0, 0, 0, 0, 0x40], &[1]));
    let product = big.to_borrowed().mul(&big.to_borrowed(), &state).unwrap();
    assert_eq!(product, large(false, &[0, 0, 0, 0, 0, 0, 0, 0, 0, 0, 0, 0, 0, 0, 0, 0x40], &[1]));
}

#[test]
fn finite_field_arithmetic() {
    let (state, seven, big) = state_with_fields();
    let a = BorrowedNumber::FiniteField(FiniteFieldElement(5), seven);
    let b = BorrowedNumber::FiniteField(FiniteFieldElement(4), seven);
    assert_eq!(a.add(&b, &state), Ok(Number::FiniteField(FiniteFieldElement(2), seven)));
    assert_eq!(a.mul(&b, &state), Ok(Number::FiniteField(FiniteFieldElement(6), seven)));
    let p = 18446744073709551557u64;
    let x = BorrowedNumber::FiniteField(FiniteFieldElement(p - 1), big);
    assert_eq!(x.add(&x, &state), Ok(Number::FiniteField(FiniteFieldElement(p - 2), big)));
    assert_eq!(x.mul(&x, &state), Ok(Number::FiniteField(FiniteFieldElement(1), big)));
}

#[test]
fn finite_fields_do_not_mix() {
    let (state, seven, big) = state_with_fields();
    let a = BorrowedNumber::FiniteField(FiniteFieldElement(5), seven);
    let b = BorrowedNumber::FiniteField(FiniteFieldElement(4), big);
    let n = BorrowedNumber::Natural(1, 2);
    let l = two_to_the_63();
    assert_eq!(a.add(&b, &state), Err(NumberError::FieldMismatch));
    assert_eq!(a.mul(&b, &state), Err(NumberError::FieldMismatch));
    assert_eq!(a.add(&n, &state), Err(NumberError::MixedFiniteField));
    assert_eq!(n.add(&a, &state), Err(NumberError::MixedFiniteField));
    assert_eq!(a.mul(&l.to_borrowed(), &state), Err(NumberError::MixedFiniteField));
    assert_eq!(l.to_borrowed().mul(&a, &state), Err(NumberError::MixedFiniteField));
}

#[test]
fn field_table() {
    let mut state = State::new();
    assert_eq!(FiniteField::new(1), None);
    assert_eq!(FiniteField::new(0), None);
    let f = FiniteField::new(13).unwrap();
    assert_eq!(f.get_prime(), 13);
    let i = state.get_or_insert_finite_field(f);
    let j = state.get_or_insert_finite_field(FiniteField::new(17).unwrap());
    let k = state.get_or_insert_finite_field(FiniteField::new(13).unwrap());
    assert_eq!(i, FiniteFieldIndex(0));
    assert_eq!(j, FiniteFieldIndex(1));
    assert_eq!(k, i);
    assert_eq!(state.get_finite_field(j).get_prime(), 17);
    assert_eq!(f.add(&FiniteFieldElement(12), &FiniteFieldElement(12)), FiniteFieldElement(11));
    assert_eq!(f.mul(&FiniteFieldElement(12), &FiniteFieldElement(12)), FiniteFieldElement(1));
}

#[test]
fn power_of_a_machine_rational() {
    let state = State::new();
    let r = BorrowedNumber::Natural(-2, 3).pow(&BorrowedNumber::Natural(3, 5), &state);
    assert_eq!(r, Ok((Number::Natural(-8, 27), Number::Natural(1, 5))));
    let r = BorrowedNumber::Natural(7, 3).pow(&BorrowedNumber::Natural(0, 1), &state);
    assert_eq!(r, Ok((Number::Natural(1, 1), Number::Natural(1, 1))));
    let r = BorrowedNumber::Natural(-2, 3).pow(&BorrowedNumber::Natural(-1, 2), &state);
    assert_eq!(r, Ok((Number::Natural(3, -2), Number::Natural(1, 2))));
    let r = BorrowedNumber::Natural(1, 1).pow(&BorrowedNumber::Natural(u32::MAX as i64, 1), &state);
    assert_eq!(r, Ok((Number::Natural(1, 1), Number::Natural(1, 1))));
}

#[test]
fn power_that_overflows_is_large() {
    let state = State::new();
    let (factor, root) =
        BorrowedNumber::Natural(2, 3).pow(&BorrowedNumber::Natural(64, 1), &state).unwrap();
    assert_eq!(
        factor,
        large(
            false,
            &[0, 0, 0, 0, 0, 0, 0, 0, 1],
            &[0x01, 0xbd, 0x7e, 0x79, 0x8c, 0x27, 0x32, 0x79, 0x8f, 0xaf, 0xd4, 0x56, 0x2b]
        )
    );
    assert_eq!(root, Number::Natural(1, 1));
}

#[test]
fn power_errors() {
    let state = State::new();
    let base = BorrowedNumber::Natural(2, 3);
    assert_eq!(
        base.pow(&BorrowedNumber::Natural(1 << 32, 1), &state),
        Err(NumberError::PowerTooLarge)
    );
    assert_eq!(
        base.pow(&BorrowedNumber::Natural(i64::MIN, 1), &state),
        Err(NumberError::PowerTooLarge)
    );
    assert_eq!(
        BorrowedNumber::Natural(0, 3).pow(&BorrowedNumber::Natural(-1, 1), &state),
        Err(NumberError::DivisionByZero)
    );
    let l = two_to_the_63();
    assert_eq!(base.pow(&l.to_borrowed(), &state), Err(NumberError::Unimplemented));
    assert_eq!(l.to_borrowed().pow(&base, &state), Err(NumberError::Unimplemented));
    let f = BorrowedNumber::FiniteField(FiniteFieldElement(1), FiniteFieldIndex(0));
    assert_eq!(f.pow(&base, &state), Err(NumberError::Unimplemented));
}

#[test]
fn order_of_machine_rationals() {
    let half = BorrowedNumber::Natural(1, 2);
    let third = BorrowedNumber::Natural(1, 3);
    assert_eq!(third.cmp(&half), Ordering::Less);
    assert_eq!(half.cmp(&third), Ordering::Greater);
    assert_eq!(half.cmp(&BorrowedNumber::Natural(2, 4)), Ordering::Equal);
    assert_eq!(BorrowedNumber::Natural(-1, 2).cmp(&third), Ordering::Less);
    assert_eq!(third.cmp(&BorrowedNumber::Natural(-1, 2)), Ordering::Greater);
    assert_eq!(BorrowedNumber::Natural(0, 1).cmp(&third), Ordering::Less);
}

#[test]
fn order_when_the_cross_products_overflow() {
    let a = BorrowedNumber::Natural(i64::MAX, i64::MAX - 1);
    let b = BorrowedNumber::Natural(i64::MAX - 1, i64::MAX - 2);
    assert_eq!(a.cmp(&b), Ordering::Less);
    assert_eq!(b.cmp(&a), Ordering::Greater);
    assert_eq!(a.cmp(&a), Ordering::Equal);
}

#[test]
fn order_across_kinds() {
    let big = two_to_the_63();
    let small = large(true, &[1], &[3]);
    let max = BorrowedNumber::Natural(i64::MAX, 1);
    assert_eq!(max.cmp(&big.to_borrowed()), Ordering::Less);
    assert_eq!(big.to_borrowed().cmp(&max), Ordering::Greater);
    assert_eq!(small.to_borrowed().cmp(&big.to_borrowed()), Ordering::Less);
    assert_eq!(big.to_borrowed().cmp(&big.to_borrowed()), Ordering::Equal);
    assert_eq!(BorrowedNumber::Natural(-1, 3).cmp(&small.to_borrowed()), Ordering::Equal);
    assert_eq!(BorrowedNumber::Natural(1, -3).cmp(&small.to_borrowed()), Ordering::Equal);
    assert_eq!(small.to_borrowed().cmp(&BorrowedNumber::Natural(1, -2)), Ordering::Greater);
}

#[test]
fn order_is_transitive_on_a_chain() {
    let big = two_to_the_63();
    let chain = [
        BorrowedNumber::Natural(-5, 1),
        BorrowedNumber::Natural(-1, 3),
        BorrowedNumber::Natural(0, 1),
        BorrowedNumber::Natural(1, 2),
        BorrowedNumber::Natural(i64::MAX, 1),
        big.to_borrowed(),
    ];
    for i in 0..chain.len() {
        for j in 0..chain.len() {
            assert_eq!(chain[i].cmp(&chain[j]), i.cmp(&j));
        }
    }
}

#[test]
fn order_of_field_elements_ignores_the_field() {
    let a = BorrowedNumber::FiniteField(FiniteFieldElement(3), FiniteFieldIndex(0));
    let b = BorrowedNumber::FiniteField(FiniteFieldElement(5), FiniteFieldIndex(1));
    assert_eq!(a.cmp(&b), Ordering::Less);
    assert_eq!(b.cmp(&a), Ordering::Greater);
    assert_eq!(a.cmp(&a), Ordering::Equal);
}

#[test]
fn equality_is_structural() {
    assert_ne!(Number::Natural(1, 2), Number::Natural(2, 4));
    assert_eq!(Number::Natural(1, 2), Number::Natural(1, 2));
    assert_ne!(Number::Natural(1, 1), large(false, &[1], &[1]));
}

#[test]
fn digit_strings() {
    assert!(is_minimal(&[]));
    assert!(is_minimal(&[0, 1]));
    assert!(!is_minimal(&[1, 0]));
    assert!(same_digits(&[1, 2], &[1, 2]));
    assert!(!same_digits(&[1, 2], &[1, 3]));
    assert!(!same_digits(&[1, 2], &[1, 2, 0]));
    assert!(same_digits(&[], &[]));
}

#[test]
fn well_formed_rationals() {
    let ok = |negative: bool, numer: &[u8], denom: &[u8]| {
        BorrowedRational { negative, numer, denom }.is_well_formed()
    };
    assert!(ok(false, &[], &[1]));
    assert!(ok(true, &[5], &[0, 1]));
    assert!(!ok(true, &[], &[1]));
    assert!(!ok(false, &[5], &[]));
    assert!(!ok(false, &[5, 0], &[1]));
    assert!(!ok(false, &[5], &[1, 0]));
}

#[test]
fn well_formed_coefficients() {
    let (state, seven, _) = state_with_fields();
    assert!(BorrowedNumber::Natural(0, 1).is_well_formed(&state));
    assert!(!BorrowedNumber::Natural(1, 0).is_well_formed(&state));
    assert!(two_to_the_63().to_borrowed().is_well_formed(&state));
    assert!(!large(false, &[1], &[]).to_borrowed().is_well_formed(&state));
    assert!(BorrowedNumber::FiniteField(FiniteFieldElement(6), seven).is_well_formed(&state));
    assert!(!BorrowedNumber::FiniteField(FiniteFieldElement(7), seven).is_well_formed(&state));
    assert!(!BorrowedNumber::FiniteField(FiniteFieldElement(0), FiniteFieldIndex(2))
        .is_well_formed(&state));
    assert!(state.contains(seven));
    assert!(!state.contains(FiniteFieldIndex(2)));
}

#[test]
fn sign_sits_on_the_numerator_after_normalization() {
    for (n, d) in [(3i64, -6i64), (-3, 6), (-3, -6), (3, 6), (0, -6), (i64::MAX, -1)] {
        match BorrowedNumber::Natural(n, d).normalize() {
            Number::Natural(a, b) => {
                assert!(b >= 1);
                assert_eq!(a.signum(), n.signum() * d.signum());
                assert_eq!(gcd_signed(a, b), 1);
            }
            other => panic!("{:?}", other),
        }
    }
}
