use symbolica::finite_field::FiniteFieldElement;
use symbolica::number::{BorrowedNumber, Number, NumberError};
use symbolica::packed::{get_size_of_natural, PackedRationalNumberWriter};
use symbolica::rational::{BorrowedRational, LargeRational};
use symbolica::reader::{PackedRationalNumberReader, ReadError};
use symbolica::state::FiniteFieldIndex;

fn packed(n: &Number) -> Vec<u8> {
    let mut out = Vec::new();
    n.clone().write_packed(&mut out);
    out
}

fn samples() -> Vec<Number> {
    vec![
        Number::Natural(0, 1),
        Number::Natural(1, 1),
        Number::Natural(-1, 1),
        Number::Natural(254, 255),
        Number::Natural(-65534, 65535),
        Number::Natural(4294967294, 4294967295),
        Number::Natural(i64::MAX, i64::MAX),
        Number::Natural(i64::MIN, 3),
        Number::FiniteField(FiniteFieldElement(0), FiniteFieldIndex(0)),
        Number::FiniteField(FiniteFieldElement(6), FiniteFieldIndex(1)),
        Number::FiniteField(FiniteFieldElement(u64::MAX), FiniteFieldIndex(70000)),
        Number::Large(LargeRational { negative: false, numer: vec![], denom: vec![1] }),
        Number::Large(LargeRational {
            negative: true,
            numer: vec![0, 0, 0, 0, 0, 0, 0, 0, 1],
            denom: vec![3],
        }),
        Number::Large(LargeRational { negative: false, numer: vec![7; 300], denom: vec![9; 2] }),
    ]
}

#[test]
fn widths_of_the_kinds() {
    assert_eq!(get_size_of_natural(0), 0);
    assert_eq!(get_size_of_natural(1), 1);
    assert_eq!(get_size_of_natural(2), 2);
    assert_eq!(get_size_of_natural(3), 4);
    assert_eq!(get_size_of_natural(4), 8);
}

#[test]
fn kinds_switch_just_below_the_largest_value() {
    assert_eq!(packed(&Number::Natural(254, 1)), vec![0x01, 254]);
    assert_eq!(packed(&Number::Natural(255, 1)), vec![0x02, 255, 0]);
    assert_eq!(packed(&Number::Natural(65534, 1)), vec![0x02, 0xfe, 0xff]);
    assert_eq!(packed(&Number::Natural(65535, 1)), vec![0x03, 0xff, 0xff, 0, 0]);
    assert_eq!(packed(&Number::Natural(4294967294, 1)), vec![0x03, 0xfe, 0xff, 0xff, 0xff]);
    assert_eq!(
        packed(&Number::Natural(4294967295, 1)),
        vec![0x04, 0xff, 0xff, 0xff, 0xff, 0, 0, 0, 0]
    );
    assert_eq!(packed(&Number::Natural(1, 255)), vec![0x21, 1, 255, 0]);
    assert_eq!(packed(&Number::Natural(1, 65536)), vec![0x31, 1, 0, 0, 1, 0]);
    assert_eq!(
        packed(&Number::Natural(1, 1 << 40)),
        vec![0x41, 1, 0, 0, 0, 0, 0, 1, 0, 0]
    );
}

#[test]
fn sign_bit_is_set_when_one_part_is_negative() {
    assert_eq!(packed(&Number::Natural(-3, 1)), vec![0x81, 3]);
    assert_eq!(packed(&Number::Natural(3, -2)), vec![0x91, 3, 2]);
    assert_eq!(packed(&Number::Natural(-3, -2)), vec![0x11, 3, 2]);
    assert_eq!(packed(&Number::Natural(0, -2)), vec![0x91, 0, 2]);
    assert_eq!(packed(&Number::Natural(i64::MIN, 1)), vec![0x84, 0, 0, 0, 0, 0, 0, 0, 0x80]);
}

#[test]
fn pairs_are_written_like_machine_rationals() {
    let mut out = Vec::new();
    (300u64, 1u64).write_packed(&mut out);
    assert_eq!(out, vec![0x02, 0x2c, 0x01]);
    let mut out = vec![9];
    (-1i64, 2i64).write_packed(&mut out);
    assert_eq!(out, vec![9, 0x91, 1, 2]);
    assert_eq!((300u64, 1u64).get_packed_size(), 3);
    assert_eq!((-1i64, 2i64).get_packed_size(), 3);
    assert_eq!((-1i64, -70000i64).get_packed_size(), 6);
}

#[test]
fn finite_field_run() {
    let n = Number::FiniteField(FiniteFieldElement(6), FiniteFieldIndex(1));
    assert_eq!(packed(&n), vec![0x05, 0x01, 6]);
    let n = Number::FiniteField(FiniteFieldElement(300), FiniteFieldIndex(0));
    assert_eq!(packed(&n), vec![0x05, 0x12, 0x2c, 0x01, 0]);
}

#[test]
fn large_run() {
    let n = Number::Large(LargeRational { negative: true, numer: vec![0, 1], denom: vec![3] });
    assert_eq!(packed(&n), vec![0x77, 1, 0x01, 2, 0, 1, 3]);
    let n = Number::Large(LargeRational { negative: false, numer: vec![5], denom: vec![7, 7] });
    assert_eq!(packed(&n), vec![0x77, 0, 0x11, 1, 2, 5, 7, 7]);
}

#[test]
fn size_agrees_with_what_is_written() {
    for n in samples() {
        assert_eq!(n.get_packed_size(), packed(&n).len() as u64, "{:?}", n);
    }
}

#[test]
fn reading_gives_back_what_was_written() {
    let tail = [0xaau8, 0x77, 0x05];
    for n in samples() {
        let mut bytes = packed(&n);
        bytes.extend_from_slice(&tail);
        let (view, rest) = bytes.as_slice().get_number_view().unwrap();
        assert_eq!(view, n.to_borrowed(), "{:?}", n);
        assert_eq!(rest, &tail[..]);
    }
}

#[test]
fn a_negative_denominator_is_read_back_with_the_sign_on_the_numerator() {
    let bytes = packed(&Number::Natural(1, -2));
    let (view, rest) = bytes.as_slice().get_number_view().unwrap();
    assert_eq!(view, BorrowedNumber::Natural(-1, 2));
    assert!(rest.is_empty());
}

#[test]
fn skipping_stops_where_reading_stops() {
    let tail = [1u8, 2, 3];
    for n in samples() {
        let mut bytes = packed(&n);
        bytes.extend_from_slice(&tail);
        let (_, rest) = bytes.as_slice().get_number_view().unwrap();
        assert_eq!(bytes.as_slice().skip_rational(), Ok(rest), "{:?}", n);
        assert_eq!(bytes.as_slice().skip_rational(), Ok(&tail[..]));
    }
}

#[test]
fn runs_lie_back_to_back() {
    let mut bytes = Vec::new();
    for n in samples() {
        n.write_packed(&mut bytes);
    }
    let mut rest = bytes.as_slice();
    for n in samples() {
        let (view, after) = rest.get_number_view().unwrap();
        assert_eq!(view, n.to_borrowed());
        rest = after;
    }
    assert!(rest.is_empty());
}

#[test]
fn pairs_are_read_without_the_sign() {
    let bytes = [0x91u8, 3, 2, 0xff];
    assert_eq!(bytes.as_slice().get_frac_u64(), Ok((3, 2, &[0xffu8][..])));
    assert_eq!(bytes.as_slice().get_frac_i64(), Ok((-3, 2, &[0xffu8][..])));
    let bytes = [0x42u8, 0x34, 0x12, 8, 7, 6, 5, 4, 3, 2, 1];
    assert_eq!(bytes.as_slice().get_frac_u64(), Ok((0x1234, 0x0102030405060708, &[][..])));
    let bytes = [0x03u8, 4, 3, 2, 1];
    assert_eq!(bytes.as_slice().get_frac_u64(), Ok((0x01020304, 1, &[][..])));
}

#[test]
fn zero_and_one_are_recognised_in_their_shortest_form_only() {
    assert!([0x01u8, 0].as_slice().is_zero_rat());
    assert!(![0x01u8, 0].as_slice().is_one_rat());
    assert!([0x01u8, 1, 9].as_slice().is_one_rat());
    assert!(![0x02u8, 0, 0].as_slice().is_zero_rat());
    assert!(![0x02u8, 1, 0].as_slice().is_one_rat());
    assert!(![0x11u8, 1, 1].as_slice().is_one_rat());
    assert!(![0x81u8, 1].as_slice().is_one_rat());
    assert!(![0x01u8].as_slice().is_zero_rat());
    assert!(!([] as [u8; 0]).as_slice().is_one_rat());
    assert!(packed(&Number::Natural(0, 1)).as_slice().is_zero_rat());
    assert!(packed(&Number::Natural(1, 1)).as_slice().is_one_rat());
}

#[test]
fn truncated_runs_are_refused() {
    let empty: [u8; 0] = [];
    assert_eq!(empty.as_slice().get_number_view(), Err(ReadError::Truncated));
    assert_eq!(empty.as_slice().get_frac_u64(), Err(ReadError::Truncated));
    assert_eq!(empty.as_slice().get_frac_i64(), Err(ReadError::Truncated));
    assert_eq!(empty.as_slice().skip_rational(), Err(ReadError::Truncated));
    for n in samples() {
        let bytes = packed(&n);
        for cut in 0..bytes.len() {
            assert_eq!(bytes[..cut].get_number_view(), Err(ReadError::Truncated), "{:?}", n);
            assert_eq!(bytes[..cut].skip_rational(), Err(ReadError::Truncated), "{:?}", n);
        }
    }
}

#[test]
fn unknown_kinds_are_refused() {
    for disc in [0x00u8, 0x06, 0x08, 0x0f, 0x10, 0x16] {
        let bytes = [disc, 1, 1, 1, 1, 1, 1, 1, 1, 1, 1, 1, 1, 1, 1, 1, 1];
        assert_eq!(bytes.as_slice().get_number_view(), Err(ReadError::UnknownKind));
        assert_eq!(bytes.as_slice().get_frac_u64(), Err(ReadError::UnknownKind));
        assert_eq!(bytes.as_slice().get_frac_i64(), Err(ReadError::UnknownKind));
        assert_eq!(bytes.as_slice().skip_rational(), Err(ReadError::UnknownKind));
    }
    for disc in [0x51u8, 0x61] {
        let bytes = [disc, 1, 1, 1, 1, 1, 1, 1, 1, 1, 1, 1, 1, 1, 1, 1, 1];
        assert_eq!(bytes.as_slice().get_number_view(), Err(ReadError::UnknownKind));
        assert_eq!(bytes.as_slice().get_frac_u64(), Err(ReadError::UnknownKind));
        assert_eq!(bytes.as_slice().skip_rational(), Err(ReadError::UnknownKind));
    }
    // a finite-field element is no pair of magnitudes
    assert_eq!([0x05u8, 0x01, 6].as_slice().get_frac_u64(), Err(ReadError::UnknownKind));
    // nor can the pair inside one be an escape
    assert_eq!([0x05u8, 0x05, 6].as_slice().get_number_view(), Err(ReadError::UnknownKind));
    assert_eq!([0x05u8, 0x05, 6].as_slice().skip_rational(), Err(ReadError::UnknownKind));
}

#[test]
fn sign_on_an_escape_is_refused() {
    assert_eq!([0x85u8, 0x01, 6].as_slice().get_number_view(), Err(ReadError::SignedEscape));
    assert_eq!(
        [0xf7u8, 0, 0x11, 1, 1, 5, 7].as_slice().get_number_view(),
        Err(ReadError::SignedEscape)
    );
}

#[test]
fn values_beyond_the_machine_integers_are_refused() {
    // an arbitrary-precision rational is no machine rational
    let large = [0x77u8, 0, 0x11, 1, 1, 5, 7];
    assert_eq!(large.as_slice().get_frac_u64(), Err(ReadError::Overflow));
    assert_eq!(large.as_slice().get_frac_i64(), Err(ReadError::Overflow));
    assert_eq!([0x71u8, 1, 1].as_slice().get_frac_u64(), Err(ReadError::Overflow));
    assert_eq!([0x71u8, 1, 1].as_slice().get_number_view(), Err(ReadError::Overflow));
    // 2^63 as a positive numerator, and as a denominator
    let bytes = [0x04u8, 0, 0, 0, 0, 0, 0, 0, 0x80];
    assert_eq!(bytes.as_slice().get_frac_u64(), Ok((1 << 63, 1, &[][..])));
    assert_eq!(bytes.as_slice().get_frac_i64(), Err(ReadError::Overflow));
    let bytes = [0x84u8, 0, 0, 0, 0, 0, 0, 0, 0x80];
    assert_eq!(bytes.as_slice().get_frac_i64(), Ok((i64::MIN, 1, &[][..])));
    let bytes = [0x84u8, 1, 0, 0, 0, 0, 0, 0, 0x80];
    assert_eq!(bytes.as_slice().get_frac_i64(), Err(ReadError::Overflow));
    let bytes = [0x41u8, 1, 0, 0, 0, 0, 0, 0, 0, 0x80];
    assert_eq!(bytes.as_slice().get_frac_i64(), Err(ReadError::Overflow));
    assert_eq!(bytes.as_slice().get_number_view(), Err(ReadError::Overflow));
    assert_eq!(bytes.as_slice().skip_rational(), Ok(&[][..]));
}

#[test]
fn payloads_that_break_an_invariant_are_refused() {
    // denominator zero
    assert_eq!([0x11u8, 1, 0].as_slice().get_number_view(), Err(ReadError::Malformed));
    assert_eq!([0x11u8, 1, 0].as_slice().get_frac_i64(), Ok((1, 0, &[][..])));
    // sign byte that is neither 0 nor 1
    assert_eq!([0x77u8, 2, 0x11, 1, 1, 5, 7].as_slice().get_number_view(), Err(ReadError::Malformed));
    // leading zero digit in the numerator, in the denominator
    assert_eq!([0x77u8, 0, 0x11, 2, 1, 5, 0, 7].as_slice().get_number_view(), Err(ReadError::Malformed));
    assert_eq!([0x77u8, 0, 0x11, 1, 2, 5, 7, 0].as_slice().get_number_view(), Err(ReadError::Malformed));
    // no denominator
    assert_eq!([0x77u8, 0, 0x11, 1, 0, 5].as_slice().get_number_view(), Err(ReadError::Malformed));
    // minus zero
    assert_eq!([0x77u8, 1, 0x01, 0, 7].as_slice().get_number_view(), Err(ReadError::Malformed));
    // all of these can still be skipped
    assert_eq!([0x77u8, 0, 0x11, 2, 1, 5, 0, 7, 9].as_slice().skip_rational(), Ok(&[9u8][..]));
}

#[test]
fn large_view_borrows_the_digits() {
    let bytes = [0x77u8, 1, 0x01, 2, 0, 1, 3, 0xee];
    let (view, rest) = bytes.as_slice().get_number_view().unwrap();
    assert_eq!(
        view,
        BorrowedNumber::Large(BorrowedRational { negative: true, numer: &[0, 1], denom: &[3] })
    );
    assert_eq!(rest, &[0xeeu8][..]);
    assert_eq!(
        view.to_owned(),
        Number::Large(LargeRational { negative: true, numer: vec![0, 1], denom: vec![3] })
    );
}

#[test]
fn fixed_slot_is_written_in_place() {
    let mut slot = [0xeeu8; 6];
    assert_eq!(Number::Natural(-300, 7).write_packed_fixed(&mut slot), Ok(()));
    assert_eq!(slot, [0x92, 0x2c, 0x01, 7, 0xee, 0xee]);
    let mut slot = [0xeeu8; 3];
    assert_eq!((300u64, 1u64).write_packed_fixed(&mut slot), Ok(()));
    assert_eq!(slot, [0x02, 0x2c, 0x01]);
    let mut slot = [0xeeu8; 4];
    assert_eq!((-1i64, 2i64).write_packed_fixed(&mut slot), Ok(()));
    assert_eq!(slot, [0x91, 1, 2, 0xee]);
    let mut slot = [0xeeu8; 7];
    let n = Number::FiniteField(FiniteFieldElement(300), FiniteFieldIndex(2));
    assert_eq!(n.write_packed_fixed(&mut slot), Ok(()));
    assert_eq!(slot, [0x05, 0x12, 0x2c, 0x01, 2, 0xee, 0xee]);
}

#[test]
fn fixed_slot_agrees_with_the_appended_run() {
    for n in samples() {
        if let Number::Large(_) = n {
            continue;
        }
        let run = packed(&n);
        let mut slot = vec![0xeeu8; run.len() + 2];
        assert_eq!(n.write_packed_fixed(&mut slot), Ok(()));
        assert_eq!(&slot[..run.len()], &run[..]);
        assert_eq!(&slot[run.len()..], &[0xee, 0xee]);
    }
}

#[test]
fn large_has_no_fixed_form() {
    let n = Number::Large(LargeRational { negative: false, numer: vec![5], denom: vec![7] });
    let mut slot = [0xeeu8; 16];
    assert_eq!(n.write_packed_fixed(&mut slot), Err(NumberError::Unimplemented));
    assert_eq!(slot, [0xee; 16]);
}
