//! Reading packed coefficients back from a byte slice.

use crate::buffer::{advance, get_uint_le};
use crate::digits::{
    le_bytes, le_value, lemma_le_bytes_len, lemma_le_value_of_le_bytes, lemma_radix_values,
};
use crate::finite_field::FiniteFieldElement;
use crate::number::{BorrowedNumber, Number, NumberView};
use crate::packed::{
    denominator_kind, discriminator, get_size_of_natural, kind_width, lemma_packed_pair_len,
    natural_kind, packed_large, packed_number, packed_pair, PackedRationalNumberWriter, ARB_DEN,
    ARB_NUM, DEN_MASK, FIN_NUM, NUM_MASK, SIGN, U64_NUM, U8_NUM,
};
use crate::rational::{BorrowedRational, RationalView};
use crate::state::FiniteFieldIndex;
use crate::utils::abs;
use vstd::prelude::*;
use vstd::slice::slice_subrange;

verus! {

/// Why a byte slice was not read as a packed coefficient.
#[derive(Debug, Clone, Copy, PartialEq, Eq, Structural)]
pub enum ReadError {
    /// The slice ends before the run does.
    Truncated,
    /// A kind in a discriminator is none of those in use.
    UnknownKind,
    /// The sign bit is set on a finite-field element or on an
    /// arbitrary-precision rational.
    SignedEscape,
    /// The value does not fit the machine integers that were asked for.
    Overflow,
    /// The payload breaks the invariant of the value it stands for.
    Malformed,
}

/// The numerator kind in a discriminator.
pub open spec fn num_kind(disc: u8) -> u8 {
    disc & NUM_MASK
}

/// The denominator kind in a discriminator.
pub open spec fn den_kind(disc: u8) -> u8 {
    (disc & DEN_MASK) >> 4
}

/// Whether the sign bit of a discriminator is set.
pub open spec fn has_sign(disc: u8) -> bool {
    disc & SIGN != 0
}

/// Reading a pair of magnitudes off the head of `s`: numerator, denominator
/// and the length of the run. The sign bit is not looked at.
pub open spec fn parse_frac_u64(s: Seq<u8>) -> Result<(nat, nat, nat), ReadError> {
    if s.len() == 0 {
        Err(ReadError::Truncated)
    } else if num_kind(s[0]) == ARB_NUM {
        Err(ReadError::Overflow)
    } else if num_kind(s[0]) == 0 || num_kind(s[0]) > U64_NUM {
        Err(ReadError::UnknownKind)
    } else {
        let wn = kind_width(num_kind(s[0])) as int;
        let wd = kind_width(den_kind(s[0])) as int;
        if s.len() < 1 + wn {
            Err(ReadError::Truncated)
        } else if den_kind(s[0]) == 7 {
            Err(ReadError::Overflow)
        } else if den_kind(s[0]) > 4 {
            Err(ReadError::UnknownKind)
        } else if s.len() < 1 + wn + wd {
            Err(ReadError::Truncated)
        } else {
            Ok(
                (
                    le_value(s.subrange(1, 1 + wn)),
                    if den_kind(s[0]) == 0 {
                        1
                    } else {
                        le_value(s.subrange(1 + wn, 1 + wn + wd))
                    },
                    (1 + wn + wd) as nat,
                ),
            )
        }
    }
}

/// Reading a signed machine rational off the head of `s`: numerator,
/// denominator and the length of the run.
pub open spec fn parse_frac_i64(s: Seq<u8>) -> Result<(int, int, nat), ReadError> {
    match parse_frac_u64(s) {
        Err(e) => Err(e),
        Ok((n, d, k)) => {
            if d > i64::MAX {
                Err(ReadError::Overflow)
            } else if has_sign(s[0]) {
                if n > 0x8000_0000_0000_0000 {
                    Err(ReadError::Overflow)
                } else {
                    Ok((-(n as int), d as int, k))
                }
            } else {
                if n > i64::MAX {
                    Err(ReadError::Overflow)
                } else {
                    Ok((n as int, d as int, k))
                }
            }
        },
    }
}

/// Reading an arbitrary-precision rational off `s`, which starts with its
/// discriminator: the rational and the length of the run.
pub open spec fn parse_large(s: Seq<u8>) -> Result<(RationalView, nat), ReadError> {
    if s.len() < 2 {
        Err(ReadError::Truncated)
    } else if s[1] > 1 {
        Err(ReadError::Malformed)
    } else {
        match parse_frac_u64(s.subrange(2, s.len() as int)) {
            Err(e) => Err(e),
            Ok((ln, ld, k)) => {
                let start = 2int + k;
                if s.len() < start + ln + ld {
                    Err(ReadError::Truncated)
                } else {
                    let l = RationalView {
                        negative: s[1] == 1,
                        numer: s.subrange(start, start + ln),
                        denom: s.subrange(start + ln, start + ln + ld),
                    };
                    if l.wf() {
                        Ok((l, (start + ln + ld) as nat))
                    } else {
                        Err(ReadError::Malformed)
                    }
                }
            },
        }
    }
}

/// Reading a coefficient off the head of `s`: the coefficient and the length
/// of its run.
pub open spec fn parse_number(s: Seq<u8>) -> Result<(NumberView, nat), ReadError> {
    if s.len() == 0 {
        Err(ReadError::Truncated)
    } else if num_kind(s[0]) == ARB_NUM {
        if has_sign(s[0]) {
            Err(ReadError::SignedEscape)
        } else {
            match parse_large(s) {
                Err(e) => Err(e),
                Ok((l, k)) => Ok((NumberView::Large(l), k)),
            }
        }
    } else if num_kind(s[0]) == FIN_NUM {
        if has_sign(s[0]) {
            Err(ReadError::SignedEscape)
        } else {
            match parse_frac_u64(s.subrange(1, s.len() as int)) {
                Err(e) => Err(e),
                Ok((e, i, k)) => if i > usize::MAX {
                    Err(ReadError::Overflow)
                } else {
                    Ok((NumberView::FiniteField(e as int, i as int), 1 + k))
                },
            }
        }
    } else {
        match parse_frac_i64(s) {
            Err(e) => Err(e),
            Ok((n, d, k)) => if d == 0 {
                Err(ReadError::Malformed)
            } else {
                Ok((NumberView::Natural(n, d), k))
            },
        }
    }
}

/// The length of the run at the head of `s`, found without decoding it.
pub open spec fn skip_len(s: Seq<u8>) -> Result<nat, ReadError> {
    if s.len() == 0 {
        Err(ReadError::Truncated)
    } else if num_kind(s[0]) == ARB_NUM {
        if s.len() < 2 {
            Err(ReadError::Truncated)
        } else {
            match parse_frac_u64(s.subrange(2, s.len() as int)) {
                Err(e) => Err(e),
                Ok((ln, ld, k)) => if s.len() < 2 + k + ln + ld {
                    Err(ReadError::Truncated)
                } else {
                    Ok(2 + k + ln + ld)
                },
            }
        }
    } else if num_kind(s[0]) == FIN_NUM {
        if s.len() < 2 {
            Err(ReadError::Truncated)
        } else if num_kind(s[1]) == 0 || num_kind(s[1]) > U64_NUM || den_kind(s[1]) > 4 {
            Err(ReadError::UnknownKind)
        } else if s.len() < 2 + kind_width(num_kind(s[1])) + kind_width(den_kind(s[1])) {
            Err(ReadError::Truncated)
        } else {
            Ok(2 + kind_width(num_kind(s[1])) + kind_width(den_kind(s[1])))
        }
    } else if num_kind(s[0]) == 0 || num_kind(s[0]) > U64_NUM || den_kind(s[0]) > 4 {
        Err(ReadError::UnknownKind)
    } else if s.len() < 1 + kind_width(num_kind(s[0])) + kind_width(den_kind(s[0])) {
        Err(ReadError::Truncated)
    } else {
        Ok(1 + kind_width(num_kind(s[0])) + kind_width(den_kind(s[0])))
    }
}

/// Whether `s` starts with the run of zero in its shortest form.
pub open spec fn is_packed_zero(s: Seq<u8>) -> bool {
    s.len() >= 2 && s[0] == U8_NUM && s[1] == 0
}

/// Whether `s` starts with the run of one in its shortest form.
pub open spec fn is_packed_one(s: Seq<u8>) -> bool {
    s.len() >= 2 && s[0] == U8_NUM && s[1] == 1
}

/// The fields of a discriminator are the kinds and the sign it was made of.
pub proof fn lemma_discriminator_fields(nk: u8, dk: u8, sign: bool)
    requires
        nk <= 15,
        dk <= 7,
    ensures
        num_kind(discriminator(nk, dk, sign)) == nk,
        den_kind(discriminator(nk, dk, sign)) == dk,
        has_sign(discriminator(nk, dk, sign)) == sign,
{
    let s: u8 = if sign {
        SIGN
    } else {
        0
    };
    assert((nk | (dk << 4) | s) & 0x0f == nk && ((nk | (dk << 4) | s) & 0x70) >> 4 == dk && ((nk | (
    dk << 4) | s) & 0x80 != 0) == (s != 0)) by (bit_vector)
        requires
            nk <= 15,
            dk <= 7,
            s == 0x80 || s == 0,
    ;
}

/// Reading the run of a pair of magnitudes gives the pair back, whatever
/// follows the run.
pub proof fn lemma_pair_round_trip(sign: bool, n: nat, d: nat, tail: Seq<u8>)
    requires
        n <= u64::MAX,
        d <= u64::MAX,
    ensures
        parse_frac_u64(packed_pair(sign, n, d) + tail) == Ok::<(nat, nat, nat), ReadError>(
            (n, d, packed_pair(sign, n, d).len()),
        ),
        has_sign((packed_pair(sign, n, d) + tail)[0]) == sign,
        1 <= num_kind((packed_pair(sign, n, d) + tail)[0]) <= 4,
{
    let nk = natural_kind(n);
    let dk = denominator_kind(d);
    let wn = kind_width(nk);
    let wd = kind_width(dk);
    let run = packed_pair(sign, n, d);
    let s = run + tail;
    lemma_discriminator_fields(nk, dk, sign);
    lemma_packed_pair_len(sign, n, d);
    lemma_le_bytes_len(n, wn);
    lemma_le_bytes_len(d, wd);
    lemma_radix_values();
    assert(s[0] == discriminator(nk, dk, sign));
    assert(s.subrange(1, 1 + wn as int) =~= le_bytes(n, wn));
    lemma_le_value_of_le_bytes(n, wn);
    if dk != 0 {
        assert(s.subrange(1 + wn as int, 1 + wn as int + wd as int) =~= le_bytes(d, wd));
        lemma_le_value_of_le_bytes(d, wd);
    }
}

/// Reading the run of a machine rational with a positive denominator gives
/// it back.
proof fn lemma_natural_round_trip(num: i64, den: i64, tail: Seq<u8>)
    requires
        den > 0,
    ensures
        parse_number(packed_number(NumberView::Natural(num as int, den as int)) + tail) == Ok::<
            (NumberView, nat),
            ReadError,
        >(
            (
                NumberView::Natural(num as int, den as int),
                packed_number(NumberView::Natural(num as int, den as int)).len(),
            ),
        ),
{
    lemma_pair_round_trip(num < 0, abs(num as int), abs(den as int), tail);
}

/// Reading the run of a finite-field element gives it back.
proof fn lemma_field_round_trip(e: u64, i: usize, tail: Seq<u8>)
    ensures
        parse_number(packed_number(NumberView::FiniteField(e as int, i as int)) + tail) == Ok::<
            (NumberView, nat),
            ReadError,
        >(
            (
                NumberView::FiniteField(e as int, i as int),
                packed_number(NumberView::FiniteField(e as int, i as int)).len(),
            ),
        ),
{
    let pair = packed_pair(false, e as nat, i as nat);
    let s = packed_number(NumberView::FiniteField(e as int, i as int)) + tail;
    lemma_pair_round_trip(false, e as nat, i as nat, tail);
    assert(FIN_NUM & NUM_MASK == FIN_NUM && FIN_NUM & SIGN == 0) by (bit_vector);
    assert(s[0] == FIN_NUM);
    assert(s.subrange(1, s.len() as int) =~= pair + tail);
}

/// Reading the run of a well-formed arbitrary-precision rational gives it
/// back.
proof fn lemma_large_round_trip(l: RationalView, tail: Seq<u8>)
    requires
        l.wf(),
        l.numer.len() <= u64::MAX,
        l.denom.len() <= u64::MAX,
    ensures
        parse_number(packed_large(l) + tail) == Ok::<(NumberView, nat), ReadError>(
            (NumberView::Large(l), packed_large(l).len()),
        ),
{
    let ln = l.numer.len();
    let ld = l.denom.len();
    let pair = packed_pair(false, ln, ld);
    let after = l.numer + l.denom + tail;
    let s = packed_large(l) + tail;
    lemma_pair_round_trip(false, ln, ld, after);
    lemma_packed_pair_len(false, ln, ld);
    assert((ARB_NUM | ARB_DEN) & NUM_MASK == ARB_NUM && (ARB_NUM | ARB_DEN) & SIGN == 0)
        by (bit_vector);
    assert(s[0] == ARB_NUM | ARB_DEN);
    assert(s[1] == if l.negative { 1u8 } else { 0u8 });
    assert(s.subrange(2, s.len() as int) =~= pair + after);
    let start = 2int + pair.len();
    assert(s.subrange(start, start + ln) =~= l.numer);
    assert(s.subrange(start + ln, start + ln + ld) =~= l.denom);
    assert(parse_large(s) == Ok::<(RationalView, nat), ReadError>((l, packed_large(l).len())));
}

/// Round trip: reading the run of a coefficient gives the coefficient back
/// and stops where the run ends, whatever follows it. This holds of every
/// well-formed coefficient whose machine denominator is positive.
pub proof fn lemma_round_trip(n: Number, tail: Seq<u8>)
    requires
        n@.wf(),
        n@ is Natural ==> n@.den() > 0,
    ensures
        parse_number(n.packed() + tail) == Ok::<(NumberView, nat), ReadError>(
            (n@, n.packed().len()),
        ),
        (n.packed() + tail).subrange(
            n.packed().len() as int,
            (n.packed() + tail).len() as int,
        ) == tail,
{
    let run = n.packed();
    let s = run + tail;
    assert(s.subrange(run.len() as int, s.len() as int) =~= tail);
    match n {
        Number::Natural(num, den) => {
            lemma_natural_round_trip(num, den, tail);
        },
        Number::FiniteField(e, i) => {
            lemma_field_round_trip(e.0, i.0, tail);
        },
        Number::Large(l) => {
            assert(l.numer.len() == l.numer@.len());
            assert(l.denom.len() == l.denom@.len());
            lemma_large_round_trip(l@, tail);
        },
    }
}

/// Skip agreement: where a coefficient can be read off the head of `s`,
/// skipping its run stops where reading it stops.
pub proof fn lemma_skip_agrees_with_read(s: Seq<u8>)
    ensures
        parse_number(s) matches Ok(r) ==> skip_len(s) == Ok::<nat, ReadError>(r.1),
{
    if parse_number(s) is Ok {
        if num_kind(s[0]) == FIN_NUM {
            let inner = s.subrange(1, s.len() as int);
            assert(inner[0] == s[1]);
        }
    }
}

/// Skipping the run of a coefficient stops where the run ends, whatever
/// follows it.
pub proof fn lemma_skip_packed(n: Number, tail: Seq<u8>)
    ensures
        skip_len(n.packed() + tail) == Ok::<nat, ReadError>(n.packed().len()),
{
    let s = n.packed() + tail;
    match n {
        Number::Natural(num, den) => {
            let sign = (num < 0) != (den < 0);
            lemma_pair_round_trip(sign, abs(num as int), abs(den as int), tail);
            lemma_packed_pair_len(sign, abs(num as int), abs(den as int));
            lemma_discriminator_fields(
                natural_kind(abs(num as int)),
                denominator_kind(abs(den as int)),
                sign,
            );
        },
        Number::FiniteField(e, i) => {
            let pair = packed_pair(false, e.0 as nat, i.0 as nat);
            lemma_pair_round_trip(false, e.0 as nat, i.0 as nat, tail);
            lemma_packed_pair_len(false, e.0 as nat, i.0 as nat);
            lemma_discriminator_fields(
                natural_kind(e.0 as nat),
                denominator_kind(i.0 as nat),
                false,
            );
            assert(FIN_NUM & NUM_MASK == FIN_NUM) by (bit_vector);
            assert(s[0] == FIN_NUM);
            assert(s[1] == pair[0]);
        },
        Number::Large(l) => {
            assert(l.numer.len() == l.numer@.len());
            assert(l.denom.len() == l.denom@.len());
            let ln = l.numer@.len();
            let ld = l.denom@.len();
            let pair = packed_pair(false, ln, ld);
            let after = l.numer@ + l.denom@ + tail;
            lemma_pair_round_trip(false, ln, ld, after);
            lemma_packed_pair_len(false, ln, ld);
            assert((ARB_NUM | ARB_DEN) & NUM_MASK == ARB_NUM) by (bit_vector);
            assert(s[0] == ARB_NUM | ARB_DEN);
            assert(s.subrange(2, s.len() as int) =~= pair + after);
        },
    }
}

/// Byte strings that start with a packed run.
pub trait PackedRationalNumberReader {
    /// The bytes.
    spec fn run(&self) -> Seq<u8>;

    /// The coefficient at the head of the bytes, and the bytes after it.
    fn get_number_view<'a>(&'a self) -> (r: Result<(BorrowedNumber<'a>, &'a [u8]), ReadError>)
        ensures
            match parse_number(self.run()) {
                Ok((v, k)) => r matches Ok(p) && p.0@ == v && p.1@ == self.run().subrange(
                    k as int,
                    self.run().len() as int,
                ),
                Err(e) => r matches Err(x) && x == e,
            },
    ;

    /// The pair of magnitudes at the head of the bytes, and the bytes after
    /// it.
    fn get_frac_u64<'a>(&'a self) -> (r: Result<(u64, u64, &'a [u8]), ReadError>)
        ensures
            match parse_frac_u64(self.run()) {
                Ok((n, d, k)) => r matches Ok(p) && p.0 == n && p.1 == d && p.2@
                    == self.run().subrange(k as int, self.run().len() as int),
                Err(e) => r matches Err(x) && x == e,
            },
    ;

    /// The machine rational at the head of the bytes, and the bytes after it.
    fn get_frac_i64<'a>(&'a self) -> (r: Result<(i64, i64, &'a [u8]), ReadError>)
        ensures
            match parse_frac_i64(self.run()) {
                Ok((n, d, k)) => r matches Ok(p) && p.0 == n && p.1 == d && p.2@
                    == self.run().subrange(k as int, self.run().len() as int),
                Err(e) => r matches Err(x) && x == e,
            },
    ;

    /// The bytes after the run at their head.
    fn skip_rational<'a>(&'a self) -> (r: Result<&'a [u8], ReadError>)
        ensures
            match skip_len(self.run()) {
                Ok(k) => r matches Ok(rest) && rest@ == self.run().subrange(
                    k as int,
                    self.run().len() as int,
                ),
                Err(e) => r matches Err(x) && x == e,
            },
    ;

    /// Whether the bytes start with the shortest run of zero.
    fn is_zero_rat(&self) -> (r: bool)
        ensures
            r == is_packed_zero(self.run()),
    ;

    /// Whether the bytes start with the shortest run of one.
    fn is_one_rat(&self) -> (r: bool)
        ensures
            r == is_packed_one(self.run()),
    ;
}

impl PackedRationalNumberReader for [u8] {
    open spec fn run(&self) -> Seq<u8> {
        self@
    }

    fn get_number_view<'a>(&'a self) -> (r: Result<(BorrowedNumber<'a>, &'a [u8]), ReadError>) {
        if self.len() == 0 {
            return Err(ReadError::Truncated);
        }
        let disc = self[0];
        if (disc & NUM_MASK) == ARB_NUM {
            if disc & SIGN != 0 {
                return Err(ReadError::SignedEscape);
            }
            if self.len() < 2 {
                return Err(ReadError::Truncated);
            }
            let sign = self[1];
            if sign > 1 {
                return Err(ReadError::Malformed);
            }
            let (ln, ld, source) = advance(self, 2).get_frac_u64()?;
            let avail = source.len() as u64;
            if ln > avail || ld > avail - ln {
                return Err(ReadError::Truncated);
            }
            let ln = ln as usize;
            let ld = ld as usize;
            let rat = BorrowedRational {
                negative: sign == 1,
                numer: slice_subrange(source, 0, ln),
                denom: slice_subrange(source, ln, ln + ld),
            };
            proof {
                let k = self@.len() - 2 - source@.len();
                assert(rat.numer@ =~= self@.subrange(2 + k, 2 + k + ln));
                assert(rat.denom@ =~= self@.subrange(2 + k + ln, 2 + k + ln + ld));
            }
            if !rat.is_well_formed() {
                return Err(ReadError::Malformed);
            }
            let rest = advance(source, ln + ld);
            proof {
                let k = self@.len() - 2 - source@.len();
                assert(rest@ =~= self@.subrange(2 + k + ln + ld, self@.len() as int));
            }
            Ok((BorrowedNumber::Large(rat), rest))
        } else if (disc & NUM_MASK) == FIN_NUM {
            if disc & SIGN != 0 {
                return Err(ReadError::SignedEscape);
            }
            let (num, fi, source) = advance(self, 1).get_frac_u64()?;
            if fi > usize::MAX as u64 {
                return Err(ReadError::Overflow);
            }
            proof {
                let k = self@.len() - 1 - source@.len();
                assert(source@ =~= self@.subrange(1 + k, self@.len() as int));
            }
            Ok(
                (
                    BorrowedNumber::FiniteField(
                        FiniteFieldElement(num),
                        FiniteFieldIndex(fi as usize),
                    ),
                    source,
                ),
            )
        } else {
            let (num, den, source) = self.get_frac_i64()?;
            if den == 0 {
                return Err(ReadError::Malformed);
            }
            Ok((BorrowedNumber::Natural(num, den), source))
        }
    }

    fn get_frac_u64<'a>(&'a self) -> (r: Result<(u64, u64, &'a [u8]), ReadError>) {
        if self.len() == 0 {
            return Err(ReadError::Truncated);
        }
        let disc = self[0];
        let source = advance(self, 1);
        let nk = disc & NUM_MASK;
        if nk == ARB_NUM {
            return Err(ReadError::Overflow);
        }
        if nk == 0 || nk > U64_NUM {
            return Err(ReadError::UnknownKind);
        }
        let wn = get_size_of_natural(nk) as usize;
        if source.len() < wn {
            return Err(ReadError::Truncated);
        }
        let (num, source) = get_uint_le(source, wn);
        let dk = (disc & DEN_MASK) >> 4;
        if dk == 7 {
            return Err(ReadError::Overflow);
        }
        if dk > 4 {
            return Err(ReadError::UnknownKind);
        }
        let wd = get_size_of_natural(dk) as usize;
        if source.len() < wd {
            return Err(ReadError::Truncated);
        }
        proof {
            assert(self@.subrange(1, self@.len() as int).subrange(0, wn as int) =~= self@.subrange(
                1,
                1 + wn,
            ));
            assert(source@ =~= self@.subrange(1 + wn, self@.len() as int));
            assert(source@.subrange(0, wd as int) =~= self@.subrange(1 + wn, 1 + wn + wd));
        }
        if dk == 0 {
            Ok((num, 1, source))
        } else {
            let (den, source) = get_uint_le(source, wd);
            proof {
                assert(source@ =~= self@.subrange(1 + wn + wd, self@.len() as int));
            }
            Ok((num, den, source))
        }
    }

    fn get_frac_i64<'a>(&'a self) -> (r: Result<(i64, i64, &'a [u8]), ReadError>) {
        let (num, den, source) = self.get_frac_u64()?;
        if den > i64::MAX as u64 {
            return Err(ReadError::Overflow);
        }
        if self[0] & SIGN != 0 {
            if num > 0x8000_0000_0000_0000 {
                Err(ReadError::Overflow)
            } else if num == 0x8000_0000_0000_0000 {
                Ok((i64::MIN, den as i64, source))
            } else {
                Ok((-(num as i64), den as i64, source))
            }
        } else {
            if num > i64::MAX as u64 {
                Err(ReadError::Overflow)
            } else {
                Ok((num as i64, den as i64, source))
            }
        }
    }

    fn skip_rational<'a>(&'a self) -> (r: Result<&'a [u8], ReadError>) {
        if self.len() == 0 {
            return Err(ReadError::Truncated);
        }
        let var_size = self[0];
        let dest = advance(self, 1);
        let v_num = var_size & NUM_MASK;
        if v_num == ARB_NUM {
            if dest.len() == 0 {
                return Err(ReadError::Truncated);
            }
            let (ln, ld, dest) = advance(self, 2).get_frac_u64()?;
            let avail = dest.len() as u64;
            if ln > avail || ld > avail - ln {
                return Err(ReadError::Truncated);
            }
            let rest = advance(dest, (ln + ld) as usize);
            proof {
                let k = self@.len() - 2 - dest@.len();
                assert(rest@ =~= self@.subrange(2 + k + ln + ld, self@.len() as int));
            }
            Ok(rest)
        } else if v_num == FIN_NUM {
            if dest.len() == 0 {
                return Err(ReadError::Truncated);
            }
            let var_size = dest[0];
            let dest = advance(dest, 1);
            let nk = var_size & NUM_MASK;
            let dk = (var_size & DEN_MASK) >> 4;
            if nk == 0 || nk > U64_NUM || dk > 4 {
                return Err(ReadError::UnknownKind);
            }
            let size = get_size_of_natural(nk) + get_size_of_natural(dk);
            if dest.len() < size as usize {
                return Err(ReadError::Truncated);
            }
            let rest = advance(dest, size as usize);
            proof {
                assert(rest@ =~= self@.subrange(2 + size, self@.len() as int));
            }
            Ok(rest)
        } else {
            let dk = (var_size & DEN_MASK) >> 4;
            if v_num == 0 || v_num > U64_NUM || dk > 4 {
                return Err(ReadError::UnknownKind);
            }
            let size = get_size_of_natural(v_num) + get_size_of_natural(dk);
            if dest.len() < size as usize {
                return Err(ReadError::Truncated);
            }
            let rest = advance(dest, size as usize);
            proof {
                assert(rest@ =~= self@.subrange(1 + size, self@.len() as int));
            }
            Ok(rest)
        }
    }

    fn is_zero_rat(&self) -> (r: bool) {
        self.len() >= 2 && self[0] == U8_NUM && self[1] == 0
    }

    fn is_one_rat(&self) -> (r: bool) {
        self.len() >= 2 && self[0] == U8_NUM && self[1] == 1
    }
}

} // verus!
