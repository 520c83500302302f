//! The packed encoding of a coefficient: one discriminator byte, then the
//! magnitudes it announces, least significant byte first.
//!
//! ```text
//! bit 7      sign (set when the numerator is negative)
//! bits 6..4  kind of the denominator
//! bits 3..0  kind of the numerator
//! ```
//!
//! A kind of 1, 2, 3 or 4 announces a magnitude of 1, 2, 4 or 8 bytes. The
//! denominator kind 0 stands for the denominator 1, of which no byte is
//! written. The numerator kind 5 announces a finite-field element: an
//! unsigned pair of element and field index follows as a run of its own. The
//! numerator kind 7 announces an arbitrary-precision rational: a sign byte
//! follows, then the lengths of the two digit strings as an unsigned pair,
//! then the digits of the numerator and those of the denominator.

use crate::buffer::{put_uint_le, put_uint_le_at};
use crate::digits::{le_bytes, lemma_le_bytes_len};
use crate::number::{Number, NumberError, NumberView};
use crate::rational::RationalView;
use crate::utils::{abs, magnitude};
use vstd::prelude::*;

verus! {

/// Numerator kind: one byte.
pub const U8_NUM: u8 = 0b0000_0001;

/// Numerator kind: two bytes.
pub const U16_NUM: u8 = 0b0000_0010;

/// Numerator kind: four bytes.
pub const U32_NUM: u8 = 0b0000_0011;

/// Numerator kind: eight bytes.
pub const U64_NUM: u8 = 0b0000_0100;

/// Numerator kind: a finite-field element follows.
pub const FIN_NUM: u8 = 0b0000_0101;

/// Numerator kind: an arbitrary-precision rational follows.
pub const ARB_NUM: u8 = 0b0000_0111;

/// Denominator kind of an arbitrary-precision rational, in place.
pub const ARB_DEN: u8 = 0b0111_0000;

/// The bits of the numerator kind.
pub const NUM_MASK: u8 = 0b0000_1111;

/// The bits of the denominator kind.
pub const DEN_MASK: u8 = 0b0111_0000;

/// The sign bit.
pub const SIGN: u8 = 0b1000_0000;

/// Number of bytes of a magnitude of the given kind.
pub open spec fn kind_width(kind: u8) -> nat {
    if kind == 1 {
        1
    } else if kind == 2 {
        2
    } else if kind == 3 {
        4
    } else if kind == 4 {
        8
    } else {
        0
    }
}

/// The kind under which a magnitude is written: the narrowest one whose
/// largest value lies above it.
pub open spec fn natural_kind(x: nat) -> u8 {
    if x < 0xff {
        U8_NUM
    } else if x < 0xffff {
        U16_NUM
    } else if x < 0xffff_ffff {
        U32_NUM
    } else {
        U64_NUM
    }
}

/// The kind under which a denominator is written: none for 1.
pub open spec fn denominator_kind(d: nat) -> u8 {
    if d == 1 {
        0
    } else {
        natural_kind(d)
    }
}

/// The discriminator byte for the given kinds and sign.
pub open spec fn discriminator(num_kind: u8, den_kind: u8, sign: bool) -> u8 {
    num_kind | (den_kind << 4) | (if sign {
        SIGN
    } else {
        0
    })
}

/// The run of a pair of magnitudes with the given sign bit.
pub open spec fn packed_pair(sign: bool, n: nat, d: nat) -> Seq<u8> {
    seq![discriminator(natural_kind(n), denominator_kind(d), sign)] + le_bytes(
        n,
        kind_width(natural_kind(n)),
    ) + le_bytes(d, kind_width(denominator_kind(d)))
}

/// The run of an arbitrary-precision rational.
pub open spec fn packed_large(l: RationalView) -> Seq<u8> {
    seq![
        ARB_NUM | ARB_DEN,
        if l.negative {
            1u8
        } else {
            0u8
        },
    ] + packed_pair(false, l.numer.len(), l.denom.len()) + l.numer + l.denom
}

/// The run of a coefficient.
pub open spec fn packed_number(v: NumberView) -> Seq<u8> {
    match v {
        NumberView::Natural(n, d) => packed_pair((n < 0) != (d < 0), abs(n), abs(d)),
        NumberView::Large(l) => packed_large(l),
        NumberView::FiniteField(e, i) => seq![FIN_NUM] + packed_pair(false, e as nat, i as nat),
    }
}

/// Length of the run of a pair of magnitudes.
pub proof fn lemma_packed_pair_len(sign: bool, n: nat, d: nat)
    ensures
        packed_pair(sign, n, d).len() == 1 + kind_width(natural_kind(n)) + kind_width(
            denominator_kind(d),
        ),
        2 <= packed_pair(sign, n, d).len() <= 17,
{
    lemma_le_bytes_len(n, kind_width(natural_kind(n)));
    lemma_le_bytes_len(d, kind_width(denominator_kind(d)));
}

/// Number of bytes of a magnitude of the given kind; the kind 0 has none.
pub fn get_size_of_natural(num_type: u8) -> (size: u8)
    requires
        num_type <= 4,
    ensures
        size == kind_width(num_type),
{
    if num_type == 0 {
        0
    } else if num_type == U8_NUM {
        1
    } else if num_type == U16_NUM {
        2
    } else if num_type == U32_NUM {
        4
    } else {
        8
    }
}

/// The kind under which a magnitude is written.
fn kind_of(x: u64) -> (kind: u8)
    ensures
        kind == natural_kind(x as nat),
        1 <= kind <= 4,
{
    if x < 0xff {
        U8_NUM
    } else if x < 0xffff {
        U16_NUM
    } else if x < 0xffff_ffff {
        U32_NUM
    } else {
        U64_NUM
    }
}

/// The kind under which a denominator is written.
fn denominator_kind_of(d: u64) -> (kind: u8)
    ensures
        kind == denominator_kind(d as nat),
        kind <= 4,
{
    if d == 1 {
        0
    } else {
        kind_of(d)
    }
}

/// Appends the run of a pair of magnitudes.
fn write_pair(sign: bool, n: u64, d: u64, dest: &mut Vec<u8>)
    ensures
        final(dest)@ == old(dest)@ + packed_pair(sign, n as nat, d as nat),
{
    let num_kind = kind_of(n);
    let den_kind = denominator_kind_of(d);
    let tag = num_kind | (den_kind << 4) | (if sign {
        SIGN
    } else {
        0
    });
    dest.push(tag);
    put_uint_le(dest, n, get_size_of_natural(num_kind) as usize);
    put_uint_le(dest, d, get_size_of_natural(den_kind) as usize);
    assert(dest@ =~= old(dest)@ + packed_pair(sign, n as nat, d as nat));
}

/// Writes the run of a pair of magnitudes into `dest` from position `at`.
fn write_pair_at(sign: bool, n: u64, d: u64, dest: &mut [u8], at: usize)
    requires
        at + packed_pair(sign, n as nat, d as nat).len() <= old(dest)@.len(),
    ensures
        final(dest)@ == old(dest)@.subrange(0, at as int) + packed_pair(sign, n as nat, d as nat)
            + old(dest)@.subrange(
            at + packed_pair(sign, n as nat, d as nat).len(),
            old(dest)@.len() as int,
        ),
{
    proof {
        lemma_packed_pair_len(sign, n as nat, d as nat);
    }
    let num_kind = kind_of(n);
    let den_kind = denominator_kind_of(d);
    let num_width = get_size_of_natural(num_kind) as usize;
    let den_width = get_size_of_natural(den_kind) as usize;
    let tag = num_kind | (den_kind << 4) | (if sign {
        SIGN
    } else {
        0
    });
    proof {
        lemma_le_bytes_len(n as nat, num_width as nat);
        lemma_le_bytes_len(d as nat, den_width as nat);
    }
    dest[at] = tag;
    put_uint_le_at(dest, at + 1, n, num_width);
    put_uint_le_at(dest, at + 1 + num_width, d, den_width);
    proof {
        assert(dest@ =~= old(dest)@.subrange(0, at as int) + packed_pair(sign, n as nat, d as nat)
            + old(dest)@.subrange(
            at + packed_pair(sign, n as nat, d as nat).len(),
            old(dest)@.len() as int,
        ));
    }
}

/// Length of the run of a pair of magnitudes.
fn pair_size(n: u64, d: u64) -> (size: u64)
    ensures
        size == packed_pair(false, n as nat, d as nat).len(),
        forall|sign: bool| size == #[trigger] packed_pair(sign, n as nat, d as nat).len(),
{
    proof {
        assert forall|sign: bool| 1 + kind_width(natural_kind(n as nat)) + kind_width(
            denominator_kind(d as nat),
        ) == #[trigger] packed_pair(sign, n as nat, d as nat).len() by {
            lemma_packed_pair_len(sign, n as nat, d as nat);
        }
    }
    let mut size: u64 = 1;
    size += get_size_of_natural(kind_of(n)) as u64;
    size += get_size_of_natural(denominator_kind_of(d)) as u64;
    size
}

/// Values that can be written as a packed run.
pub trait PackedRationalNumberWriter: Sized {
    /// The run of this value.
    spec fn packed(&self) -> Seq<u8>;

    /// Whether the value can be written into a slot of fixed size.
    spec fn has_fixed_form(&self) -> bool;

    /// Appends the run of this value to `dest`.
    fn write_packed(self, dest: &mut Vec<u8>)
        ensures
            final(dest)@ == old(dest)@ + self.packed(),
    ;

    /// Writes the run of this value at the start of `dest`, whose other bytes
    /// stay as they are. Values without a fixed form are refused, and `dest`
    /// is then left unchanged.
    fn write_packed_fixed(self, dest: &mut [u8]) -> (r: Result<(), NumberError>)
        requires
            self.has_fixed_form() ==> self.packed().len() <= old(dest)@.len(),
        ensures
            self.has_fixed_form() ==> r is Ok && final(dest)@ == self.packed() + old(
                dest,
            )@.subrange(self.packed().len() as int, old(dest)@.len() as int),
            !self.has_fixed_form() ==> r == Err::<(), NumberError>(NumberError::Unimplemented)
                && final(dest)@ == old(dest)@,
    ;

    /// The number of bytes of the run of this value.
    fn get_packed_size(&self) -> (size: u64)
        requires
            self.packed().len() <= u64::MAX,
        ensures
            size == self.packed().len(),
    ;
}

impl PackedRationalNumberWriter for (u64, u64) {
    open spec fn packed(&self) -> Seq<u8> {
        packed_pair(false, self.0 as nat, self.1 as nat)
    }

    open spec fn has_fixed_form(&self) -> bool {
        true
    }

    fn write_packed(self, dest: &mut Vec<u8>) {
        write_pair(false, self.0, self.1, dest)
    }

    fn write_packed_fixed(self, dest: &mut [u8]) -> (r: Result<(), NumberError>) {
        write_pair_at(false, self.0, self.1, dest, 0);
        assert(old(dest)@.subrange(0, 0) =~= Seq::<u8>::empty());
        assert(dest@ =~= self.packed() + old(dest)@.subrange(
            self.packed().len() as int,
            old(dest)@.len() as int,
        ));
        Ok(())
    }

    fn get_packed_size(&self) -> (size: u64) {
        pair_size(self.0, self.1)
    }
}

impl PackedRationalNumberWriter for (i64, i64) {
    open spec fn packed(&self) -> Seq<u8> {
        packed_pair((self.0 < 0) != (self.1 < 0), abs(self.0 as int), abs(self.1 as int))
    }

    open spec fn has_fixed_form(&self) -> bool {
        true
    }

    fn write_packed(self, dest: &mut Vec<u8>) {
        write_pair((self.0 < 0) != (self.1 < 0), magnitude(self.0), magnitude(self.1), dest)
    }

    fn write_packed_fixed(self, dest: &mut [u8]) -> (r: Result<(), NumberError>) {
        write_pair_at((self.0 < 0) != (self.1 < 0), magnitude(self.0), magnitude(self.1), dest, 0);
        assert(old(dest)@.subrange(0, 0) =~= Seq::<u8>::empty());
        assert(dest@ =~= self.packed() + old(dest)@.subrange(
            self.packed().len() as int,
            old(dest)@.len() as int,
        ));
        Ok(())
    }

    fn get_packed_size(&self) -> (size: u64) {
        pair_size(magnitude(self.0), magnitude(self.1))
    }
}

impl PackedRationalNumberWriter for Number {
    open spec fn packed(&self) -> Seq<u8> {
        packed_number(self@)
    }

    open spec fn has_fixed_form(&self) -> bool {
        !(self@ is Large)
    }

    fn write_packed(self, dest: &mut Vec<u8>) {
        match self {
            Number::Natural(num, den) => (num, den).write_packed(dest),
            Number::Large(r) => {
                dest.push(ARB_NUM | ARB_DEN);
                dest.push(
                    if r.negative {
                        1
                    } else {
                        0
                    },
                );
                write_pair(false, r.numer.len() as u64, r.denom.len() as u64, dest);
                dest.extend_from_slice(r.numer.as_slice());
                dest.extend_from_slice(r.denom.as_slice());
                assert(dest@ =~= old(dest)@ + packed_large(r@));
            },
            Number::FiniteField(num, f) => {
                dest.push(FIN_NUM);
                write_pair(false, num.0, f.0 as u64, dest);
                assert(dest@ =~= old(dest)@ + packed_number(self@));
            },
        }
    }

    fn write_packed_fixed(self, dest: &mut [u8]) -> (r: Result<(), NumberError>) {
        match self {
            Number::Natural(num, den) => (num, den).write_packed_fixed(dest),
            Number::Large(_) => Err(NumberError::Unimplemented),
            Number::FiniteField(num, f) => {
                proof {
                    lemma_packed_pair_len(false, num.0 as nat, f.0 as nat);
                }
                dest[0] = FIN_NUM;
                write_pair_at(false, num.0, f.0 as u64, dest, 1);
                assert(dest@ =~= self.packed() + old(dest)@.subrange(
                    self.packed().len() as int,
                    old(dest)@.len() as int,
                ));
                Ok(())
            },
        }
    }

    fn get_packed_size(&self) -> (size: u64) {
        match self {
            Number::Natural(num, den) => (*num, *den).get_packed_size(),
            Number::Large(r) => {
                proof {
                    lemma_packed_pair_len(false, r.numer@.len(), r.denom@.len());
                }
                2 + pair_size(r.numer.len() as u64, r.denom.len() as u64) + r.numer.len() as u64
                    + r.denom.len() as u64
            },
            Number::FiniteField(m, i) => {
                proof {
                    lemma_packed_pair_len(false, m.0 as nat, i.0 as nat);
                }
                1 + pair_size(m.0, i.0 as u64)
            },
        }
    }
}

} // verus!
