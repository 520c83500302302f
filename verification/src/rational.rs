//! Arbitrary-precision rationals, held as a sign and two little-endian digit
//! strings. Arithmetic on them is done by GMP through the `rug` crate; the
//! functions at the end of this module state what is relied on from it.

use crate::digits::{is_minimal, le_value, lemma_minimal_positive, minimal};
use crate::utils::gcd;
use core::cmp::Ordering;
use rug::integer::Order;
use rug::ops::Pow;
use rug::{Integer, Rational};
use vstd::arithmetic::power::pow;
use vstd::prelude::*;
use vstd::slice::slice_to_vec;
use vstd::std_specs::cmp::PartialEqSpecImpl;

verus! {

/// How two integers compare.
pub open spec fn order_of(x: int, y: int) -> Ordering {
    if x < y {
        Ordering::Less
    } else if x == y {
        Ordering::Equal
    } else {
        Ordering::Greater
    }
}

/// Mathematical content of a large rational: its sign and the digits of the
/// magnitudes of numerator and denominator.
pub struct RationalView {
    pub negative: bool,
    pub numer: Seq<u8>,
    pub denom: Seq<u8>,
}

impl RationalView {
    /// The signed numerator.
    pub open spec fn num(self) -> int {
        if self.negative {
            -(le_value(self.numer) as int)
        } else {
            le_value(self.numer) as int
        }
    }

    /// The denominator.
    pub open spec fn den(self) -> int {
        le_value(self.denom) as int
    }

    /// Both digit strings are minimal, the denominator is not zero, and zero
    /// carries no sign.
    pub open spec fn wf(self) -> bool {
        &&& minimal(self.numer)
        &&& minimal(self.denom)
        &&& self.denom.len() > 0
        &&& self.negative ==> self.numer.len() > 0
    }

    /// Numerator and denominator have no common factor.
    pub open spec fn reduced(self) -> bool {
        gcd(le_value(self.numer), le_value(self.denom)) == 1
    }

    /// A well-formed rational has a positive denominator.
    pub proof fn lemma_den_positive(self)
        requires
            self.wf(),
        ensures
            self.den() > 0,
    {
        lemma_minimal_positive(self.denom);
    }
}

/// An owned arbitrary-precision rational.
#[derive(Debug, Clone, Eq)]
pub struct LargeRational {
    /// Whether the value is below zero.
    pub negative: bool,
    /// Magnitude of the numerator, least significant byte first.
    pub numer: Vec<u8>,
    /// The denominator, least significant byte first.
    pub denom: Vec<u8>,
}

/// A view of an arbitrary-precision rational whose digits live elsewhere.
#[derive(Debug, Clone, Copy, Eq)]
pub struct BorrowedRational<'a> {
    /// Whether the value is below zero.
    pub negative: bool,
    /// Magnitude of the numerator, least significant byte first.
    pub numer: &'a [u8],
    /// The denominator, least significant byte first.
    pub denom: &'a [u8],
}

impl View for LargeRational {
    type V = RationalView;

    open spec fn view(&self) -> RationalView {
        RationalView { negative: self.negative, numer: self.numer@, denom: self.denom@ }
    }
}

impl<'a> View for BorrowedRational<'a> {
    type V = RationalView;

    open spec fn view(&self) -> RationalView {
        RationalView { negative: self.negative, numer: self.numer@, denom: self.denom@ }
    }
}

/// Whether two digit strings are the same.
pub fn same_digits(a: &[u8], b: &[u8]) -> (r: bool)
    ensures
        r == (a@ == b@),
{
    if a.len() != b.len() {
        return false;
    }
    let mut i: usize = 0;
    while i < a.len()
        invariant
            i <= a.len(),
            a.len() == b.len(),
            forall|j: int| 0 <= j < i ==> a@[j] == b@[j],
        decreases a.len() - i,
    {
        if a[i] != b[i] {
            return false;
        }
        i += 1;
    }
    assert(a@ =~= b@);
    true
}

impl PartialEq for LargeRational {
    /// Two large rationals are equal when sign and digits are the same; two
    /// representations of one value that differ in their digits are not.
    fn eq(&self, other: &Self) -> (r: bool) {
        self.negative == other.negative && same_digits(
            self.numer.as_slice(),
            other.numer.as_slice(),
        ) && same_digits(self.denom.as_slice(), other.denom.as_slice())
    }
}

impl PartialEqSpecImpl for LargeRational {
    open spec fn obeys_eq_spec() -> bool {
        true
    }

    open spec fn eq_spec(&self, other: &Self) -> bool {
        self@ == other@
    }
}

impl<'a> PartialEq for BorrowedRational<'a> {
    /// Two large rationals are equal when sign and digits are the same.
    fn eq(&self, other: &Self) -> (r: bool) {
        self.negative == other.negative && same_digits(self.numer, other.numer) && same_digits(
            self.denom,
            other.denom,
        )
    }
}

impl<'a> PartialEqSpecImpl for BorrowedRational<'a> {
    open spec fn obeys_eq_spec() -> bool {
        true
    }

    open spec fn eq_spec(&self, other: &Self) -> bool {
        self@ == other@
    }
}

impl LargeRational {
    /// Borrows the digits.
    pub fn to_borrowed<'a>(&'a self) -> (r: BorrowedRational<'a>)
        ensures
            r@ == self@,
    {
        BorrowedRational {
            negative: self.negative,
            numer: self.numer.as_slice(),
            denom: self.denom.as_slice(),
        }
    }
}

impl<'a> BorrowedRational<'a> {
    /// Whether the digits keep the invariant of the representation.
    pub fn is_well_formed(&self) -> (r: bool)
        ensures
            r == self@.wf(),
    {
        is_minimal(self.numer) && is_minimal(self.denom) && self.denom.len() > 0 && (!self.negative
            || self.numer.len() > 0)
    }

    /// Copies the digits into an owned value.
    pub fn to_owned(&self) -> (r: LargeRational)
        ensures
            r@ == self@,
    {
        LargeRational {
            negative: self.negative,
            numer: slice_to_vec(self.numer),
            denom: slice_to_vec(self.denom),
        }
    }
}

/// `Rational::from((n, d))`: the rational `n / d` in lowest terms with a
/// positive denominator. It panics for a denominator of zero. The result is
/// taken apart with `Rational::numer`, `Rational::denom` and
/// `Integer::to_digits`, which yields the significant digits of a magnitude
/// and none for zero.
#[verifier::external_body]
pub(crate) fn rational_from_pair(n: i64, d: i64) -> (r: LargeRational)
    requires
        d != 0,
    ensures
        r@.wf(),
        r@.reduced(),
        r@.num() * d == n * r@.den(),
{
    let q = Rational::from((n, d));
    LargeRational {
        negative: q < 0,
        numer: q.numer().to_digits(Order::Lsf),
        denom: q.denom().to_digits(Order::Lsf),
    }
}

/// `Rational + Rational`: the sum of two rationals, in lowest terms with a
/// positive denominator. The operands are rebuilt with
/// `Integer::from_digits` and `Rational::from`, and negated where their sign
/// is set; the result is taken apart as in [`rational_from_pair`].
#[verifier::external_body]
pub(crate) fn rational_add(a: BorrowedRational<'_>, b: BorrowedRational<'_>) -> (r: LargeRational)
    requires
        a@.wf(),
        b@.wf(),
    ensures
        r@.wf(),
        r@.reduced(),
        r@.num() * (a@.den() * b@.den()) == (a@.num() * b@.den() + b@.num() * a@.den()) * r@.den(),
{
    let x = Rational::from((
        Integer::from_digits(a.numer, Order::Lsf),
        Integer::from_digits(a.denom, Order::Lsf),
    ));
    let y = Rational::from((
        Integer::from_digits(b.numer, Order::Lsf),
        Integer::from_digits(b.denom, Order::Lsf),
    ));
    let q = (if a.negative { -x } else { x }) + (if b.negative { -y } else { y });
    LargeRational {
        negative: q < 0,
        numer: q.numer().to_digits(Order::Lsf),
        denom: q.denom().to_digits(Order::Lsf),
    }
}

/// `Rational * Rational`: the product of two rationals, in lowest terms with
/// a positive denominator. Operands and result are converted as in
/// [`rational_add`].
#[verifier::external_body]
pub(crate) fn rational_mul(a: BorrowedRational<'_>, b: BorrowedRational<'_>) -> (r: LargeRational)
    requires
        a@.wf(),
        b@.wf(),
    ensures
        r@.wf(),
        r@.reduced(),
        r@.num() * (a@.den() * b@.den()) == (a@.num() * b@.num()) * r@.den(),
{
    let x = Rational::from((
        Integer::from_digits(a.numer, Order::Lsf),
        Integer::from_digits(a.denom, Order::Lsf),
    ));
    let y = Rational::from((
        Integer::from_digits(b.numer, Order::Lsf),
        Integer::from_digits(b.denom, Order::Lsf),
    ));
    let q = (if a.negative { -x } else { x }) * (if b.negative { -y } else { y });
    LargeRational {
        negative: q < 0,
        numer: q.numer().to_digits(Order::Lsf),
        denom: q.denom().to_digits(Order::Lsf),
    }
}

/// `Pow<u32> for Rational`: a rational raised to a non-negative power, in
/// lowest terms with a positive denominator; the power zero gives one.
/// Operand and result are converted as in [`rational_add`].
#[verifier::external_body]
pub(crate) fn rational_pow(a: BorrowedRational<'_>, e: u32) -> (r: LargeRational)
    requires
        a@.wf(),
    ensures
        r@.wf(),
        r@.reduced(),
        r@.num() * pow(a@.den(), e as nat) == pow(a@.num(), e as nat) * r@.den(),
{
    let x = Rational::from((
        Integer::from_digits(a.numer, Order::Lsf),
        Integer::from_digits(a.denom, Order::Lsf),
    ));
    let q = (if a.negative { -x } else { x }).pow(e);
    LargeRational {
        negative: q < 0,
        numer: q.numer().to_digits(Order::Lsf),
        denom: q.denom().to_digits(Order::Lsf),
    }
}

/// `Ord::cmp` of `Rational`: how the values of two rationals compare. The
/// operands are converted as in [`rational_add`].
#[verifier::external_body]
pub(crate) fn rational_order(a: BorrowedRational<'_>, b: BorrowedRational<'_>) -> (r: Ordering)
    requires
        a@.wf(),
        b@.wf(),
    ensures
        r == order_of(a@.num() * b@.den(), b@.num() * a@.den()),
{
    let x = Rational::from((
        Integer::from_digits(a.numer, Order::Lsf),
        Integer::from_digits(a.denom, Order::Lsf),
    ));
    let y = Rational::from((
        Integer::from_digits(b.numer, Order::Lsf),
        Integer::from_digits(b.denom, Order::Lsf),
    ));
    (if a.negative { -x } else { x }).cmp(&(if b.negative { -y } else { y }))
}

/// `Ord::cmp` of `Integer`, on two products of machine integers formed with
/// `Integer::from` and `Integer * Integer`: how `a * b` compares with `c * d`.
#[verifier::external_body]
pub(crate) fn product_order(a: i64, b: i64, c: i64, d: i64) -> (r: Ordering)
    ensures
        r == order_of(a * b, c * d),
{
    (Integer::from(a) * Integer::from(b)).cmp(&(Integer::from(c) * Integer::from(d)))
}

} // verus!
