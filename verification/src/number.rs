//! Coefficients: machine rationals, arbitrary-precision rationals and
//! finite-field elements, with normalization and exact arithmetic.

use crate::finite_field::FiniteFieldElement;
use crate::rational::{
    order_of, product_order, rational_add, rational_from_pair, rational_mul, rational_order,
    rational_pow, BorrowedRational, LargeRational, RationalView,
};
use crate::state::{FiniteFieldIndex, State};
use crate::utils::{
    abs, div_exact, exact_quotient, fits_i64, gcd, gcd_signed, lemma_exact_quotient,
    lemma_cancel, lemma_gcd_divides, lemma_gcd_quotients_coprime, lemma_lowest_terms_unique,
    lemma_pow_nonzero, lemma_ratio_trans, magnitude, with_sign,
};
use core::cmp::Ordering;
use vstd::arithmetic::power::{lemma_pow_distributes, pow};
use vstd::pervasive::unreached;
use vstd::prelude::*;
use vstd::std_specs::cmp::PartialEqSpecImpl;

verus! {

/// An owned coefficient.
#[derive(Debug, Clone, Eq)]
pub enum Number {
    /// A rational with numerator and denominator in machine integers.
    Natural(i64, i64),
    /// A rational of arbitrary precision.
    Large(LargeRational),
    /// An element of the finite field with the given index.
    FiniteField(FiniteFieldElement, FiniteFieldIndex),
}

/// A coefficient whose large payload, if any, is borrowed.
#[derive(Debug, Clone, Copy, Eq)]
pub enum BorrowedNumber<'a> {
    /// A rational with numerator and denominator in machine integers.
    Natural(i64, i64),
    /// A rational of arbitrary precision.
    Large(BorrowedRational<'a>),
    /// An element of the finite field with the given index.
    FiniteField(FiniteFieldElement, FiniteFieldIndex),
}

/// Why an operation on coefficients was refused.
#[derive(Debug, Clone, Copy, PartialEq, Eq, Structural)]
pub enum NumberError {
    /// A finite-field element was combined with a number that is not one.
    MixedFiniteField,
    /// Elements of two different finite fields were combined.
    FieldMismatch,
    /// The magnitude of an exponent is 2^32 or more.
    PowerTooLarge,
    /// Zero was raised to a negative power.
    DivisionByZero,
    /// The operation is not provided for operands of these kinds.
    Unimplemented,
}

/// Mathematical content of a coefficient.
pub enum NumberView {
    /// Numerator and denominator.
    Natural(int, int),
    /// Sign and digits of an arbitrary-precision rational.
    Large(RationalView),
    /// Representative and field index.
    FiniteField(int, int),
}

impl NumberView {
    /// Numerator of a rational coefficient.
    pub open spec fn num(self) -> int {
        match self {
            NumberView::Natural(n, _) => n,
            NumberView::Large(l) => l.num(),
            NumberView::FiniteField(e, _) => e,
        }
    }

    /// Denominator of a rational coefficient.
    pub open spec fn den(self) -> int {
        match self {
            NumberView::Natural(_, d) => d,
            NumberView::Large(l) => l.den(),
            NumberView::FiniteField(_, _) => 1,
        }
    }

    /// The invariant of the representation: a machine denominator is not
    /// zero, and a large rational is well formed.
    pub open spec fn wf(self) -> bool {
        match self {
            NumberView::Natural(_, d) => d != 0,
            NumberView::Large(l) => l.wf(),
            NumberView::FiniteField(_, _) => true,
        }
    }

    /// A finite-field element names a field of `state` and is reduced in it.
    pub open spec fn valid_in(self, state: &State) -> bool {
        self matches NumberView::FiniteField(e, i) ==> 0 <= i < state@.len() && 0 <= e
            < state@[i].prime()
    }

    /// Lowest terms with the sign on the numerator.
    pub open spec fn normal(self) -> bool {
        match self {
            NumberView::Natural(n, d) => d >= 1 && gcd(abs(n), abs(d)) == 1,
            NumberView::Large(l) => l.wf() && l.reduced(),
            NumberView::FiniteField(_, _) => true,
        }
    }

    /// `self` has the value of `n / d`.
    pub open spec fn is_ratio(self, n: int, d: int) -> bool {
        self.num() * d == n * self.den()
    }

    /// `self` has the value of the sum of `a` and `b`.
    pub open spec fn is_sum(self, a: NumberView, b: NumberView) -> bool {
        self.is_ratio(a.num() * b.den() + b.num() * a.den(), a.den() * b.den())
    }

    /// `self` has the value of the product of `a` and `b`.
    pub open spec fn is_product(self, a: NumberView, b: NumberView) -> bool {
        self.is_ratio(a.num() * b.num(), a.den() * b.den())
    }
}

impl View for Number {
    type V = NumberView;

    open spec fn view(&self) -> NumberView {
        match *self {
            Number::Natural(n, d) => NumberView::Natural(n as int, d as int),
            Number::Large(l) => NumberView::Large(l@),
            Number::FiniteField(e, i) => NumberView::FiniteField(e.0 as int, i.0 as int),
        }
    }
}

impl<'a> View for BorrowedNumber<'a> {
    type V = NumberView;

    open spec fn view(&self) -> NumberView {
        match *self {
            BorrowedNumber::Natural(n, d) => NumberView::Natural(n as int, d as int),
            BorrowedNumber::Large(l) => NumberView::Large(l@),
            BorrowedNumber::FiniteField(e, i) => NumberView::FiniteField(e.0 as int, i.0 as int),
        }
    }
}

impl PartialEq for Number {
    /// Equality is structural: the same kind with the same parts. Machine
    /// rationals are compared as they are stored, so `1/2` and `2/4` differ.
    fn eq(&self, other: &Self) -> (r: bool) {
        match (self, other) {
            (Number::Natural(n1, d1), Number::Natural(n2, d2)) => *n1 == *n2 && *d1 == *d2,
            (Number::Large(r1), Number::Large(r2)) => r1.to_borrowed() == r2.to_borrowed(),
            (Number::FiniteField(e1, i1), Number::FiniteField(e2, i2)) => e1.0 == e2.0 && i1.0
                == i2.0,
            _ => false,
        }
    }
}

impl PartialEqSpecImpl for Number {
    open spec fn obeys_eq_spec() -> bool {
        true
    }

    open spec fn eq_spec(&self, other: &Self) -> bool {
        self@ == other@
    }
}

impl<'a> PartialEq for BorrowedNumber<'a> {
    /// Equality is structural: the same kind with the same parts. Machine
    /// rationals are compared as they are stored, so `1/2` and `2/4` differ.
    fn eq(&self, other: &Self) -> (r: bool) {
        match (self, other) {
            (BorrowedNumber::Natural(n1, d1), BorrowedNumber::Natural(n2, d2)) => *n1 == *n2
                && *d1 == *d2,
            (BorrowedNumber::Large(r1), BorrowedNumber::Large(r2)) => *r1 == *r2,
            (BorrowedNumber::FiniteField(e1, i1), BorrowedNumber::FiniteField(e2, i2)) => e1.0
                == e2.0 && i1.0 == i2.0,
            _ => false,
        }
    }
}

impl<'a> PartialEqSpecImpl for BorrowedNumber<'a> {
    open spec fn obeys_eq_spec() -> bool {
        true
    }

    open spec fn eq_spec(&self, other: &Self) -> bool {
        self@ == other@
    }
}

/// Numerator of `n / d` in lowest terms with a positive denominator.
pub open spec fn canonical_num(n: int, d: int) -> int {
    let q = (abs(n) / gcd(abs(n), abs(d))) as int;
    if (n < 0) != (d < 0) {
        -q
    } else {
        q
    }
}

/// Denominator of `n / d` in lowest terms.
pub open spec fn canonical_den(n: int, d: int) -> int {
    (abs(d) / gcd(abs(n), abs(d))) as int
}

/// Whether the lowest terms of `n / d` fit in machine integers.
pub open spec fn canonical_fits(n: int, d: int) -> bool {
    fits_i64(canonical_num(n, d)) && fits_i64(canonical_den(n, d))
}

/// `r` is a well-formed large rational with the lowest terms of `n / d` as
/// numerator and denominator.
pub open spec fn is_large_ratio(r: NumberView, n: int, d: int) -> bool {
    r matches NumberView::Large(l) && l.wf() && l.num() == canonical_num(n, d) && l.den()
        == canonical_den(n, d)
}

/// `r` is `n / d` in lowest terms: a machine rational where that fits, and
/// a large rational otherwise.
pub open spec fn is_normalized(r: NumberView, n: int, d: int) -> bool {
    if canonical_fits(n, d) {
        r == NumberView::Natural(canonical_num(n, d), canonical_den(n, d))
    } else {
        is_large_ratio(r, n, d)
    }
}

/// The lowest terms of `n / d` have its value, a positive denominator and no
/// common factor.
pub proof fn lemma_canonical(n: int, d: int)
    requires
        d != 0,
    ensures
        canonical_den(n, d) >= 1,
        canonical_num(n, d) * d == n * canonical_den(n, d),
        gcd(abs(canonical_num(n, d)), abs(canonical_den(n, d))) == 1,
        abs(canonical_num(n, d)) <= abs(n),
        canonical_den(n, d) <= abs(d),
        (canonical_num(n, d) < 0) == ((n < 0) != (d < 0) && n != 0),
        (canonical_num(n, d) == 0) == (n == 0),
{
    let g = gcd(abs(n), abs(d));
    lemma_gcd_divides(abs(n), abs(d));
    lemma_gcd_quotients_coprime(abs(n), abs(d));
    lemma_exact_quotient(abs(n), g);
    lemma_exact_quotient(abs(d), g);
    let a = (abs(n) / g) as int;
    let b = (abs(d) / g) as int;
    let gi = g as int;
    assert(abs(canonical_num(n, d)) == abs(n) / g);
    assert(abs(canonical_den(n, d)) == abs(d) / g);
    let cn = canonical_num(n, d);
    let p = a * (b * gi);
    assert((a * gi) * b == p) by (nonlinear_arith)
        requires
            p == a * (b * gi),
    ;
    assert((-a) * (b * gi) == -p) by (nonlinear_arith)
        requires
            p == a * (b * gi),
    ;
    assert(a * (-(b * gi)) == -p) by (nonlinear_arith)
        requires
            p == a * (b * gi),
    ;
    assert((-a) * (-(b * gi)) == p) by (nonlinear_arith)
        requires
            p == a * (b * gi),
    ;
    assert((-(a * gi)) * b == -p) by (nonlinear_arith)
        requires
            p == a * (b * gi),
    ;
    assert(abs(n) == a * gi);
    assert(abs(d) == b * gi);
    if n < 0 {
        assert(n == -(a * gi));
    } else {
        assert(n == a * gi);
    }
    if d < 0 {
        assert(d == -(b * gi));
    } else {
        assert(d == b * gi);
    }
    assert(cn * d == n * b);
}


/// A large rational in lowest terms that has the value of `n / d` has the
/// lowest terms of `n / d` as numerator and denominator.
pub proof fn lemma_reduced_is_canonical(l: RationalView, n: int, d: int)
    requires
        l.wf(),
        l.reduced(),
        d != 0,
        l.num() * d == n * l.den(),
    ensures
        is_large_ratio(NumberView::Large(l), n, d),
{
    l.lemma_den_positive();
    lemma_canonical(n, d);
    let a = l.num();
    let b = l.den();
    let cn = canonical_num(n, d);
    let cd = canonical_den(n, d);
    assert((a * cd) * d == (cn * b) * d) by (nonlinear_arith)
        requires
            a * d == n * b,
            cn * d == n * cd,
    {
        assert((a * cd) * d == (a * d) * cd);
        assert((n * b) * cd == (n * cd) * b);
        assert((cn * d) * b == (cn * b) * d);
    }
    lemma_cancel(a * cd, cn * b, d);
    lemma_lowest_terms_unique(a, b, cn, cd);
}

/// The steps of adding `n1 / d1` and `n2 / d2` over the least common
/// denominator: the sum's numerator and that denominator, if every product and
/// the final sum fit in machine integers.
pub open spec fn sum_steps(n1: int, d1: int, n2: int, d2: int) -> Option<(int, int)> {
    let g = gcd(abs(d1), abs(d2));
    let u = exact_quotient(d1, g);
    let v = exact_quotient(d2, g);
    if fits_i64(d2 * u) && fits_i64(n2 * u) && fits_i64(n1 * v) && fits_i64(n1 * v + n2 * u) {
        Some((n1 * v + n2 * u, d2 * u))
    } else {
        None
    }
}

/// `r` is what adding the machine rationals `n1 / d1` and `n2 / d2` gives:
/// the normalized result of the steps where they fit, and otherwise the sum
/// as a large rational in lowest terms.
pub open spec fn is_natural_sum(r: NumberView, n1: int, d1: int, n2: int, d2: int) -> bool {
    match sum_steps(n1, d1, n2, d2) {
        Some((num, lcm)) => is_normalized(r, num, lcm),
        None => is_large_ratio(r, n1 * d2 + n2 * d1, d1 * d2),
    }
}

/// The steps of multiplying `n1 / d1` by `n2 / d2` after cancelling across:
/// numerator and denominator of the product, if both fit in machine integers.
pub open spec fn product_steps(n1: int, d1: int, n2: int, d2: int) -> Option<(int, int)> {
    let g1 = gcd(abs(n1), abs(d2));
    let g2 = gcd(abs(d1), abs(n2));
    let nn = exact_quotient(n1, g1) * exact_quotient(n2, g2);
    let nd = exact_quotient(d1, g2) * exact_quotient(d2, g1);
    if fits_i64(nn) && fits_i64(nd) {
        Some((nn, nd))
    } else {
        None
    }
}

/// `r` is what multiplying the machine rationals `n1 / d1` and `n2 / d2`
/// gives: the cross-cancelled products where they fit, and otherwise the
/// product as a large rational in lowest terms.
pub open spec fn is_natural_product(r: NumberView, n1: int, d1: int, n2: int, d2: int) -> bool {
    match product_steps(n1, d1, n2, d2) {
        Some((nn, nd)) => r == NumberView::Natural(nn, nd),
        None => is_large_ratio(r, n1 * n2, d1 * d2),
    }
}

/// A quotient by a divisor of the magnitude, times that divisor, is the number.
pub proof fn lemma_exact_quotient_signed(n: int, g: nat)
    requires
        g > 0,
        abs(n) % g == 0,
    ensures
        exact_quotient(n, g) * g == n,
        n != 0 ==> exact_quotient(n, g) != 0,
{
    lemma_exact_quotient(abs(n), g);
    let q = (abs(n) / g) as int;
    if n < 0 {
        assert((-q) * g == -(q * g)) by (nonlinear_arith);
    }
}

/// The sum formed over the least common denominator has the value of the sum
/// of the two fractions.
pub proof fn lemma_sum_steps_value(n1: int, d1: int, n2: int, d2: int)
    requires
        d1 != 0,
        d2 != 0,
    ensures
        ({
            let g = gcd(abs(d1), abs(d2));
            let u = exact_quotient(d1, g);
            let v = exact_quotient(d2, g);
            &&& d2 * u != 0
            &&& (n1 * v + n2 * u) * (d1 * d2) == (n1 * d2 + n2 * d1) * (d2 * u)
        }),
{
    let g = gcd(abs(d1), abs(d2));
    lemma_gcd_divides(abs(d1), abs(d2));
    lemma_exact_quotient_signed(d1, g);
    lemma_exact_quotient_signed(d2, g);
    let u = exact_quotient(d1, g);
    let v = exact_quotient(d2, g);
    let gi = g as int;
    let t = n1 * v + n2 * u;
    assert(d2 * u != 0) by (nonlinear_arith)
        requires
            d2 != 0,
            u != 0,
    ;
    assert(n1 * d2 + n2 * d1 == t * gi) by (nonlinear_arith)
        requires
            t == n1 * v + n2 * u,
            d1 == u * gi,
            d2 == v * gi,
    ;
    assert(d1 * d2 == gi * (d2 * u)) by (nonlinear_arith)
        requires
            d1 == u * gi,
    ;
    assert(t * (gi * (d2 * u)) == (t * gi) * (d2 * u)) by (nonlinear_arith);
}

/// The cross-cancelled products have the value of the product of the two
/// fractions.
pub proof fn lemma_product_steps_value(n1: int, d1: int, n2: int, d2: int)
    requires
        d1 != 0,
        d2 != 0,
    ensures
        ({
            let g1 = gcd(abs(n1), abs(d2));
            let g2 = gcd(abs(d1), abs(n2));
            let nn = exact_quotient(n1, g1) * exact_quotient(n2, g2);
            let nd = exact_quotient(d1, g2) * exact_quotient(d2, g1);
            &&& nd != 0
            &&& nn * (d1 * d2) == (n1 * n2) * nd
        }),
{
    let g1 = gcd(abs(n1), abs(d2));
    let g2 = gcd(abs(d1), abs(n2));
    lemma_gcd_divides(abs(n1), abs(d2));
    lemma_gcd_divides(abs(d1), abs(n2));
    lemma_exact_quotient_signed(n1, g1);
    lemma_exact_quotient_signed(d2, g1);
    lemma_exact_quotient_signed(d1, g2);
    lemma_exact_quotient_signed(n2, g2);
    let a = exact_quotient(n1, g1);
    let b = exact_quotient(n2, g2);
    let c = exact_quotient(d1, g2);
    let e = exact_quotient(d2, g1);
    let h1 = g1 as int;
    let h2 = g2 as int;
    assert(c * e != 0) by (nonlinear_arith)
        requires
            c != 0,
            e != 0,
    ;
    let k = h1 * h2;
    assert(d1 * d2 == (c * e) * k) by (nonlinear_arith)
        requires
            d1 == c * h2,
            d2 == e * h1,
            k == h1 * h2,
    ;
    assert(n1 * n2 == (a * b) * k) by (nonlinear_arith)
        requires
            n1 == a * h1,
            n2 == b * h2,
            k == h1 * h2,
    ;
    assert((a * b) * ((c * e) * k) == ((a * b) * k) * (c * e)) by (nonlinear_arith);
}

/// Replacing both operands of a sum by fractions of the same value leaves the
/// value of the sum unchanged.
pub proof fn lemma_sum_respects(
    a: int,
    b: int,
    n1: int,
    d1: int,
    c: int,
    d: int,
    n2: int,
    d2: int,
    r: int,
    rd: int,
)
    requires
        b != 0,
        d != 0,
        a * d1 == n1 * b,
        c * d2 == n2 * d,
        r * (b * d) == (a * d + c * b) * rd,
    ensures
        r * (d1 * d2) == (n1 * d2 + n2 * d1) * rd,
{
    let x = (a * d) * (d1 * d2);
    let y = (c * b) * (d1 * d2);
    assert(x == (a * d1) * (d * d2)) by (nonlinear_arith)
        requires
            x == (a * d) * (d1 * d2),
    ;
    assert((n1 * b) * (d * d2) == (n1 * d2) * (b * d)) by (nonlinear_arith);
    assert(y == (c * d2) * (b * d1)) by (nonlinear_arith)
        requires
            y == (c * b) * (d1 * d2),
    ;
    assert((n2 * d) * (b * d1) == (n2 * d1) * (b * d)) by (nonlinear_arith);
    assert((a * d + c * b) * (d1 * d2) == x + y) by (nonlinear_arith)
        requires
            x == (a * d) * (d1 * d2),
            y == (c * b) * (d1 * d2),
    ;
    assert((n1 * d2 + n2 * d1) * (b * d) == (n1 * d2) * (b * d) + (n2 * d1) * (b * d))
        by (nonlinear_arith);
    assert(b * d != 0) by (nonlinear_arith)
        requires
            b != 0,
            d != 0,
    ;
    lemma_ratio_trans(r, rd, a * d + c * b, b * d, n1 * d2 + n2 * d1, d1 * d2);
}

/// Replacing both operands of a product by fractions of the same value leaves
/// the value of the product unchanged.
pub proof fn lemma_product_respects(
    a: int,
    b: int,
    n1: int,
    d1: int,
    c: int,
    d: int,
    n2: int,
    d2: int,
    r: int,
    rd: int,
)
    requires
        b != 0,
        d != 0,
        a * d1 == n1 * b,
        c * d2 == n2 * d,
        r * (b * d) == (a * c) * rd,
    ensures
        r * (d1 * d2) == (n1 * n2) * rd,
{
    let x = (a * c) * (d1 * d2);
    assert(x == (a * d1) * (c * d2)) by (nonlinear_arith)
        requires
            x == (a * c) * (d1 * d2),
    ;
    assert((n1 * b) * (n2 * d) == (n1 * n2) * (b * d)) by (nonlinear_arith);
    assert(b * d != 0) by (nonlinear_arith)
        requires
            b != 0,
            d != 0,
    ;
    lemma_ratio_trans(r, rd, a * c, b * d, n1 * n2, d1 * d2);
}


/// `r` is `bn / bd` raised to the power `e`: the two powers where they fit
/// in machine integers, and otherwise the power as a large rational in lowest
/// terms.
pub open spec fn is_natural_power(r: NumberView, bn: int, bd: int, e: nat) -> bool {
    if fits_i64(pow(bn, e)) && fits_i64(pow(bd, e)) {
        r == NumberView::Natural(pow(bn, e), pow(bd, e))
    } else {
        is_large_ratio(r, pow(bn, e), pow(bd, e))
    }
}

/// How two machine rationals compare: by the signs of the numerators where
/// these differ, and otherwise by the cross products.
pub open spec fn natural_order(n1: int, d1: int, n2: int, d2: int) -> Ordering {
    if n1 < 0 && n2 > 0 {
        Ordering::Less
    } else if n1 > 0 && n2 < 0 {
        Ordering::Greater
    } else {
        order_of(n1 * d2, n2 * d1)
    }
}

/// How the values of two fractions with non-zero denominators compare.
pub open spec fn value_order(an: int, ad: int, bn: int, bd: int) -> Ordering {
    if ad * bd > 0 {
        order_of(an * bd, bn * ad)
    } else {
        order_of(bn * ad, an * bd)
    }
}

/// The order of coefficients: machine rationals among themselves by
/// [`natural_order`], finite-field elements by their representatives, and
/// every pair with a large rational by value.
pub open spec fn number_order(a: NumberView, b: NumberView) -> Ordering {
    match (a, b) {
        (NumberView::Natural(n1, d1), NumberView::Natural(n2, d2)) => natural_order(n1, d1, n2, d2),
        (NumberView::FiniteField(e1, _), NumberView::FiniteField(e2, _)) => order_of(e1, e2),
        _ => value_order(a.num(), a.den(), b.num(), b.den()),
    }
}

/// The opposite order.
pub open spec fn reverse_order(o: Ordering) -> Ordering {
    match o {
        Ordering::Less => Ordering::Greater,
        Ordering::Equal => Ordering::Equal,
        Ordering::Greater => Ordering::Less,
    }
}

/// Comparing a fraction in lowest terms with another gives what comparing
/// the fraction it came from gives.
pub proof fn lemma_lifted_order(a: int, b: int, n: int, d: int, c: int, e: int)
    requires
        b > 0,
        e > 0,
        d != 0,
        a * d == n * b,
    ensures
        order_of(a * e, c * b) == value_order(n, d, c, e),
        order_of(c * b, a * e) == value_order(c, e, n, d),
{
    let x = a * e - c * b;
    let y = n * e - c * d;
    assert(x * d == b * y) by (nonlinear_arith)
        requires
            x == a * e - c * b,
            y == n * e - c * d,
            a * d == n * b,
    {
        assert((a * e) * d == (a * d) * e);
        assert((n * b) * e == b * (n * e));
        assert((c * b) * d == b * (c * d));
    }
    assert(d > 0 ==> ((x < 0) == (y < 0) && (x == 0) == (y == 0))) by (nonlinear_arith)
        requires
            x * d == b * y,
            b > 0,
    ;
    assert(d < 0 ==> ((x < 0) == (y > 0) && (x == 0) == (y == 0))) by (nonlinear_arith)
        requires
            x * d == b * y,
            b > 0,
    ;
    assert((d * e > 0) == (d > 0)) by (nonlinear_arith)
        requires
            e > 0,
            d != 0,
    ;
    assert((e * d > 0) == (d > 0)) by (nonlinear_arith)
        requires
            e > 0,
            d != 0,
    ;
}

/// `n / d` in lowest terms.
pub fn normalize_natural(n: i64, d: i64) -> (r: Number)
    requires
        d != 0,
    ensures
        is_normalized(r@, n as int, d as int),
        r@.normal(),
        r@.is_ratio(n as int, d as int),
{
    let g = gcd_signed(n, d);
    proof {
        lemma_canonical(n as int, d as int);
        lemma_gcd_divides(abs(n as int), abs(d as int));
    }
    let a = magnitude(n) / g;
    let b = magnitude(d) / g;
    let negative = (n < 0) != (d < 0);
    match (with_sign(negative, a), with_sign(false, b)) {
        (Some(x), Some(y)) => Number::Natural(x, y),
        _ => {
            let l = rational_from_pair(n, d);
            proof {
                lemma_reduced_is_canonical(l@, n as int, d as int);
            }
            Number::Large(l)
        },
    }
}

/// Sum of two machine rationals.
fn add_natural(n1: i64, d1: i64, n2: i64, d2: i64) -> (r: Number)
    requires
        d1 != 0,
        d2 != 0,
    ensures
        is_natural_sum(r@, n1 as int, d1 as int, n2 as int, d2 as int),
        r@.normal(),
        r@.is_ratio(n1 * d2 + n2 * d1, d1 * d2),
{
    let g = gcd_signed(d1, d2);
    proof {
        lemma_gcd_divides(abs(d1 as int), abs(d2 as int));
        lemma_sum_steps_value(n1 as int, d1 as int, n2 as int, d2 as int);
    }
    let u = div_exact(d1, g);
    let v = div_exact(d2, g);
    if let Some(lcm) = d2.checked_mul(u) {
        if let Some(num2) = n2.checked_mul(u) {
            if let Some(num1) = n1.checked_mul(v) {
                if let Some(num) = num1.checked_add(num2) {
                    let r = normalize_natural(num, lcm);
                    proof {
                        lemma_ratio_trans(
                            r@.num(),
                            r@.den(),
                            num as int,
                            lcm as int,
                            n1 * d2 + n2 * d1,
                            d1 * d2,
                        );
                    }
                    return r;
                }
            }
        }
    }
    let a = rational_from_pair(n1, d1);
    let b = rational_from_pair(n2, d2);
    let s = rational_add(a.to_borrowed(), b.to_borrowed());
    proof {
        a@.lemma_den_positive();
        b@.lemma_den_positive();
        lemma_sum_respects(
            a@.num(),
            a@.den(),
            n1 as int,
            d1 as int,
            b@.num(),
            b@.den(),
            n2 as int,
            d2 as int,
            s@.num(),
            s@.den(),
        );
        assert(d1 * d2 != 0) by (nonlinear_arith)
            requires
                d1 != 0,
                d2 != 0,
        ;
        lemma_reduced_is_canonical(s@, n1 * d2 + n2 * d1, d1 * d2);
    }
    Number::Large(s)
}

/// Product of two machine rationals.
fn mul_natural(n1: i64, d1: i64, n2: i64, d2: i64) -> (r: Number)
    requires
        d1 != 0,
        d2 != 0,
    ensures
        is_natural_product(r@, n1 as int, d1 as int, n2 as int, d2 as int),
        r@.wf(),
        r@.is_ratio(n1 * n2, d1 * d2),
{
    let g1 = gcd_signed(n1, d2);
    let g2 = gcd_signed(d1, n2);
    proof {
        lemma_gcd_divides(abs(n1 as int), abs(d2 as int));
        lemma_gcd_divides(abs(d1 as int), abs(n2 as int));
        lemma_product_steps_value(n1 as int, d1 as int, n2 as int, d2 as int);
    }
    let a = div_exact(n1, g1);
    let b = div_exact(n2, g2);
    let c = div_exact(d1, g2);
    let e = div_exact(d2, g1);
    match (a.checked_mul(b), c.checked_mul(e)) {
        (Some(nn), Some(nd)) => Number::Natural(nn, nd),
        _ => {
            let x = rational_from_pair(n1, d1);
            let y = rational_from_pair(n2, d2);
            let p = rational_mul(x.to_borrowed(), y.to_borrowed());
            proof {
                x@.lemma_den_positive();
                y@.lemma_den_positive();
                lemma_product_respects(
                    x@.num(),
                    x@.den(),
                    n1 as int,
                    d1 as int,
                    y@.num(),
                    y@.den(),
                    n2 as int,
                    d2 as int,
                    p@.num(),
                    p@.den(),
                );
                assert(d1 * d2 != 0) by (nonlinear_arith)
                    requires
                        d1 != 0,
                        d2 != 0,
                ;
                lemma_reduced_is_canonical(p@, n1 * n2, d1 * d2);
            }
            Number::Large(p)
        },
    }
}

/// The rational that a coefficient stands for, in arbitrary precision.
fn lift(n: i64, d: i64) -> (r: LargeRational)
    requires
        d != 0,
    ensures
        r@.wf(),
        r@.reduced(),
        r@.num() * d == n * r@.den(),
        r@.den() > 0,
{
    let r = rational_from_pair(n, d);
    proof {
        r@.lemma_den_positive();
    }
    r
}

impl Number {
    /// A view of this coefficient that borrows its large payload.
    pub fn to_borrowed<'a>(&'a self) -> (r: BorrowedNumber<'a>)
        ensures
            r@ == self@,
    {
        match self {
            Number::Natural(num, den) => BorrowedNumber::Natural(*num, *den),
            Number::Large(l) => BorrowedNumber::Large(l.to_borrowed()),
            Number::FiniteField(num, field) => BorrowedNumber::FiniteField(*num, *field),
        }
    }

    /// Whether the coefficient is stored as zero. A machine rational is zero
    /// when its numerator is; a large rational never counts as zero.
    pub fn is_zero(&self) -> (r: bool)
        ensures
            r == match self@ {
                NumberView::Natural(n, _) => n == 0,
                NumberView::Large(_) => false,
                NumberView::FiniteField(e, _) => e == 0,
            },
    {
        match self {
            Number::Natural(num, _den) => *num == 0,
            Number::Large(_r) => false,
            Number::FiniteField(num, _field) => num.0 == 0,
        }
    }
}

impl<'a> BorrowedNumber<'a> {
    /// Whether the coefficient keeps the invariant of its representation and,
    /// if it is a finite-field element, lies in a field of `state`.
    pub fn is_well_formed(&self, state: &State) -> (r: bool)
        requires
            state.wf(),
        ensures
            r == (self@.wf() && self@.valid_in(state)),
    {
        match self {
            BorrowedNumber::Natural(_, den) => *den != 0,
            BorrowedNumber::Large(l) => l.is_well_formed(),
            BorrowedNumber::FiniteField(e, i) => state.contains(*i) && e.0
                < state.get_finite_field(*i).get_prime(),
        }
    }

    /// The coefficient in lowest terms, with the sign on the numerator. A
    /// machine rational whose lowest terms do not fit in machine integers
    /// becomes a large rational; other kinds are returned as they are.
    pub fn normalize(&self) -> (r: Number)
        requires
            self@.wf(),
        ensures
            match self@ {
                NumberView::Natural(n, d) => is_normalized(r@, n, d),
                _ => r@ == self@,
            },
            self@ is Natural ==> r@.normal() && r@.is_ratio(self@.num(), self@.den()),
            self@ is Natural && self@.normal() ==> r@ == self@,
    {
        match self {
            BorrowedNumber::Natural(num, den) => {
                proof {
                    if self@.normal() {
                        assert(abs(*num as int) / 1 == abs(*num as int));
                        assert(abs(*den as int) / 1 == abs(*den as int));
                    }
                }
                normalize_natural(*num, *den)
            },
            BorrowedNumber::Large(_) | BorrowedNumber::FiniteField(_, _) => self.to_owned(),
        }
    }

    /// An owned copy.
    pub fn to_owned(&self) -> (r: Number)
        ensures
            r@ == self@,
    {
        match self {
            BorrowedNumber::Natural(num, den) => Number::Natural(*num, *den),
            BorrowedNumber::Large(r) => Number::Large(r.to_owned()),
            BorrowedNumber::FiniteField(num, field) => Number::FiniteField(*num, *field),
        }
    }

    /// Sum of two coefficients.
    ///
    /// Machine rationals are added over their least common denominator; if a
    /// step overflows, the sum is computed in arbitrary precision. A large
    /// operand makes the result large. Finite-field elements are added in
    /// their field, which must be the same for both.
    pub fn add(&self, other: &BorrowedNumber<'_>, state: &State) -> (r: Result<Number, NumberError>)
        requires
            state.wf(),
            self@.wf(),
            other@.wf(),
            self@.valid_in(state),
            other@.valid_in(state),
        ensures
            match (self@, other@) {
                (NumberView::Natural(n1, d1), NumberView::Natural(n2, d2)) => r matches Ok(v)
                    && is_natural_sum(v@, n1, d1, n2, d2),
                (NumberView::FiniteField(e1, i1), NumberView::FiniteField(e2, i2)) => if i1 == i2 {
                    r matches Ok(v) && v@ == NumberView::FiniteField(
                        (e1 + e2) % (state@[i1].prime() as int),
                        i1,
                    )
                } else {
                    r == Err::<Number, NumberError>(NumberError::FieldMismatch)
                },
                (NumberView::FiniteField(_, _), _) | (_, NumberView::FiniteField(_, _)) => r
                    == Err::<Number, NumberError>(NumberError::MixedFiniteField),
                (a, b) => r matches Ok(v) && is_large_ratio(
                    v@,
                    a.num() * b.den() + b.num() * a.den(),
                    a.den() * b.den(),
                ),
            },
            !(self@ is FiniteField) && !(other@ is FiniteField) ==> (r matches Ok(v)
                && v@.normal() && v@.is_sum(self@, other@)),
    {
        match (self, other) {
            (BorrowedNumber::Natural(n1, d1), BorrowedNumber::Natural(n2, d2)) => Ok(
                add_natural(*n1, *d1, *n2, *d2),
            ),
            (BorrowedNumber::Natural(n1, d1), BorrowedNumber::Large(r2))
            | (BorrowedNumber::Large(r2), BorrowedNumber::Natural(n1, d1)) => {
                let r1 = lift(*n1, *d1);
                let s = rational_add(r1.to_borrowed(), *r2);
                proof {
                    r2@.lemma_den_positive();
                    lemma_sum_respects(
                        r1@.num(),
                        r1@.den(),
                        *n1 as int,
                        *d1 as int,
                        r2@.num(),
                        r2@.den(),
                        r2@.num(),
                        r2@.den(),
                        s@.num(),
                        s@.den(),
                    );
                    let den = *d1 * r2@.den();
                    assert(den != 0 && den == r2@.den() * *d1) by (nonlinear_arith)
                        requires
                            *d1 != 0,
                            r2@.den() > 0,
                            den == *d1 * r2@.den(),
                    ;
                    lemma_reduced_is_canonical(s@, *n1 * r2@.den() + r2@.num() * *d1, den);
                }
                Ok(Number::Large(s))
            },
            (BorrowedNumber::Large(r1), BorrowedNumber::Large(r2)) => {
                let s = rational_add(*r1, *r2);
                proof {
                    r1@.lemma_den_positive();
                    r2@.lemma_den_positive();
                    let den = r1@.den() * r2@.den();
                    assert(den != 0) by (nonlinear_arith)
                        requires
                            r1@.den() > 0,
                            r2@.den() > 0,
                            den == r1@.den() * r2@.den(),
                    ;
                    lemma_reduced_is_canonical(
                        s@,
                        r1@.num() * r2@.den() + r2@.num() * r1@.den(),
                        den,
                    );
                }
                Ok(Number::Large(s))
            },
            (BorrowedNumber::FiniteField(n1, i1), BorrowedNumber::FiniteField(n2, i2)) => {
                if i1.0 != i2.0 {
                    return Err(NumberError::FieldMismatch);
                }
                let f = state.get_finite_field(*i1);
                Ok(Number::FiniteField(f.add(n1, n2), *i1))
            },
            (BorrowedNumber::FiniteField(_, _), _) => Err(NumberError::MixedFiniteField),
            (_, BorrowedNumber::FiniteField(_, _)) => Err(NumberError::MixedFiniteField),
        }
    }

    /// Product of two coefficients.
    ///
    /// Machine rationals are cancelled across before they are multiplied; if
    /// a product overflows, the result is computed in arbitrary precision. A
    /// large operand makes the result large. Finite-field elements are
    /// multiplied in their field, which must be the same for both.
    pub fn mul(&self, other: &BorrowedNumber<'_>, state: &State) -> (r: Result<Number, NumberError>)
        requires
            state.wf(),
            self@.wf(),
            other@.wf(),
            self@.valid_in(state),
            other@.valid_in(state),
        ensures
            match (self@, other@) {
                (NumberView::Natural(n1, d1), NumberView::Natural(n2, d2)) => r matches Ok(v)
                    && is_natural_product(v@, n1, d1, n2, d2),
                (NumberView::FiniteField(e1, i1), NumberView::FiniteField(e2, i2)) => if i1 == i2 {
                    r matches Ok(v) && v@ == NumberView::FiniteField(
                        (e1 * e2) % (state@[i1].prime() as int),
                        i1,
                    )
                } else {
                    r == Err::<Number, NumberError>(NumberError::FieldMismatch)
                },
                (NumberView::FiniteField(_, _), _) | (_, NumberView::FiniteField(_, _)) => r
                    == Err::<Number, NumberError>(NumberError::MixedFiniteField),
                (a, b) => r matches Ok(v) && is_large_ratio(
                    v@,
                    a.num() * b.num(),
                    a.den() * b.den(),
                ),
            },
            !(self@ is FiniteField) && !(other@ is FiniteField) ==> (r matches Ok(v)
                && v@.wf() && v@.is_product(self@, other@)),
    {
        match (self, other) {
            (BorrowedNumber::Natural(n1, d1), BorrowedNumber::Natural(n2, d2)) => Ok(
                mul_natural(*n1, *d1, *n2, *d2),
            ),
            (BorrowedNumber::Natural(n1, d1), BorrowedNumber::Large(r2))
            | (BorrowedNumber::Large(r2), BorrowedNumber::Natural(n1, d1)) => {
                let r1 = lift(*n1, *d1);
                let p = rational_mul(r1.to_borrowed(), *r2);
                proof {
                    r2@.lemma_den_positive();
                    lemma_product_respects(
                        r1@.num(),
                        r1@.den(),
                        *n1 as int,
                        *d1 as int,
                        r2@.num(),
                        r2@.den(),
                        r2@.num(),
                        r2@.den(),
                        p@.num(),
                        p@.den(),
                    );
                    let num = *n1 * r2@.num();
                    let den = *d1 * r2@.den();
                    assert(den != 0 && den == r2@.den() * *d1 && num == r2@.num() * *n1)
                        by (nonlinear_arith)
                        requires
                            *d1 != 0,
                            r2@.den() > 0,
                            den == *d1 * r2@.den(),
                            num == *n1 * r2@.num(),
                    ;
                    lemma_reduced_is_canonical(p@, num, den);
                }
                Ok(Number::Large(p))
            },
            (BorrowedNumber::Large(r1), BorrowedNumber::Large(r2)) => {
                let p = rational_mul(*r1, *r2);
                proof {
                    r1@.lemma_den_positive();
                    r2@.lemma_den_positive();
                    let den = r1@.den() * r2@.den();
                    assert(den != 0) by (nonlinear_arith)
                        requires
                            r1@.den() > 0,
                            r2@.den() > 0,
                            den == r1@.den() * r2@.den(),
                    ;
                    lemma_reduced_is_canonical(p@, r1@.num() * r2@.num(), den);
                }
                Ok(Number::Large(p))
            },
            (BorrowedNumber::FiniteField(n1, i1), BorrowedNumber::FiniteField(n2, i2)) => {
                if i1.0 != i2.0 {
                    return Err(NumberError::FieldMismatch);
                }
                let f = state.get_finite_field(*i1);
                Ok(Number::FiniteField(f.mul(n1, n2), *i1))
            },
            (BorrowedNumber::FiniteField(_, _), _) => Err(NumberError::MixedFiniteField),
            (_, BorrowedNumber::FiniteField(_, _)) => Err(NumberError::MixedFiniteField),
        }
    }

    /// A coefficient raised to a rational power, as a rational factor and a
    /// root that is left to take.
    ///
    /// Both operands must be machine rationals. For a base `n / d` and an
    /// exponent `p / q` the factor is the base, inverted where `p` is
    /// negative, raised to the magnitude of `p`, and the second coefficient
    /// is `1 / q`. The magnitude of `p` must be below 2^32.
    pub fn pow(&self, other: &BorrowedNumber<'_>, _state: &State) -> (r: Result<
        (Number, Number),
        NumberError,
    >)
        requires
            self@.wf(),
            other@.wf(),
        ensures
            match (self@, other@) {
                (NumberView::Natural(n, d), NumberView::Natural(p, q)) => if abs(p)
                    >= 0x1_0000_0000 {
                    r == Err::<(Number, Number), NumberError>(NumberError::PowerTooLarge)
                } else if p < 0 && n == 0 {
                    r == Err::<(Number, Number), NumberError>(NumberError::DivisionByZero)
                } else {
                    r matches Ok(v) && v.1@ == NumberView::Natural(1, q) && v.0@.wf()
                        && is_natural_power(
                        v.0@,
                        if p < 0 {
                            d
                        } else {
                            n
                        },
                        if p < 0 {
                            n
                        } else {
                            d
                        },
                        abs(p),
                    )
                },
                _ => r == Err::<(Number, Number), NumberError>(NumberError::Unimplemented),
            },
    {
        match (self, other) {
            (BorrowedNumber::Natural(n1, d1), BorrowedNumber::Natural(n2, d2)) => {
                let e = magnitude(*n2);
                if e > 0xffff_ffff {
                    return Err(NumberError::PowerTooLarge);
                }
                let (bn, bd) = if *n2 < 0 {
                    (*d1, *n1)
                } else {
                    (*n1, *d1)
                };
                if bd == 0 {
                    return Err(NumberError::DivisionByZero);
                }
                let e = e as u32;
                proof {
                    lemma_pow_nonzero(bd as int, e as nat);
                }
                match (bn.checked_pow(e), bd.checked_pow(e)) {
                    (Some(pn), Some(pd)) => Ok((Number::Natural(pn, pd), Number::Natural(1, *d2))),
                    _ => {
                        let b = lift(bn, bd);
                        let p = rational_pow(b.to_borrowed(), e);
                        proof {
                            let k = e as nat;
                            lemma_pow_distributes(b@.num(), bd as int, k);
                            lemma_pow_distributes(bn as int, b@.den(), k);
                            lemma_pow_nonzero(b@.den(), k);
                            lemma_ratio_trans(
                                p@.num(),
                                p@.den(),
                                pow(b@.num(), k),
                                pow(b@.den(), k),
                                pow(bn as int, k),
                                pow(bd as int, k),
                            );
                            lemma_reduced_is_canonical(p@, pow(bn as int, k), pow(bd as int, k));
                        }
                        Ok((Number::Large(p), Number::Natural(1, *d2)))
                    },
                }
            },
            _ => Err(NumberError::Unimplemented),
        }
    }

    /// How this coefficient compares with another.
    ///
    /// Finite-field elements compare with finite-field elements only, and
    /// rationals with rationals only.
    pub fn cmp(&self, other: &BorrowedNumber) -> (r: Ordering)
        requires
            self@.wf(),
            other@.wf(),
            self@ is FiniteField <==> other@ is FiniteField,
        ensures
            r == number_order(self@, other@),
    {
        match (self, other) {
            (BorrowedNumber::Natural(n1, d1), BorrowedNumber::Natural(n2, d2)) => {
                if *n1 < 0 && *n2 > 0 {
                    return Ordering::Less;
                }
                if *n1 > 0 && *n2 < 0 {
                    return Ordering::Greater;
                }
                match (n1.checked_mul(*d2), n2.checked_mul(*d1)) {
                    (Some(a1), Some(a2)) => {
                        if a1 < a2 {
                            Ordering::Less
                        } else if a1 == a2 {
                            Ordering::Equal
                        } else {
                            Ordering::Greater
                        }
                    },
                    _ => product_order(*n1, *d2, *n2, *d1),
                }
            },
            (BorrowedNumber::Large(n1), BorrowedNumber::Large(n2)) => {
                proof {
                    n1@.lemma_den_positive();
                    n2@.lemma_den_positive();
                    lemma_lifted_order(
                        n1@.num(),
                        n1@.den(),
                        n1@.num(),
                        n1@.den(),
                        n2@.num(),
                        n2@.den(),
                    );
                }
                rational_order(*n1, *n2)
            },
            (BorrowedNumber::FiniteField(n1, _), BorrowedNumber::FiniteField(n2, _)) => {
                if n1.0 < n2.0 {
                    Ordering::Less
                } else if n1.0 == n2.0 {
                    Ordering::Equal
                } else {
                    Ordering::Greater
                }
            },
            (BorrowedNumber::Natural(n1, d1), BorrowedNumber::Large(n2)) => {
                let lifted = lift(*n1, *d1);
                proof {
                    n2@.lemma_den_positive();
                    lemma_lifted_order(
                        lifted@.num(),
                        lifted@.den(),
                        self@.num(),
                        self@.den(),
                        n2@.num(),
                        n2@.den(),
                    );
                }
                rational_order(lifted.to_borrowed(), *n2)
            },
            (BorrowedNumber::Large(n1), BorrowedNumber::Natural(n2, d2)) => {
                let lifted = lift(*n2, *d2);
                proof {
                    n1@.lemma_den_positive();
                    lemma_lifted_order(
                        lifted@.num(),
                        lifted@.den(),
                        other@.num(),
                        other@.den(),
                        n1@.num(),
                        n1@.den(),
                    );
                }
                rational_order(*n1, lifted.to_borrowed())
            },
            _ => unreached(),
        }
    }
}

} // verus!
