//! Laws of normalization, of the arithmetic and of the order of
//! coefficients.

use crate::number::{
    canonical_den, canonical_fits, canonical_num, is_large_ratio, is_natural_product,
    is_natural_sum, is_normalized, lemma_canonical, lemma_exact_quotient_signed,
    lemma_product_steps_value, number_order, product_steps, reverse_order, sum_steps, NumberView,
};
use crate::utils::{
    abs, exact_quotient, gcd, lemma_coprime_divisors, lemma_coprime_product, lemma_exact_quotient,
    lemma_gcd_divides, lemma_gcd_quotients_coprime, lemma_gcd_scale, lemma_gcd_symmetric,
    lemma_lowest_terms_unique,
};
use core::cmp::Ordering;
use vstd::arithmetic::div_mod::lemma_div_multiples_vanish_quotient;
use vstd::prelude::*;

verus! {

/// Normalization is idempotent: a coefficient that is the normal form of some
/// fraction is its own normal form.
pub proof fn lemma_normalize_idempotent(v: NumberView, n: int, d: int)
    requires
        d != 0,
        is_normalized(v, n, d),
    ensures
        v.normal(),
        v.den() != 0,
        v is Natural ==> is_normalized(v, v.num(), v.den()),
{
    lemma_canonical(n, d);
    if v is Natural {
        let a = v.num();
        let b = v.den();
        assert(abs(a) / 1 == abs(a));
        assert(abs(b) / 1 == abs(b));
    }
}

/// The sign of a normal form sits on its numerator: the denominator is at
/// least one, and the numerator has the sign of the fraction it came from.
pub proof fn lemma_normalized_sign(v: NumberView, n: int, d: int)
    requires
        d != 0,
        is_normalized(v, n, d),
    ensures
        v.den() >= 1,
        (v.num() < 0) == (n != 0 && ((n < 0) != (d < 0))),
        (v.num() == 0) == (n == 0),
{
    lemma_canonical(n, d);
}

/// A large rational with the lowest terms of `n / d` is in normal form and
/// has the value of `n / d`.
pub proof fn lemma_large_ratio(r: NumberView, n: int, d: int)
    requires
        d != 0,
        is_large_ratio(r, n, d),
    ensures
        r.normal(),
        r.is_ratio(n, d),
        r.den() >= 1,
{
    lemma_canonical(n, d);
}

/// A sum or product in normal form is determined by its value: two normal
/// rationals of the same value have the same numerator and denominator.
pub proof fn lemma_normal_form_determined(v: NumberView, w: NumberView)
    requires
        !(v is FiniteField),
        !(w is FiniteField),
        v.normal(),
        w.normal(),
        v.is_ratio(w.num(), w.den()),
    ensures
        v.num() == w.num(),
        v.den() == w.den(),
{
    if v is Large {
        v->Large_0.lemma_den_positive();
    }
    if w is Large {
        w->Large_0.lemma_den_positive();
    }
    lemma_lowest_terms_unique(v.num(), v.den(), w.num(), w.den());
}

/// Scaling numerator and denominator by a positive factor leaves the lowest
/// terms unchanged.
pub proof fn lemma_canonical_scale(k: int, a: int, b: int)
    requires
        k > 0,
        b != 0,
    ensures
        canonical_num(k * a, k * b) == canonical_num(a, b),
        canonical_den(k * a, k * b) == canonical_den(a, b),
{
    let g = gcd(abs(a), abs(b));
    lemma_gcd_divides(abs(a), abs(b));
    lemma_gcd_scale(k as nat, abs(a), abs(b));
    assert(abs(k * a) == k * abs(a) && abs(k * b) == k * abs(b) && ((k * a < 0) == (a < 0)) && ((k
        * b < 0) == (b < 0))) by (nonlinear_arith)
        requires
            k > 0,
    ;
    assert((k as nat) * abs(a) == k * abs(a));
    assert((k as nat) * abs(b) == k * abs(b));
    assert((k as nat) * g == k * g);
    lemma_div_multiples_vanish_quotient(k, abs(a) as int, g as int);
    lemma_div_multiples_vanish_quotient(k, abs(b) as int, g as int);
}

/// The sum of two machine rationals is their sum in lowest terms, whether it
/// is stored as a machine rational or as a large one. Where no step of the
/// addition overflows, it is a machine rational exactly if its lowest terms
/// fit in machine integers; where a step overflows it is large.
pub proof fn lemma_sum_storage(r: NumberView, n1: int, d1: int, n2: int, d2: int)
    requires
        d1 != 0,
        d2 != 0,
        is_natural_sum(r, n1, d1, n2, d2),
    ensures
        r.num() == canonical_num(n1 * d2 + n2 * d1, d1 * d2),
        r.den() == canonical_den(n1 * d2 + n2 * d1, d1 * d2),
        r is Natural ==> canonical_fits(n1 * d2 + n2 * d1, d1 * d2),
        sum_steps(n1, d1, n2, d2) is Some ==> (r is Natural <==> canonical_fits(
            n1 * d2 + n2 * d1,
            d1 * d2,
        )),
        sum_steps(n1, d1, n2, d2) is None ==> r is Large,
{
    if sum_steps(n1, d1, n2, d2) is Some {
        let g = gcd(abs(d1), abs(d2));
        lemma_gcd_divides(abs(d1), abs(d2));
        lemma_exact_quotient_signed(d1, g);
        lemma_exact_quotient_signed(d2, g);
        let u = exact_quotient(d1, g);
        let v = exact_quotient(d2, g);
        let gi = g as int;
        let t = n1 * v + n2 * u;
        let lcm = d2 * u;
        assert(lcm != 0) by (nonlinear_arith)
            requires
                lcm == d2 * u,
                d2 != 0,
                u != 0,
        ;
        assert(n1 * d2 + n2 * d1 == gi * t) by (nonlinear_arith)
            requires
                t == n1 * v + n2 * u,
                d1 == u * gi,
                d2 == v * gi,
        ;
        assert(d1 * d2 == gi * lcm) by (nonlinear_arith)
            requires
                d1 == u * gi,
                lcm == d2 * u,
        ;
        lemma_canonical_scale(gi, t, lcm);
    }
}

/// The product of two machine rationals with positive denominators is stored
/// as a machine rational exactly if neither cross-cancelled product
/// overflows. The lowest terms of the product then fit in machine integers,
/// and the stored fraction has the value of the product.
pub proof fn lemma_product_storage(r: NumberView, n1: int, d1: int, n2: int, d2: int)
    requires
        d1 > 0,
        d2 > 0,
        is_natural_product(r, n1, d1, n2, d2),
    ensures
        r is Natural <==> product_steps(n1, d1, n2, d2) is Some,
        r is Natural ==> canonical_fits(n1 * n2, d1 * d2) && r.den() > 0 && r.is_ratio(
            n1 * n2,
            d1 * d2,
        ),
{
    if product_steps(n1, d1, n2, d2) is Some {
        let g1 = gcd(abs(n1), abs(d2));
        let g2 = gcd(abs(d1), abs(n2));
        lemma_gcd_divides(abs(n1), abs(d2));
        lemma_gcd_divides(abs(d1), abs(n2));
        lemma_exact_quotient_signed(n1, g1);
        lemma_exact_quotient_signed(d2, g1);
        lemma_exact_quotient_signed(d1, g2);
        lemma_exact_quotient_signed(n2, g2);
        lemma_product_steps_value(n1, d1, n2, d2);
        let a = exact_quotient(n1, g1);
        let b = exact_quotient(n2, g2);
        let c = exact_quotient(d1, g2);
        let e = exact_quotient(d2, g1);
        let h1 = g1 as int;
        let h2 = g2 as int;
        let k = h1 * h2;
        let nn = a * b;
        let nd = c * e;
        assert(k > 0 && c > 0 && e > 0 && nd > 0) by (nonlinear_arith)
            requires
                h1 > 0,
                h2 > 0,
                k == h1 * h2,
                d1 == c * h2,
                d2 == e * h1,
                d1 > 0,
                d2 > 0,
                nd == c * e,
        ;
        assert(d1 * d2 == k * nd) by (nonlinear_arith)
            requires
                d1 == c * h2,
                d2 == e * h1,
                k == h1 * h2,
                nd == c * e,
        ;
        assert(n1 * n2 == k * nn) by (nonlinear_arith)
            requires
                n1 == a * h1,
                n2 == b * h2,
                k == h1 * h2,
                nn == a * b,
        ;
        lemma_canonical_scale(k, nn, nd);
        lemma_canonical(nn, nd);
    }
}

/// Cancelling across two fractions in lowest terms leaves a product in
/// lowest terms.
proof fn lemma_cross_cancelled_coprime(n1: nat, d1: nat, n2: nat, d2: nat)
    requires
        d1 > 0,
        d2 > 0,
        gcd(n1, d1) == 1,
        gcd(n2, d2) == 1,
    ensures
        gcd(
            (n1 / gcd(n1, d2)) * (n2 / gcd(d1, n2)),
            (d1 / gcd(d1, n2)) * (d2 / gcd(n1, d2)),
        ) == 1,
{
    let g1 = gcd(n1, d2);
    let g2 = gcd(d1, n2);
    lemma_gcd_divides(n1, d2);
    lemma_gcd_divides(d1, n2);
    lemma_exact_quotient(n1, g1);
    lemma_exact_quotient(d2, g1);
    lemma_exact_quotient(d1, g2);
    lemma_exact_quotient(n2, g2);
    let a = n1 / g1;
    let e = d2 / g1;
    let c = d1 / g2;
    let b = n2 / g2;
    lemma_gcd_quotients_coprime(n1, d2);
    lemma_gcd_quotients_coprime(d1, n2);
    assert(gcd(a, e) == 1);
    assert(gcd(c, b) == 1);
    lemma_coprime_divisors(a, g1, c, g2);
    lemma_coprime_divisors(b, g2, e, g1);
    assert(gcd(a, c) == 1);
    assert(gcd(b, e) == 1);
    lemma_gcd_symmetric(a, c);
    lemma_gcd_symmetric(a, e);
    lemma_coprime_product(c, e, a);
    lemma_gcd_symmetric(c * e, a);
    lemma_gcd_symmetric(b, e);
    lemma_coprime_product(c, e, b);
    lemma_gcd_symmetric(c * e, b);
    lemma_coprime_product(a, b, c * e);
}

/// The product of two machine rationals in lowest terms is their product in
/// lowest terms, and it is stored as a machine rational exactly if these
/// lowest terms fit in machine integers.
pub proof fn lemma_product_storage_normal(r: NumberView, n1: int, d1: int, n2: int, d2: int)
    requires
        NumberView::Natural(n1, d1).normal(),
        NumberView::Natural(n2, d2).normal(),
        is_natural_product(r, n1, d1, n2, d2),
    ensures
        r.num() == canonical_num(n1 * n2, d1 * d2),
        r.den() == canonical_den(n1 * n2, d1 * d2),
        r is Natural <==> canonical_fits(n1 * n2, d1 * d2),
{
    let g1 = gcd(abs(n1), abs(d2));
    let g2 = gcd(abs(d1), abs(n2));
    lemma_gcd_divides(abs(n1), abs(d2));
    lemma_gcd_divides(abs(d1), abs(n2));
    lemma_exact_quotient_signed(n1, g1);
    lemma_exact_quotient_signed(d2, g1);
    lemma_exact_quotient_signed(d1, g2);
    lemma_exact_quotient_signed(n2, g2);
    lemma_exact_quotient(abs(n1), g1);
    lemma_exact_quotient(abs(d2), g1);
    lemma_exact_quotient(abs(d1), g2);
    lemma_exact_quotient(abs(n2), g2);
    let a = exact_quotient(n1, g1);
    let b = exact_quotient(n2, g2);
    let c = exact_quotient(d1, g2);
    let e = exact_quotient(d2, g1);
    let h1 = g1 as int;
    let h2 = g2 as int;
    let k = h1 * h2;
    let nn = a * b;
    let nd = c * e;
    assert(k > 0 && c > 0 && e > 0 && nd > 0) by (nonlinear_arith)
        requires
            h1 > 0,
            h2 > 0,
            k == h1 * h2,
            d1 == c * h2,
            d2 == e * h1,
            d1 > 0,
            d2 > 0,
            nd == c * e,
    ;
    assert(d1 * d2 == k * nd) by (nonlinear_arith)
        requires
            d1 == c * h2,
            d2 == e * h1,
            k == h1 * h2,
            nd == c * e,
    ;
    assert(n1 * n2 == k * nn) by (nonlinear_arith)
        requires
            n1 == a * h1,
            n2 == b * h2,
            k == h1 * h2,
            nn == a * b,
    ;
    lemma_canonical_scale(k, nn, nd);
    lemma_cross_cancelled_coprime(abs(n1), abs(d1), abs(n2), abs(d2));
    assert(abs(nn) == abs(a) * abs(b)) by (nonlinear_arith)
        requires
            nn == a * b,
    ;
    assert(abs(nd) == abs(c) * abs(e)) by (nonlinear_arith)
        requires
            nd == c * e,
    ;
    assert(gcd(abs(nn), abs(nd)) == 1);
    assert(abs(nn) / 1 == abs(nn));
    assert(abs(nd) / 1 == abs(nd));
    assert(canonical_num(nn, nd) == nn);
    assert(canonical_den(nn, nd) == nd);
}

/// With positive denominators, machine rationals are ordered by value too.
proof fn lemma_order_by_value(a: NumberView, b: NumberView)
    requires
        a.den() > 0,
        b.den() > 0,
        !(a is FiniteField),
        !(b is FiniteField),
    ensures
        (number_order(a, b) == Ordering::Less) == (a.num() * b.den() < b.num() * a.den()),
        (number_order(a, b) == Ordering::Equal) == (a.num() * b.den() == b.num() * a.den()),
        (number_order(a, b) == Ordering::Greater) == (a.num() * b.den() > b.num() * a.den()),
{
    let an = a.num();
    let ad = a.den();
    let bn = b.num();
    let bd = b.den();
    assert(ad * bd > 0) by (nonlinear_arith)
        requires
            ad > 0,
            bd > 0,
    ;
    assert(an < 0 && bn > 0 ==> an * bd < bn * ad) by (nonlinear_arith)
        requires
            ad > 0,
            bd > 0,
    ;
    assert(an > 0 && bn < 0 ==> an * bd > bn * ad) by (nonlinear_arith)
        requires
            ad > 0,
            bd > 0,
    ;
}

/// The order is reflexive: every coefficient compares equal to itself.
pub proof fn lemma_order_reflexive(a: NumberView)
    requires
        a.wf(),
    ensures
        number_order(a, a) == Ordering::Equal,
{
    if a is Large {
        a->Large_0.lemma_den_positive();
        assert(a.den() * a.den() > 0) by (nonlinear_arith)
            requires
                a.den() > 0,
        ;
    }
}

/// The order is antisymmetric: swapping the operands reverses the outcome.
pub proof fn lemma_order_antisymmetric(a: NumberView, b: NumberView)
    requires
        a.wf(),
        b.wf(),
        a is FiniteField <==> b is FiniteField,
    ensures
        number_order(b, a) == reverse_order(number_order(a, b)),
{
    assert(a.den() * b.den() == b.den() * a.den()) by (nonlinear_arith);
}

/// The order is transitive on rationals whose machine denominators are
/// positive, and on finite-field elements.
pub proof fn lemma_order_transitive(a: NumberView, b: NumberView, c: NumberView)
    requires
        a.wf(),
        b.wf(),
        c.wf(),
        a is FiniteField <==> b is FiniteField,
        b is FiniteField <==> c is FiniteField,
        a is Natural ==> a.den() > 0,
        b is Natural ==> b.den() > 0,
        c is Natural ==> c.den() > 0,
        number_order(a, b) != Ordering::Greater,
        number_order(b, c) != Ordering::Greater,
    ensures
        number_order(a, c) != Ordering::Greater,
        number_order(a, b) == Ordering::Less || number_order(b, c) == Ordering::Less
            ==> number_order(a, c) == Ordering::Less,
{
    if !(a is FiniteField) {
        if a is Large {
            a->Large_0.lemma_den_positive();
        }
        if b is Large {
            b->Large_0.lemma_den_positive();
        }
        if c is Large {
            c->Large_0.lemma_den_positive();
        }
        lemma_order_by_value(a, b);
        lemma_order_by_value(b, c);
        lemma_order_by_value(a, c);
        let an = a.num();
        let ad = a.den();
        let bn = b.num();
        let bd = b.den();
        let cn = c.num();
        let cd = c.den();
        let x = an * bd;
        let y = bn * ad;
        let z = bn * cd;
        let w = cn * bd;
        assert(x * cd <= y * cd && (x < y ==> x * cd < y * cd)) by (nonlinear_arith)
            requires
                x <= y,
                cd > 0,
        ;
        assert(z * ad <= w * ad && (z < w ==> z * ad < w * ad)) by (nonlinear_arith)
            requires
                z <= w,
                ad > 0,
        ;
        assert(x * cd == (an * cd) * bd && y * cd == z * ad && w * ad == (cn * ad) * bd)
            by (nonlinear_arith)
            requires
                x == an * bd,
                y == bn * ad,
                z == bn * cd,
                w == cn * bd,
        ;
        let p = an * cd;
        let q = cn * ad;
        assert(p <= q && (p * bd < q * bd ==> p < q)) by (nonlinear_arith)
            requires
                p * bd <= q * bd,
                bd > 0,
        ;
    }
}

} // verus!
