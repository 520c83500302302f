//! Greatest common divisors and sign/magnitude helpers for machine integers.

use vstd::arithmetic::div_mod::{
    lemma_fundamental_div_mod, lemma_mod_multiples_basic, lemma_mod_self_0, lemma_small_mod,
    lemma_truncate_middle,
};
use vstd::arithmetic::power::pow;
use vstd::prelude::*;

verus! {

/// Absolute value of an integer.
pub open spec fn abs(x: int) -> nat {
    if x < 0 {
        (-x) as nat
    } else {
        x as nat
    }
}

/// Whether an integer is representable as an `i64`.
pub open spec fn fits_i64(x: int) -> bool {
    i64::MIN <= x <= i64::MAX
}

/// Quotient of `n` by a divisor `g` of its magnitude, with the sign of `n`.
pub open spec fn exact_quotient(n: int, g: nat) -> int {
    if n < 0 {
        -((abs(n) / g) as int)
    } else {
        (abs(n) / g) as int
    }
}

/// Greatest common divisor of two naturals. `gcd(0, 0)` is `0`.
pub open spec fn gcd(a: nat, b: nat) -> nat
    decreases a,
{
    if a == 0 {
        b
    } else {
        gcd(b % a, a)
    }
}

/// The gcd of two numbers that are not both zero is positive and divides both.
pub proof fn lemma_gcd_divides(a: nat, b: nat)
    requires
        a > 0 || b > 0,
    ensures
        gcd(a, b) > 0,
        a % gcd(a, b) == 0,
        b % gcd(a, b) == 0,
    decreases a,
{
    if a == 0 {
        lemma_mod_self_0(b as int);
    } else {
        let r = b % a;
        lemma_gcd_divides(r, a);
        let g = gcd(r, a) as int;
        let q = (b / a) as int;
        let ka = (a / (g as nat)) as int;
        let kr = (r / (g as nat)) as int;
        lemma_fundamental_div_mod(b as int, a as int);
        lemma_fundamental_div_mod(a as int, g);
        lemma_fundamental_div_mod(r as int, g);
        assert(b as int == (ka * q + kr) * g) by (nonlinear_arith)
            requires
                b as int == (a as int) * q + (r as int),
                a as int == g * ka,
                r as int == g * kr,
        ;
        lemma_mod_multiples_basic(ka * q + kr, g);
    }
}

/// Scaling both arguments scales the gcd.
pub proof fn lemma_gcd_scale(k: nat, a: nat, b: nat)
    requires
        k > 0,
    ensures
        gcd(k * a, k * b) == k * gcd(a, b),
    decreases a,
{
    if a == 0 {
        assert(k * a == 0) by (nonlinear_arith)
            requires
                a == 0,
        ;
    } else {
        assert(k * a > 0) by (nonlinear_arith)
            requires
                k > 0,
                a > 0,
        ;
        lemma_truncate_middle(b as int, k as int, a as int);
        assert((k * b) % (k * a) == k * (b % a));
        lemma_gcd_scale(k, b % a, a);
    }
}

/// Dividing two numbers by their gcd leaves coprime quotients.
pub proof fn lemma_gcd_quotients_coprime(a: nat, b: nat)
    requires
        a > 0 || b > 0,
    ensures
        gcd(a / gcd(a, b), b / gcd(a, b)) == 1,
{
    lemma_gcd_divides(a, b);
    let g = gcd(a, b);
    let x = a / g;
    let y = b / g;
    lemma_fundamental_div_mod(a as int, g as int);
    lemma_fundamental_div_mod(b as int, g as int);
    lemma_gcd_scale(g, x, y);
    assert(g * x == a);
    assert(g * y == b);
    let c = gcd(x, y);
    assert(c == 1) by (nonlinear_arith)
        requires
            g > 0,
            g == g * c,
    ;
}

/// The gcd does not depend on the order of its arguments.
pub proof fn lemma_gcd_symmetric(a: nat, b: nat)
    ensures
        gcd(a, b) == gcd(b, a),
{
    if a == 0 || b == 0 {
        if a == 0 && b > 0 {
            lemma_small_mod(0, b);
            assert(gcd(b, 0) == gcd(0nat % b, b));
        } else if b == 0 && a > 0 {
            lemma_small_mod(0, a);
            assert(gcd(a, 0) == gcd(0nat % a, a));
        }
    } else if a < b {
        lemma_small_mod(a, b);
        assert(gcd(b, a) == gcd(a % b, b));
    } else if b < a {
        lemma_small_mod(b, a);
        assert(gcd(a, b) == gcd(b % a, a));
    }
}

/// Bezout's identity: the gcd of two numbers is an integer combination of
/// them, with the coefficients that are returned.
pub proof fn lemma_bezout(a: nat, b: nat) -> (r: (int, int))
    ensures
        r.0 * a + r.1 * b == gcd(a, b),
    decreases a,
{
    if a == 0 {
        (0, 1)
    } else {
        let (s, t) = lemma_bezout(b % a, a);
        let q = (b / a) as int;
        let m = (b % a) as int;
        lemma_fundamental_div_mod(b as int, a as int);
        assert((t - s * q) * a + s * b == s * m + t * a) by (nonlinear_arith)
            requires
                b == a * q + m,
        ;
        (t - s * q, s)
    }
}

/// Two numbers with multiples that are coprime are coprime themselves.
pub proof fn lemma_coprime_divisors(x: nat, k: nat, y: nat, j: nat)
    requires
        gcd(x * k, y * j) == 1,
    ensures
        gcd(x, y) == 1,
{
    if x == 0 && y == 0 {
        assert(x * k == 0 && y * j == 0) by (nonlinear_arith)
            requires
                x == 0,
                y == 0,
        ;
    } else {
        let g = gcd(x, y);
        lemma_gcd_divides(x, y);
        lemma_exact_quotient(x, g);
        lemma_exact_quotient(y, g);
        let (s, t) = lemma_bezout(x * k, y * j);
        let xq = (x / g) as int;
        let yq = (y / g) as int;
        let c = s * (xq * k) + t * (yq * j);
        assert(g * c == 1) by (nonlinear_arith)
            requires
                s * (x * k) + t * (y * j) == 1,
                x == xq * g,
                y == yq * g,
                c == s * (xq * k) + t * (yq * j),
        ;
        assert(g == 1) by (nonlinear_arith)
            requires
                g > 0,
                g * c == 1,
        ;
    }
}

/// A product of two numbers that are coprime to a third is coprime to it.
pub proof fn lemma_coprime_product(x: nat, y: nat, m: nat)
    requires
        gcd(x, m) == 1,
        gcd(y, m) == 1,
    ensures
        gcd(x * y, m) == 1,
{
    if m == 0 {
        lemma_gcd_symmetric(x, 0);
        lemma_gcd_symmetric(y, 0);
        assert(x == 1 && y == 1);
        assert(x * y == 1) by (nonlinear_arith)
            requires
                x == 1,
                y == 1,
        ;
    } else {
        let k = gcd(x * y, m);
        lemma_gcd_divides(x * y, m);
        lemma_exact_quotient(x * y, k);
        lemma_exact_quotient(m, k);
        let pq = ((x * y) / k) as int;
        let mq = (m / k) as int;
        let (s, t) = lemma_bezout(x, m);
        let (u, v) = lemma_bezout(y, m);
        // y is a multiple of k
        let yq = s * pq + t * (mq * y);
        assert(y == k * yq) by (nonlinear_arith)
            requires
                s * x + t * m == 1,
                x * y == pq * k,
                m == mq * k,
                yq == s * pq + t * (mq * y),
        {
            assert(y == (s * x + t * m) * y);
            assert((s * x + t * m) * y == s * (x * y) + t * (m * y));
        }
        let c = u * yq + v * mq;
        assert(k * c == 1) by (nonlinear_arith)
            requires
                u * y + v * m == 1,
                y == k * yq,
                m == mq * k,
                c == u * yq + v * mq,
        ;
        assert(k == 1) by (nonlinear_arith)
            requires
                k > 0,
                k * c == 1,
        ;
    }
}

/// An exact quotient times the divisor gives back the dividend.
pub proof fn lemma_exact_quotient(a: nat, g: nat)
    requires
        g > 0,
        a % g == 0,
    ensures
        (a / g) * g == a,
        a / g <= a,
        a > 0 ==> a / g > 0,
{
    lemma_fundamental_div_mod(a as int, g as int);
    let q = a / g;
    assert(q * g == a) by (nonlinear_arith)
        requires
            a == g * q,
    ;
    assert(q <= a) by (nonlinear_arith)
        requires
            a == g * q,
            g > 0,
    ;
    if a > 0 {
        assert(q > 0) by (nonlinear_arith)
            requires
                a == g * q,
                a > 0,
                g > 0,
        ;
    }
}

/// Magnitude of a signed machine integer; exact also for `i64::MIN`.
pub fn magnitude(x: i64) -> (m: u64)
    ensures
        m == abs(x as int),
{
    if x >= 0 {
        x as u64
    } else if x == i64::MIN {
        0x8000_0000_0000_0000u64
    } else {
        (-x) as u64
    }
}

/// The signed integer with the given sign and magnitude, where it fits in an `i64`.
pub fn with_sign(negative: bool, m: u64) -> (r: Option<i64>)
    ensures
        r == if fits_i64(if negative { -(m as int) } else { m as int }) {
            Some((if negative { -(m as int) } else { m as int }) as i64)
        } else {
            None::<i64>
        },
{
    if m <= 0x7fff_ffff_ffff_ffffu64 {
        let v = m as i64;
        if negative {
            Some(-v)
        } else {
            Some(v)
        }
    } else if negative && m == 0x8000_0000_0000_0000u64 {
        Some(i64::MIN)
    } else {
        None
    }
}

/// Euclid's algorithm on unsigned machine integers.
pub fn gcd_unsigned(a: u64, b: u64) -> (g: u64)
    ensures
        g == gcd(a as nat, b as nat),
{
    let mut x = a;
    let mut y = b;
    while x != 0
        invariant
            gcd(x as nat, y as nat) == gcd(a as nat, b as nat),
        decreases x,
    {
        let c = x;
        x = y % c;
        y = c;
    }
    y
}

/// Greatest common divisor of the magnitudes of two signed machine integers.
pub fn gcd_signed(a: i64, b: i64) -> (g: u64)
    ensures
        g == gcd(abs(a as int), abs(b as int)),
{
    gcd_unsigned(magnitude(a), magnitude(b))
}

/// Quotient of `n` by a divisor `g` of its magnitude, keeping the sign of `n`.
pub fn div_exact(n: i64, g: u64) -> (q: i64)
    requires
        g > 0,
        abs(n as int) % (g as nat) == 0,
    ensures
        q == exact_quotient(n as int, g as nat),
        q * g == n,
        abs(q as int) == abs(n as int) / (g as nat),
{
    let m = magnitude(n) / g;
    proof {
        lemma_exact_quotient(abs(n as int), g as nat);
    }
    if n >= 0 {
        m as i64
    } else if m == 0x8000_0000_0000_0000u64 {
        assert(g == 1) by (nonlinear_arith)
            requires
                m * g == 0x8000_0000_0000_0000u64,
                m == 0x8000_0000_0000_0000u64,
        ;
        i64::MIN
    } else {
        let q = -(m as i64);
        assert(q * g == n) by (nonlinear_arith)
            requires
                m * g == -(n as int),
                q == -(m as int),
        ;
        q
    }
}

/// `i64::checked_pow`: the power where it fits in an `i64`, and `None` where
/// it overflows.
pub assume_specification[ i64::checked_pow ](base: i64, exp: u32) -> (r: Option<i64>)
    ensures
        r == if fits_i64(pow(base as int, exp as nat)) {
            Some(pow(base as int, exp as nat) as i64)
        } else {
            None::<i64>
        },
;

/// A power of a non-zero number is not zero.
pub proof fn lemma_pow_nonzero(b: int, e: nat)
    requires
        b != 0,
    ensures
        pow(b, e) != 0,
    decreases e,
{
    reveal(pow);
    if e > 0 {
        lemma_pow_nonzero(b, (e - 1) as nat);
        let p = pow(b, (e - 1) as nat);
        assert(b * p != 0) by (nonlinear_arith)
            requires
                b != 0,
                p != 0,
        ;
    }
}

/// Equal multiples of a non-zero number come from equal numbers.
pub proof fn lemma_cancel(x: int, y: int, k: int)
    requires
        k != 0,
        x * k == y * k,
    ensures
        x == y,
{
    assert((x - y) * k == x * k - y * k) by (nonlinear_arith);
    assert(x - y == 0) by (nonlinear_arith)
        requires
            k != 0,
            (x - y) * k == 0,
    ;
}

/// If `p / q` equals `a / b` and `a / b` equals `s / x`, then `p / q` equals `s / x`.
pub proof fn lemma_ratio_trans(p: int, q: int, a: int, b: int, s: int, x: int)
    requires
        b != 0,
        p * b == a * q,
        a * x == s * b,
    ensures
        p * x == s * q,
{
    assert((p * x) * b == (s * q) * b) by (nonlinear_arith)
        requires
            p * b == a * q,
            a * x == s * b,
    {
        assert((p * x) * b == (p * b) * x);
        assert((a * q) * x == (a * x) * q);
        assert((s * b) * q == (s * q) * b);
    }
    lemma_cancel(p * x, s * q, b);
}

/// A denominator in lowest terms divides every denominator under which the
/// same value can be written.
proof fn lemma_lowest_denominator_divides(a: int, b: int, c: int, d: int) -> (k: int)
    requires
        b > 0,
        gcd(abs(a), abs(b)) == 1,
        a * d == c * b,
    ensures
        d == b * k,
{
    let (s, t) = lemma_bezout(abs(a), abs(b));
    let sa: int = if a < 0 {
        -s
    } else {
        s
    };
    assert(sa * a + t * b == 1) by (nonlinear_arith)
        requires
            s * abs(a) + t * abs(b) == 1,
            abs(b) == b,
            a < 0 ==> abs(a) == -a && sa == -s,
            a >= 0 ==> abs(a) == a && sa == s,
    ;
    let k = sa * c + t * d;
    assert(d == b * k) by (nonlinear_arith)
        requires
            sa * a + t * b == 1,
            a * d == c * b,
            k == sa * c + t * d,
    {
        assert(d == (sa * a + t * b) * d);
        assert((sa * a + t * b) * d == sa * (a * d) + t * (b * d));
        assert(sa * (c * b) + t * (b * d) == b * (sa * c + t * d));
    }
    k
}

/// Lowest terms are unique: two fractions in lowest terms with positive
/// denominators and the same value have the same numerator and denominator.
pub proof fn lemma_lowest_terms_unique(a: int, b: int, c: int, d: int)
    requires
        b > 0,
        d > 0,
        gcd(abs(a), abs(b)) == 1,
        gcd(abs(c), abs(d)) == 1,
        a * d == c * b,
    ensures
        a == c,
        b == d,
{
    let k1 = lemma_lowest_denominator_divides(a, b, c, d);
    let k2 = lemma_lowest_denominator_divides(c, d, a, b);
    assert(b == d) by (nonlinear_arith)
        requires
            d == b * k1,
            b == d * k2,
            b > 0,
            d > 0,
    ;
    lemma_cancel(a, c, b);
}

} // verus!
