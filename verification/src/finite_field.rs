//! Arithmetic on residues modulo a word-sized prime.

use vstd::prelude::*;

verus! {

/// A residue, held as its representative in `[0, p)`.
#[derive(Debug, Clone, Copy, PartialEq, Eq, Structural)]
pub struct FiniteFieldElement(pub u64);

/// The field of integers modulo `p`.
#[derive(Debug, Clone, Copy, PartialEq, Eq, Structural)]
pub struct FiniteField {
    p: u64,
}

impl FiniteField {
    /// The modulus.
    pub closed spec fn prime(&self) -> nat {
        self.p as nat
    }

    /// The modulus is at least two.
    pub open spec fn wf(&self) -> bool {
        self.prime() >= 2
    }

    /// Whether an element is a representative of this field.
    pub open spec fn contains(&self, a: FiniteFieldElement) -> bool {
        (a.0 as nat) < self.prime()
    }

    /// The field with modulus `p`, for `p` of at least two.
    pub fn new(p: u64) -> (r: Option<FiniteField>)
        ensures
            r is Some <==> p >= 2,
            r matches Some(f) ==> f.wf() && f.prime() == p,
    {
        if p >= 2 {
            Some(FiniteField { p })
        } else {
            None
        }
    }

    /// The modulus.
    pub fn get_prime(&self) -> (p: u64)
        ensures
            p == self.prime(),
    {
        self.p
    }

    /// Sum of two elements.
    pub fn add(&self, a: &FiniteFieldElement, b: &FiniteFieldElement) -> (r: FiniteFieldElement)
        requires
            self.wf(),
            self.contains(*a),
            self.contains(*b),
        ensures
            self.contains(r),
            r.0 as nat == (a.0 as nat + b.0 as nat) % self.prime(),
    {
        let s: u128 = a.0 as u128 + b.0 as u128;
        let m: u128 = s % (self.p as u128);
        FiniteFieldElement(m as u64)
    }

    /// Product of two elements.
    pub fn mul(&self, a: &FiniteFieldElement, b: &FiniteFieldElement) -> (r: FiniteFieldElement)
        requires
            self.wf(),
            self.contains(*a),
            self.contains(*b),
        ensures
            self.contains(r),
            r.0 as nat == (a.0 as nat * b.0 as nat) % self.prime(),
    {
        assert(a.0 as u128 * b.0 as u128 <= 0xffff_ffff_ffff_ffffu128 * 0xffff_ffff_ffff_ffffu128)
            by (nonlinear_arith)
            requires
                a.0 as u128 <= 0xffff_ffff_ffff_ffffu128,
                b.0 as u128 <= 0xffff_ffff_ffff_ffffu128,
        ;
        let s: u128 = a.0 as u128 * b.0 as u128;
        let m: u128 = s % (self.p as u128);
        FiniteFieldElement(m as u64)
    }
}

} // verus!
