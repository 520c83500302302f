//! Little-endian strings of base-256 digits and the numbers they stand for.

use vstd::prelude::*;

verus! {

/// Value of a string of base-256 digits, least significant digit first.
pub open spec fn le_value(digits: Seq<u8>) -> nat
    decreases digits.len(),
{
    if digits.len() == 0 {
        0
    } else {
        digits[0] as nat + 256 * le_value(digits.drop_first())
    }
}

/// The `width` least significant base-256 digits of `x`, least significant
/// digit first.
pub open spec fn le_bytes(x: nat, width: nat) -> Seq<u8>
    decreases width,
{
    if width == 0 {
        Seq::<u8>::empty()
    } else {
        seq![(x % 256) as u8] + le_bytes(x / 256, (width - 1) as nat)
    }
}

/// The number of values that `width` digits can tell apart: 256 to the power
/// `width`.
pub open spec fn radix(width: nat) -> nat
    decreases width,
{
    if width == 0 {
        1
    } else {
        256 * radix((width - 1) as nat)
    }
}

/// A digit string is minimal when its most significant digit is not zero.
pub open spec fn minimal(digits: Seq<u8>) -> bool {
    digits.len() > 0 ==> digits.last() != 0
}

/// The radix for the widths of the machine integers.
pub proof fn lemma_radix_values()
    ensures
        radix(0) == 1,
        radix(1) == 0x100,
        radix(2) == 0x1_0000,
        radix(4) == 0x1_0000_0000,
        radix(8) == 0x1_0000_0000_0000_0000,
{
    reveal_with_fuel(radix, 9);
}

/// `le_bytes` yields as many digits as asked for.
pub proof fn lemma_le_bytes_len(x: nat, width: nat)
    ensures
        le_bytes(x, width).len() == width,
    decreases width,
{
    if width > 0 {
        lemma_le_bytes_len(x / 256, (width - 1) as nat);
    }
}

/// The digits of a number that fits in `width` digits have that number as
/// their value.
pub proof fn lemma_le_value_of_le_bytes(x: nat, width: nat)
    requires
        x < radix(width),
    ensures
        le_value(le_bytes(x, width)) == x,
    decreases width,
{
    if width > 0 {
        let rest = le_bytes(x / 256, (width - 1) as nat);
        let all = le_bytes(x, width);
        lemma_le_bytes_len(x / 256, (width - 1) as nat);
        assert(all.drop_first() =~= rest);
        assert(all[0] == (x % 256) as u8);
        lemma_le_value_of_le_bytes(x / 256, (width - 1) as nat);
    }
}

/// A non-empty minimal digit string has a positive value.
pub proof fn lemma_minimal_positive(digits: Seq<u8>)
    requires
        digits.len() > 0,
        minimal(digits),
    ensures
        le_value(digits) > 0,
    decreases digits.len(),
{
    if digits.len() > 1 {
        let rest = digits.drop_first();
        assert(rest.last() == digits.last());
        lemma_minimal_positive(rest);
    } else {
        assert(digits[0] == digits.last());
        assert(le_value(digits.drop_first()) == 0);
    }
}

/// Whether the digits in a slice are minimal.
pub fn is_minimal(digits: &[u8]) -> (r: bool)
    ensures
        r == minimal(digits@),
{
    digits.len() == 0 || digits[digits.len() - 1] != 0
}

} // verus!
