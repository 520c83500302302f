//! Reading and writing little-endian integers in byte buffers, done by the
//! `bytes` crate. Each function states what is relied on from it.

use crate::digits::{le_bytes, le_value};
use bytes::{Buf, BufMut};
use vstd::prelude::*;

verus! {

/// `BufMut::put_uint_le` on a `Vec<u8>`: appends the `nbytes` low bytes of
/// `n`, least significant byte first. It panics for more than eight bytes.
#[verifier::external_body]
pub(crate) fn put_uint_le(dest: &mut Vec<u8>, n: u64, nbytes: usize)
    requires
        nbytes <= 8,
    ensures
        final(dest)@ == old(dest)@ + le_bytes(n as nat, nbytes as nat),
{
    dest.put_uint_le(n, nbytes)
}

/// `BufMut::put_uint_le` on the part of a mutable slice that starts at `at`:
/// overwrites `nbytes` bytes there with the low bytes of `n`, least
/// significant byte first, and leaves the rest as it was. It panics for more
/// than eight bytes and where the slice is too short.
#[verifier::external_body]
pub(crate) fn put_uint_le_at(dest: &mut [u8], at: usize, n: u64, nbytes: usize)
    requires
        nbytes <= 8,
        at + nbytes <= old(dest)@.len(),
    ensures
        final(dest)@ == old(dest)@.subrange(0, at as int) + le_bytes(n as nat, nbytes as nat)
            + old(dest)@.subrange(at + nbytes, old(dest)@.len() as int),
{
    let mut slot = &mut dest[at..];
    slot.put_uint_le(n, nbytes)
}

/// `Buf::get_uint_le` on a byte slice: the value of its first `nbytes` bytes,
/// least significant byte first, and the slice after them. It panics for
/// more than eight bytes and where the slice is too short.
#[verifier::external_body]
pub(crate) fn get_uint_le<'a>(src: &'a [u8], nbytes: usize) -> (r: (u64, &'a [u8]))
    requires
        nbytes <= 8,
        nbytes <= src@.len(),
    ensures
        r.0 == le_value(src@.subrange(0, nbytes as int)),
        r.1@ == src@.subrange(nbytes as int, src@.len() as int),
{
    let mut rest = src;
    let v = rest.get_uint_le(nbytes);
    (v, rest)
}

/// `Buf::advance` on a byte slice: the slice without its first `cnt` bytes.
/// It panics where the slice is shorter than that.
#[verifier::external_body]
pub(crate) fn advance<'a>(src: &'a [u8], cnt: usize) -> (rest: &'a [u8])
    requires
        cnt <= src@.len(),
    ensures
        rest@ == src@.subrange(cnt as int, src@.len() as int),
{
    let mut rest = src;
    rest.advance(cnt);
    rest
}

} // verus!
