//! The byte strings that records are hashed over: integers with the least
//! significant byte first, and strings of bytes behind their length.

use vstd::prelude::*;
use crate::U256;
use crate::uint256::le_bytes;

verus! {

/// A 64-bit number as 8 bytes.
pub open spec fn enc_u64(x: u64) -> Seq<u8> {
    le_bytes(x as nat, 8)
}

/// A 128-bit number as 16 bytes.
pub open spec fn enc_u128(x: u128) -> Seq<u8> {
    le_bytes(x as nat, 16)
}

/// A 256-bit number as 32 bytes.
pub open spec fn enc_u256(x: U256) -> Seq<u8> {
    le_bytes(x.value(), 32)
}

/// A signed 64-bit number as 8 bytes, shifted by `2^63` so that the order of
/// the numbers is the order of the encoded values.
pub open spec fn enc_i64(x: i64) -> Seq<u8> {
    le_bytes((x + 0x8000_0000_0000_0000) as nat, 8)
}

/// A string of bytes, behind its length as a 64-bit number.
pub open spec fn enc_bytes(b: Seq<u8>) -> Seq<u8> {
    le_bytes(b.len(), 8) + b
}

/// Appends the `len` low bytes of `x`, least significant first.
pub fn put_uint(out: &mut Vec<u8>, x: u128, len: usize)
    ensures
        final(out)@ == old(out)@ + le_bytes(x as nat, len as nat),
{
    let mut rest: u128 = x;
    let mut i: usize = 0;
    proof {
        assert(out@ + le_bytes(rest as nat, len as nat) =~= old(out)@ + le_bytes(x as nat, len as nat));
    }
    while i < len
        invariant
            i <= len,
            out@ + le_bytes(rest as nat, (len - i) as nat) == old(out)@ + le_bytes(
                x as nat,
                len as nat,
            ),
        decreases len - i,
    {
        let ghost before = out@;
        out.push((rest % 256) as u8);
        proof {
            let tail = le_bytes((rest / 256) as nat, (len - i - 1) as nat);
            assert(le_bytes(rest as nat, (len - i) as nat) == seq![(rest % 256) as u8] + tail);
            assert(out@ + tail =~= before + (seq![(rest % 256) as u8] + tail));
        }
        rest = rest / 256;
        i += 1;
    }
    proof {
        assert(out@ + le_bytes(rest as nat, 0) =~= out@);
    }
}

/// Appends a 64-bit number.
pub fn put_u64(out: &mut Vec<u8>, x: u64)
    ensures
        final(out)@ == old(out)@ + enc_u64(x),
{
    put_uint(out, x as u128, 8);
}

/// Appends a 128-bit number.
pub fn put_u128(out: &mut Vec<u8>, x: u128)
    ensures
        final(out)@ == old(out)@ + enc_u128(x),
{
    put_uint(out, x, 16);
}

/// Appends a signed 64-bit number.
pub fn put_i64(out: &mut Vec<u8>, x: i64)
    ensures
        final(out)@ == old(out)@ + enc_i64(x),
{
    let shifted: i128 = (x as i128) + 0x8000_0000_0000_0000;
    put_uint(out, shifted as u128, 8);
}

/// Appends the bytes of a slice as they are.
pub fn put_raw(out: &mut Vec<u8>, bytes: &[u8])
    ensures
        final(out)@ == old(out)@ + bytes@,
{
    let mut i: usize = 0;
    proof {
        assert(out@ =~= old(out)@ + bytes@.take(0));
    }
    while i < bytes.len()
        invariant
            i <= bytes@.len(),
            out@ == old(out)@ + bytes@.take(i as int),
        decreases bytes@.len() - i,
    {
        out.push(bytes[i]);
        proof {
            assert(out@ =~= old(out)@ + bytes@.take(i + 1));
        }
        i += 1;
    }
    proof {
        assert(bytes@.take(i as int) =~= bytes@);
    }
}

/// Appends a 256-bit number.
pub fn put_u256(out: &mut Vec<u8>, x: &U256)
    ensures
        final(out)@ == old(out)@ + enc_u256(*x),
{
    let bytes = x.to_little_endian();
    put_raw(out, bytes.as_slice());
}

/// Appends a string of bytes behind its length.
pub fn put_bytes(out: &mut Vec<u8>, bytes: &[u8])
    ensures
        final(out)@ == old(out)@ + enc_bytes(bytes@),
{
    put_uint(out, bytes.len() as u128, 8);
    put_raw(out, bytes);
    proof {
        assert(out@ =~= old(out)@ + enc_bytes(bytes@));
    }
}

} // verus!
