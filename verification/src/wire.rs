//! Little-endian integer fields of the on-wire formats.

use vstd::prelude::*;

verus! {

/// The four little-endian bytes of a 32-bit value.
pub open spec fn le32_bytes(x: u32) -> Seq<u8> {
    seq![
        (x % 256) as u8,
        ((x / 256) % 256) as u8,
        ((x / 65536) % 256) as u8,
        ((x / 16777216) % 256) as u8,
    ]
}

/// The 32-bit value four little-endian bytes hold.
pub open spec fn le32_value(s: Seq<u8>) -> u32
    recommends
        s.len() == 4,
{
    (s[0] + s[1] * 256 + s[2] * 65536 + s[3] * 16777216) as u32
}

/// The eight little-endian bytes of a 64-bit value.
pub open spec fn le64_bytes(x: u64) -> Seq<u8> {
    seq![
        (x % 256) as u8,
        ((x / 256) % 256) as u8,
        ((x / 65536) % 256) as u8,
        ((x / 16777216) % 256) as u8,
        ((x / 4294967296) % 256) as u8,
        ((x / 1099511627776) % 256) as u8,
        ((x / 281474976710656) % 256) as u8,
        ((x / 72057594037927936) % 256) as u8,
    ]
}

/// The 64-bit value eight little-endian bytes hold.
pub open spec fn le64_value(s: Seq<u8>) -> u64
    recommends
        s.len() == 8,
{
    (s[0] + s[1] * 256 + s[2] * 65536 + s[3] * 16777216 + s[4] * 4294967296 + s[5]
        * 1099511627776 + s[6] * 281474976710656 + s[7] * 72057594037927936) as u64
}

/// Reading back the four bytes of a value gives the value.
pub proof fn lemma_le32_roundtrip(x: u32)
    ensures
        le32_value(le32_bytes(x)) == x,
{
    assert(((x % 256) as u8) + (((x / 256) % 256) as u8) * 256 + (((x / 65536) % 256) as u8)
        * 65536 + (((x / 16777216) % 256) as u8) * 16777216 == x) by (bit_vector);
}

/// Reading back the eight bytes of a value gives the value.
pub proof fn lemma_le64_roundtrip(x: u64)
    ensures
        le64_value(le64_bytes(x)) == x,
{
    assert(((x % 256) as u8) + (((x / 256) % 256) as u8) * 256 + (((x / 65536) % 256) as u8)
        * 65536 + (((x / 16777216) % 256) as u8) * 16777216 + (((x / 4294967296) % 256) as u8)
        * 4294967296 + (((x / 1099511627776) % 256) as u8) * 1099511627776 + (((x
        / 281474976710656) % 256) as u8) * 281474976710656 + (((x / 72057594037927936) % 256) as u8)
        * 72057594037927936 == x) by (bit_vector);
}

/// Appends the four little-endian bytes of `x`.
pub(crate) fn push_le32(out: &mut Vec<u8>, x: u32)
    ensures
        final(out)@ == old(out)@ + le32_bytes(x),
{
    out.push((x % 256) as u8);
    out.push(((x / 256) % 256) as u8);
    out.push(((x / 65536) % 256) as u8);
    out.push(((x / 16777216) % 256) as u8);
    proof {
        assert(out@ =~= old(out)@ + le32_bytes(x));
    }
}

/// Appends the eight little-endian bytes of `x`.
pub(crate) fn push_le64(out: &mut Vec<u8>, x: u64)
    ensures
        final(out)@ == old(out)@ + le64_bytes(x),
{
    out.push((x % 256) as u8);
    out.push(((x / 256) % 256) as u8);
    out.push(((x / 65536) % 256) as u8);
    out.push(((x / 16777216) % 256) as u8);
    out.push(((x / 4294967296) % 256) as u8);
    out.push(((x / 1099511627776) % 256) as u8);
    out.push(((x / 281474976710656) % 256) as u8);
    out.push(((x / 72057594037927936) % 256) as u8);
    proof {
        assert(out@ =~= old(out)@ + le64_bytes(x));
    }
}

/// Reads the 32-bit little-endian field at `pos`.
pub(crate) fn read_le32(s: &[u8], pos: usize) -> (x: u32)
    requires
        pos + 4 <= s@.len(),
    ensures
        x == le32_value(s@.subrange(pos as int, pos as int + 4)),
{
    let b0 = s[pos] as u32;
    let b1 = s[pos + 1] as u32;
    let b2 = s[pos + 2] as u32;
    let b3 = s[pos + 3] as u32;
    b0 + b1 * 256 + b2 * 65536 + b3 * 16777216
}

/// Reads the 64-bit little-endian field at `pos`.
pub(crate) fn read_le64(s: &[u8], pos: usize) -> (x: u64)
    requires
        pos + 8 <= s@.len(),
    ensures
        x == le64_value(s@.subrange(pos as int, pos as int + 8)),
{
    let b0 = s[pos] as u64;
    let b1 = s[pos + 1] as u64;
    let b2 = s[pos + 2] as u64;
    let b3 = s[pos + 3] as u64;
    let b4 = s[pos + 4] as u64;
    let b5 = s[pos + 5] as u64;
    let b6 = s[pos + 6] as u64;
    let b7 = s[pos + 7] as u64;
    b0 + b1 * 256 + b2 * 65536 + b3 * 16777216 + b4 * 4294967296 + b5 * 1099511627776 + b6
        * 281474976710656 + b7 * 72057594037927936
}

} // verus!
