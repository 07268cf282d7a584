//! The two-byte little-endian code of the quantized outcome value and of each
//! quantized policy probability.

use vstd::prelude::*;
use crate::action::DecodeError;

verus! {

/// The two little-endian bytes of a 16-bit code.
pub open spec fn value_bytes(v: u16) -> Seq<u8> {
    seq![(v & 0xff) as u8, (v >> 8u16) as u8]
}

/// What decoding a 16-bit code at byte `i` yields.
pub open spec fn dec_value(bytes: Seq<u8>, i: int) -> Option<(u16, int)> {
    if i < 0 || i + 2 > bytes.len() {
        None
    } else {
        Some(((bytes[i] as u16) | ((bytes[i + 1] as u16) << 8u16), i + 2))
    }
}

/// Round trip of the 16-bit code: wherever its two bytes stand in a stream,
/// decoding there gives the code back.
pub proof fn lemma_value_round_trip(bytes: Seq<u8>, i: int, v: u16)
    requires
        0 <= i,
        i + 2 <= bytes.len(),
        bytes.subrange(i, i + 2) == value_bytes(v),
    ensures
        dec_value(bytes, i) == Some((v, i + 2)),
{
    assert(bytes[i + 0] == bytes.subrange(i, i + 2)[0]);
    assert(bytes[i + 1] == bytes.subrange(i, i + 2)[1]);
    assert(bytes[i] == (v & 0xff) as u8);
    assert(bytes[i + 1] == (v >> 8u16) as u8);
    assert((((v & 0xff) as u8) as u16) | ((((v >> 8u16) as u8) as u16) << 8u16) == v)
        by (bit_vector);
}

/// Appends the two little-endian bytes of a 16-bit code.
pub fn write_value(out: &mut Vec<u8>, v: u16)
    ensures
        final(out)@ == old(out)@ + value_bytes(v),
{
    out.push((v & 0xff) as u8);
    out.push((v >> 8u16) as u8);
    assert(out@ =~= old(out)@ + value_bytes(v));
}

/// Reads a 16-bit code at `*pos`, advancing `*pos` past it. Fails on a
/// truncated stream.
pub fn read_value(bytes: &Vec<u8>, pos: &mut usize) -> (r: Result<u16, DecodeError>)
    requires
        *old(pos) <= bytes@.len(),
    ensures
        *old(pos) <= *final(pos) <= bytes@.len(),
        match r {
            Ok(v) => dec_value(bytes@, *old(pos) as int) == Some((v, *final(pos) as int)),
            Err(e) => {
                &&& dec_value(bytes@, *old(pos) as int) == None::<(u16, int)>
                &&& e == DecodeError::Truncated
                &&& *final(pos) == *old(pos)
            },
        },
{
    if bytes.len() - *pos < 2 {
        return Err(DecodeError::Truncated);
    }
    let lo = bytes[*pos];
    let hi = bytes[*pos + 1];
    *pos = *pos + 2;
    Ok((lo as u16) | ((hi as u16) << 8u16))
}

} // verus!
