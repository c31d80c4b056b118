//! Little-endian field primitives shared by the shard and catalog codecs.
//!
//! Every on-disk integer of the store formats is little-endian; these
//! helpers read and write such fields against the byte-level
//! specifications from `vstd::bytes`.
use vstd::bytes::*;
use vstd::prelude::*;
use vstd::slice::*;

verus! {

/// Reads the `u8` at `pos`.
pub fn take_u8(b: &[u8], pos: usize) -> (r: u8)
    requires
        pos < b@.len(),
    ensures
        r == b@[pos as int],
{
    *slice_index_get(b, pos)
}

/// Reads the little-endian `u16` at `pos`.
pub fn take_u16(b: &[u8], pos: usize) -> (r: u16)
    requires
        pos + 2 <= b@.len(),
    ensures
        r == spec_u16_from_le_bytes(b@.subrange(pos as int, pos as int + 2)),
{
    let end = b.len();
    u16_from_le_bytes(slice_subrange(b, pos, pos + 2))
}

/// Reads the little-endian `u32` at `pos`.
pub fn take_u32(b: &[u8], pos: usize) -> (r: u32)
    requires
        pos + 4 <= b@.len(),
    ensures
        r == spec_u32_from_le_bytes(b@.subrange(pos as int, pos as int + 4)),
{
    let end = b.len();
    u32_from_le_bytes(slice_subrange(b, pos, pos + 4))
}

/// Reads the little-endian `u64` at `pos`.
pub fn take_u64(b: &[u8], pos: usize) -> (r: u64)
    requires
        pos + 8 <= b@.len(),
    ensures
        r == spec_u64_from_le_bytes(b@.subrange(pos as int, pos as int + 8)),
{
    let end = b.len();
    u64_from_le_bytes(slice_subrange(b, pos, pos + 8))
}

/// Copies the `n` bytes starting at `pos` into a fresh vector.
pub fn take_bytes(b: &[u8], pos: usize, n: usize) -> (r: Vec<u8>)
    requires
        pos + n <= b@.len(),
    ensures
        r@ == b@.subrange(pos as int, pos as int + n as int),
{
    let end = b.len();
    slice_to_vec(slice_subrange(b, pos, pos + n))
}

/// Appends the little-endian encoding of a `u16`.
pub fn push_u16(out: &mut Vec<u8>, x: u16)
    ensures
        final(out)@ == old(out)@ + spec_u16_to_le_bytes(x),
{
    let mut enc = u16_to_le_bytes(x);
    out.append(&mut enc);
}

/// Appends the little-endian encoding of a `u32`.
pub fn push_u32(out: &mut Vec<u8>, x: u32)
    ensures
        final(out)@ == old(out)@ + spec_u32_to_le_bytes(x),
{
    let mut enc = u32_to_le_bytes(x);
    out.append(&mut enc);
}

/// Appends the little-endian encoding of a `u64`.
pub fn push_u64(out: &mut Vec<u8>, x: u64)
    ensures
        final(out)@ == old(out)@ + spec_u64_to_le_bytes(x),
{
    let mut enc = u64_to_le_bytes(x);
    out.append(&mut enc);
}

/// Appends a single byte.
pub fn push_u8(out: &mut Vec<u8>, x: u8)
    ensures
        final(out)@ == old(out)@ + seq![x],
{
    out.push(x);
    proof {
        assert(out@ =~= old(out)@ + seq![x]);
    }
}

/// Appends a copy of the given bytes.
pub fn push_all(out: &mut Vec<u8>, data: &Vec<u8>)
    ensures
        final(out)@ == old(out)@ + data@,
{
    let mut copy = data.clone();
    out.append(&mut copy);
}

} // verus!
