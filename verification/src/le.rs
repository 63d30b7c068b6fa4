//! Little-endian field access shared by the two formats.

use vstd::prelude::*;

verus! {

use vstd::bytes::{spec_u32_from_le_bytes, spec_u32_to_le_bytes, u32_from_le_bytes, u32_to_le_bytes};
use vstd::slice::slice_subrange;

/// Reads the little-endian `u32` at `pos`.
pub(crate) fn read_u32_at(b: &[u8], pos: usize) -> (r: u32)
    requires
        pos + 4 <= b@.len(),
    ensures
        r == spec_u32_from_le_bytes(b@.subrange(pos as int, pos as int + 4)),
{
    let len: usize = b.len();
    assert(pos + 4 <= len);
    u32_from_le_bytes(slice_subrange(b, pos, pos + 4))
}

/// Appends the little-endian bytes of `v`.
pub(crate) fn push_u32_le(out: &mut Vec<u8>, v: u32)
    ensures
        final(out)@ == old(out)@ + spec_u32_to_le_bytes(v),
{
    let mut b = u32_to_le_bytes(v);
    out.append(&mut b);
}

} // verus!
