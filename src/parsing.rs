use vstd::prelude::*;

use crate::error::OfError;

verus! {

/// The 32-bit value of the four bytes of `b` starting at `off`, most significant first.
pub open spec fn be_u32_of(b: Seq<u8>, off: int) -> u32 {
    (b[off] as int * 0x1000000 + b[off + 1] as int * 0x10000 + b[off + 2] as int * 0x100
        + b[off + 3] as int) as u32
}

/// Decodes the big-endian 32-bit cell that starts at byte `offset` of `bytes`.
pub fn be_u32_at(bytes: &[u8], offset: usize) -> (r: Result<u32, OfError>)
    ensures
        r is Ok <==> offset + 4 <= bytes@.len(),
        r is Ok ==> r->Ok_0 == be_u32_of(bytes@, offset as int),
        r is Err ==> r->Err_0 == OfError::InsufficientBytes,
{
    if offset > bytes.len() || bytes.len() - offset < 4 {
        return Err(OfError::InsufficientBytes);
    }
    let b0 = bytes[offset] as u32;
    let b1 = bytes[offset + 1] as u32;
    let b2 = bytes[offset + 2] as u32;
    let b3 = bytes[offset + 3] as u32;
    Ok(b0 * 0x1000000 + b1 * 0x10000 + b2 * 0x100 + b3)
}

/// The `index`-th 32-bit cell of a property value, or `None` when the value
/// is too short to hold it.
pub fn read_u32_cell(value: &[u8], index: usize) -> (r: Option<u32>)
    ensures
        r is Some <==> 4 * index + 4 <= value@.len(),
        r is Some ==> r->0 == be_u32_of(value@, 4 * index),
{
    if index > value.len() / 4 {
        return None;
    }
    match be_u32_at(value, 4 * index) {
        Ok(v) => Some(v),
        Err(_) => None,
    }
}

} // verus!
