//! Bit fields inside a 64-bit word.

use vstd::prelude::*;

verus! {

/// The field of `word` that starts at bit `lo` and has the (right-aligned)
/// mask `mask`.
pub open spec fn field_get(word: u64, lo: u64, mask: u64) -> u64 {
    (word >> lo) & mask
}

/// `word` with that field replaced by the low bits of `v`.
pub open spec fn field_set(word: u64, lo: u64, mask: u64, v: u64) -> u64 {
    (word & !(mask << lo)) | ((v & mask) << lo)
}

/// Reads a field.
pub fn get_field(word: u64, lo: u64, mask: u64) -> (r: u64)
    requires
        lo < 64,
    ensures
        r == field_get(word, lo, mask),
        r <= mask,
{
    let r: u64 = (word >> lo) & mask;
    assert(((word >> lo) & mask) <= mask) by (bit_vector);
    r
}

/// Stores the low bits of `v` into a field.
pub fn set_field(word: u64, lo: u64, mask: u64, v: u64) -> (r: u64)
    requires
        lo < 64,
    ensures
        r == field_set(word, lo, mask, v),
{
    (word & !(mask << lo)) | ((v & mask) << lo)
}

} // verus!
