//! Flipping a bit that is known to exist.
use crate::manipulations::{self, flipped, is_bit_seq};
use vstd::prelude::*;

verus! {

/// Flips the bit whose position counted from the end of `input` is
/// `bit_idx` (index 0 is the last bit); the index must be below the length.
pub fn reverse_bit(input: &Vec<u8>, bit_idx: usize) -> (r: Vec<u8>)
    requires
        is_bit_seq(input@),
        bit_idx < input@.len(),
    ensures
        r@ == flipped(input@, bit_idx as int),
{
    match manipulations::reverse_bit(input, bit_idx) {
        Ok(v) => v,
        Err(_) => input.clone(),
    }
}

} // verus!
