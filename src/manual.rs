//! The single-flip analysis: flip one chosen bit of a message, or none, and
//! compare the digests of the original and the changed message.
use crate::digest::{binary_digest, digest_of};
use crate::manipulations::{
    bits_of, bits_to_bytes, bytes_of, flipped, lemma_bytes_bits_round_trip,
    lemma_flipped_is_bit_seq, reverse_bit, str_to_bits, FlipError,
};
use crate::statistics::{is_diff_of, lemma_compare_identical, percent_difference, DiffResult};
use vstd::prelude::*;
use vstd::string::StringSliceAdditionalSpecFns;

verus! {

/// The message whose digest a single-flip analysis compares with that of
/// `bytes`: its bits with the chosen one flipped, packed back into bytes.
pub open spec fn changed_message(bytes: Seq<u8>, bit_index: Option<usize>) -> Seq<u8> {
    match bit_index {
        Some(idx) => bytes_of(flipped(bits_of(bytes), idx as int)),
        None => bytes_of(bits_of(bytes)),
    }
}

/// Compares the digest of `text` with the digest of `text` after the bit at
/// `bit_index` (counted from the end of its bits) is flipped; with no index
/// nothing is flipped. An index that is not below the bit length is refused
/// before anything is hashed.
pub fn analyze_single_flip(text: &str, bit_index: Option<usize>) -> (r: Result<
    DiffResult,
    FlipError,
>)
    requires
        8 * text.spec_bytes().len() <= usize::MAX,
    ensures
        (bit_index matches Some(idx) && idx >= 8 * text.spec_bytes().len()) ==> r == Err::<
            DiffResult,
            FlipError,
        >(FlipError::IndexOutOfRange),
        !(bit_index matches Some(idx) && idx >= 8 * text.spec_bytes().len()) ==> (r matches Ok(d)
            && is_diff_of(
            d,
            digest_of(text.spec_bytes()),
            digest_of(changed_message(text.spec_bytes(), bit_index)),
        )),
        bit_index is None ==> (r matches Ok(d) && d.mismatches == 0),
{
    let bits = str_to_bits(text);
    let modified = match bit_index {
        Some(idx) => match reverse_bit(&bits, idx) {
            Ok(v) => {
                proof {
                    lemma_flipped_is_bit_seq(bits@, idx as int);
                }
                v
            },
            Err(e) => {
                return Err(e);
            },
        },
        None => bits,
    };
    let original = binary_digest(text.as_bytes());
    let changed_bytes = bits_to_bytes(&modified);
    let changed = binary_digest(changed_bytes.as_slice());
    let diff = percent_difference(original.as_str(), changed.as_str());
    proof {
        if bit_index is None {
            lemma_bytes_bits_round_trip(text.spec_bytes());
            lemma_compare_identical(original@, diff);
        }
    }
    Ok(diff)
}

/// Hashing the same message twice and comparing the digests finds no
/// difference.
pub proof fn lemma_same_message_same_digest(x: Seq<u8>, r: DiffResult)
    requires
        is_diff_of(r, digest_of(x), digest_of(x)),
    ensures
        r.mismatches == 0,
{
    lemma_compare_identical(digest_of(x), r);
}

} // verus!
