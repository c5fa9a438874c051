//! SHA-256 digests rendered as strings of binary digits.
use crate::manipulations::{bit_of, bits_of};
use sha2::Digest;
use vstd::prelude::*;
use vstd::string::StringExecFns;

verus! {

/// The SHA-256 digest of `data`.
pub uninterp spec fn sha256_of(data: Seq<u8>) -> Seq<u8>;

/// Relies on `sha2::Sha256::digest`: the SHA-256 digest of `data`, whose
/// output type holds exactly 32 bytes.
#[verifier::external_body]
fn sha256(data: &[u8]) -> (r: Vec<u8>)
    ensures
        r@ == sha256_of(data@),
        r@.len() == 32,
{
    sha2::Sha256::digest(data).to_vec()
}

/// The character that stands for a binary digit.
pub open spec fn digit_char(bit: u8) -> char {
    if bit == 0 {
        '0'
    } else {
        '1'
    }
}

/// `bytes` written in binary: eight digits per byte, most significant first.
pub open spec fn binary_digits(bytes: Seq<u8>) -> Seq<char> {
    bits_of(bytes).map_values(|bit: u8| digit_char(bit))
}

/// The binary rendering of the SHA-256 digest of `data`.
pub open spec fn digest_of(data: Seq<u8>) -> Seq<char> {
    binary_digits(sha256_of(data))
}

/// Writes `bytes` in binary, eight digits per byte, most significant first.
pub fn to_binary_string(bytes: &[u8]) -> (r: String)
    requires
        8 * bytes@.len() <= usize::MAX,
    ensures
        r@ == binary_digits(bytes@),
{
    let n = bytes.len();
    let mut out = String::new();
    let mut j: usize = 0;
    while j < n
        invariant
            n == bytes@.len(),
            8 * n <= usize::MAX,
            j <= n,
            out@.len() == 8 * j,
            forall|k: int| 0 <= k < 8 * j ==> #[trigger] out@[k] == digit_char(bit_of(bytes@[k / 8], k % 8)),
        decreases n - j,
    {
        let byte = bytes[j];
        let mut i: usize = 0;
        while i < 8
            invariant
                n == bytes@.len(),
                j < n,
                byte == bytes@[j as int],
                i <= 8,
                out@.len() == 8 * j + i,
                forall|k: int| 0 <= k < 8 * j + i ==> #[trigger] out@[k] == digit_char(bit_of(bytes@[k / 8], k % 8)),
            decreases 8 - i,
        {
            let shift: u8 = 7 - i as u8;
            let bit: u8 = (byte >> shift) & 1;
            proof {
                reveal_strlit("0");
                reveal_strlit("1");
            }
            if bit == 0 {
                out.append("0");
            } else {
                out.append("1");
            }
            assert(out@.last() == digit_char(bit_of(byte, i as int)));
            i = i + 1;
        }
        j = j + 1;
    }
    assert(out@ =~= binary_digits(bytes@));
    out
}

/// The SHA-256 digest of `data`, written in binary (256 digits).
pub fn binary_digest(data: &[u8]) -> (r: String)
    ensures
        r@ == digest_of(data@),
        r@.len() == 256,
{
    let d = sha256(data);
    to_binary_string(d.as_slice())
}

} // verus!
