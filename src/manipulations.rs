//! Conversions between bytes and explicit bit sequences, and single-bit flips.
use vstd::prelude::*;
use vstd::arithmetic::power2::{lemma2_to64, lemma_pow2_unfold, pow2};
use vstd::string::StringSliceAdditionalSpecFns;

verus! {

/// Bit `k` (counted from the most significant one, `0 <= k < 8`) of `b`.
pub open spec fn bit_of(b: u8, k: int) -> u8 {
    (b >> ((7 - k) as u8)) & 1u8
}

/// The bits of `bytes`, eight per byte, most significant bit first.
pub open spec fn bits_of(bytes: Seq<u8>) -> Seq<u8> {
    Seq::new(8 * bytes.len(), |k: int| bit_of(bytes[k / 8], k % 8))
}

/// Every element of `bits` is a binary digit.
pub open spec fn is_bit_seq(bits: Seq<u8>) -> bool {
    forall|i: int| 0 <= i < bits.len() ==> #[trigger] bits[i] <= 1
}

/// Expands the UTF-8 encoding of `input` into its bits, most significant
/// bit of each byte first.
pub fn str_to_bits(input: &str) -> (r: Vec<u8>)
    requires
        8 * input.spec_bytes().len() <= usize::MAX,
    ensures
        r@ == bits_of(input.spec_bytes()),
        is_bit_seq(r@),
{
    let bytes = input.as_bytes();
    let n = bytes.len();
    let mut result: Vec<u8> = Vec::with_capacity(n * 8);
    let mut j: usize = 0;
    while j < n
        invariant
            n == bytes@.len(),
            bytes@ == input.spec_bytes(),
            8 * n <= usize::MAX,
            j <= n,
            result@.len() == 8 * j,
            forall|k: int| 0 <= k < 8 * j ==> #[trigger] result@[k] == bit_of(bytes@[k / 8], k % 8),
            is_bit_seq(result@),
        decreases n - j,
    {
        let byte = bytes[j];
        let mut i: usize = 0;
        while i < 8
            invariant
                n == bytes@.len(),
                j < n,
                byte == bytes@[j as int],
                i <= 8,
                result@.len() == 8 * j + i,
                forall|k: int| 0 <= k < 8 * j + i ==> #[trigger] result@[k] == bit_of(bytes@[k / 8], k % 8),
                is_bit_seq(result@),
            decreases 8 - i,
        {
            let shift: u8 = 7 - i as u8;
            let bit: u8 = (byte >> shift) & 1;
            assert(bit <= 1) by (bit_vector)
                requires
                    bit == (byte >> shift) & 1,
            ;
            result.push(bit);
            i = i + 1;
        }
        j = j + 1;
    }
    assert(result@ =~= bits_of(input.spec_bytes()));
    result
}

/// `bits` read as a binary number, most significant digit first.
pub open spec fn bits_value(bits: Seq<u8>) -> nat
    decreases bits.len(),
{
    if bits.len() == 0 {
        0
    } else {
        2 * bits_value(bits.drop_last()) + bits.last() as nat
    }
}

/// A group of at most eight bits, extended with zero bits to eight.
pub open spec fn pad_group(group: Seq<u8>) -> Seq<u8> {
    group + Seq::new((8 - group.len()) as nat, |i: int| 0u8)
}

/// The byte whose bits, most significant first, are `group` padded with zeros.
pub open spec fn pack_group(group: Seq<u8>) -> u8 {
    bits_value(pad_group(group)) as u8
}

/// The `j`-th group of eight bits; the last one may be shorter.
pub open spec fn group_at(bits: Seq<u8>, j: int) -> Seq<u8> {
    let end = if 8 * j + 8 <= bits.len() { 8 * j + 8 } else { bits.len() as int };
    bits.subrange(8 * j, end)
}

/// The bytes packed from `bits`, eight bits per byte, most significant first,
/// with a short last group padded with zero bits.
pub open spec fn bytes_of(bits: Seq<u8>) -> Seq<u8> {
    Seq::new(((bits.len() + 7) / 8) as nat, |j: int| pack_group(group_at(bits, j)))
}

proof fn lemma_bits_value_bound(bits: Seq<u8>)
    requires
        is_bit_seq(bits),
    ensures
        bits_value(bits) < pow2(bits.len()),
    decreases bits.len(),
{
    if bits.len() == 0 {
        lemma2_to64();
    } else {
        let init = bits.drop_last();
        assert(is_bit_seq(init)) by {
            assert forall|i: int| 0 <= i < init.len() implies #[trigger] init[i] <= 1 by {
                assert(init[i] == bits[i]);
            }
        }
        lemma_bits_value_bound(init);
        lemma_pow2_unfold(bits.len());
    }
}

/// Packs a bit sequence into bytes, eight bits per byte, most significant bit
/// first; a trailing group shorter than eight bits is padded with zero bits
/// on the low end.
pub fn bits_to_bytes(bits: &Vec<u8>) -> (r: Vec<u8>)
    requires
        is_bit_seq(bits@),
    ensures
        r@ == bytes_of(bits@),
{
    let n = bits.len();
    let count: usize = n / 8 + if n % 8 == 0 { 0 } else { 1 };
    let mut result: Vec<u8> = Vec::with_capacity(count);
    let mut j: usize = 0;
    while j < count
        invariant
            n == bits@.len(),
            count == (n + 7) / 8,
            is_bit_seq(bits@),
            j <= count,
            result@.len() == j,
            forall|t: int| 0 <= t < j ==> #[trigger] result@[t] == pack_group(group_at(bits@, t)),
        decreases count - j,
    {
        let ghost group = group_at(bits@, j as int);
        let ghost padded = pad_group(group);
        let base: usize = 8 * j;
        let mut acc: u8 = 0;
        let mut i: usize = 0;
        proof {
            lemma2_to64();
        }
        while i < 8
            invariant
                n == bits@.len(),
                j < count,
                count == (n + 7) / 8,
                base == 8 * j,
                is_bit_seq(bits@),
                group == group_at(bits@, j as int),
                padded == pad_group(group),
                padded.len() == 8,
                i <= 8,
                acc as nat == bits_value(padded.take(i as int)),
                acc < pow2(i as nat),
            decreases 8 - i,
        {
            let b: u8 = if base + i < n { bits[base + i] } else { 0 };
            assert(b == padded[i as int]);
            assert(padded.take(i as int + 1).drop_last() =~= padded.take(i as int));
            proof {
                lemma2_to64();
                lemma_pow2_unfold(i as nat + 1);
            }
            acc = acc * 2 + b;
            i = i + 1;
        }
        assert(padded.take(8) =~= padded);
        result.push(acc);
        j = j + 1;
    }
    assert(result@ =~= bytes_of(bits@));
    result
}

/// Why a bit cannot be flipped.
#[derive(Debug, Clone, Copy, PartialEq, Eq, Structural)]
pub enum FlipError {
    /// The index is not below the length of the bit sequence.
    IndexOutOfRange,
}

/// Position in `bits` of the bit at `idx`, counted from the end (index 0 is
/// the last bit).
pub open spec fn position_from_end(bits: Seq<u8>, idx: int) -> int {
    bits.len() - 1 - idx
}

/// `bits` with the bit at `idx`, counted from the end, inverted.
pub open spec fn flipped(bits: Seq<u8>, idx: int) -> Seq<u8> {
    let pos = position_from_end(bits, idx);
    bits.update(pos, (1 - bits[pos]) as u8)
}

/// Flips the bit whose position counted from the end of `input` is
/// `bit_idx` (index 0 is the last bit). An index that is not below the
/// length is refused.
pub fn reverse_bit(input: &Vec<u8>, bit_idx: usize) -> (r: Result<Vec<u8>, FlipError>)
    requires
        is_bit_seq(input@),
    ensures
        bit_idx < input@.len() ==> (r matches Ok(v) && v@ == flipped(input@, bit_idx as int)),
        bit_idx >= input@.len() ==> r == Err::<Vec<u8>, FlipError>(FlipError::IndexOutOfRange),
{
    if bit_idx >= input.len() {
        return Err(FlipError::IndexOutOfRange);
    }
    let mut res = input.clone();
    assert(res@ =~= input@);
    let pos = input.len() - bit_idx - 1;
    let b = res[pos];
    res.set(pos, 1 - b);
    assert(res@ =~= flipped(input@, bit_idx as int));
    Ok(res)
}

/// Flipping keeps a sequence binary.
pub proof fn lemma_flipped_is_bit_seq(bits: Seq<u8>, idx: int)
    requires
        is_bit_seq(bits),
        0 <= idx < bits.len(),
    ensures
        is_bit_seq(flipped(bits, idx)),
        flipped(bits, idx).len() == bits.len(),
{
}

/// Flipping the same bit twice gives back the original sequence.
pub proof fn lemma_flip_involution(bits: Seq<u8>, idx: int)
    requires
        is_bit_seq(bits),
        0 <= idx < bits.len(),
    ensures
        flipped(flipped(bits, idx), idx) == bits,
{
    assert(flipped(flipped(bits, idx), idx) =~= bits);
}

/// The value of eight binary digits, most significant first.
proof fn lemma_bits_value_of_eight(g: Seq<u8>)
    requires
        g.len() == 8,
    ensures
        bits_value(g) == 128 * g[0] + 64 * g[1] + 32 * g[2] + 16 * g[3] + 8 * g[4] + 4 * g[5] + 2
            * g[6] + g[7],
{
    assert forall|i: int| 0 <= i < 8 implies #[trigger] g.take(i + 1).drop_last() == g.take(i) by {
        assert(g.take(i + 1).drop_last() =~= g.take(i));
    }
    assert(g.take(0).len() == 0);
    assert(g.take(1).drop_last() == g.take(0));
    assert(bits_value(g.take(1)) == 2 * bits_value(g.take(0)) + g[0]);
    assert(g.take(2).drop_last() == g.take(1));
    assert(bits_value(g.take(2)) == 2 * bits_value(g.take(1)) + g[1]);
    assert(g.take(3).drop_last() == g.take(2));
    assert(bits_value(g.take(3)) == 2 * bits_value(g.take(2)) + g[2]);
    assert(g.take(4).drop_last() == g.take(3));
    assert(bits_value(g.take(4)) == 2 * bits_value(g.take(3)) + g[3]);
    assert(g.take(5).drop_last() == g.take(4));
    assert(bits_value(g.take(5)) == 2 * bits_value(g.take(4)) + g[4]);
    assert(g.take(6).drop_last() == g.take(5));
    assert(bits_value(g.take(6)) == 2 * bits_value(g.take(5)) + g[5]);
    assert(g.take(7).drop_last() == g.take(6));
    assert(bits_value(g.take(7)) == 2 * bits_value(g.take(6)) + g[6]);
    assert(g.take(8).drop_last() == g.take(7));
    assert(bits_value(g.take(8)) == 2 * bits_value(g.take(7)) + g[7]);
    assert(g.take(8) =~= g);
}

proof fn lemma_unpack_eight(v: u8, g0: u8, g1: u8, g2: u8, g3: u8, g4: u8, g5: u8, g6: u8, g7: u8)
    by (bit_vector)
    requires
        g0 <= 1 && g1 <= 1 && g2 <= 1 && g3 <= 1 && g4 <= 1 && g5 <= 1 && g6 <= 1 && g7 <= 1,
        v == 128 * g0 + 64 * g1 + 32 * g2 + 16 * g3 + 8 * g4 + 4 * g5 + 2 * g6 + g7,
    ensures
        (v >> 7u8) & 1u8 == g0,
        (v >> 6u8) & 1u8 == g1,
        (v >> 5u8) & 1u8 == g2,
        (v >> 4u8) & 1u8 == g3,
        (v >> 3u8) & 1u8 == g4,
        (v >> 2u8) & 1u8 == g5,
        (v >> 1u8) & 1u8 == g6,
        (v >> 0u8) & 1u8 == g7,
{
}

/// Unpacking the byte packed from eight binary digits gives them back.
proof fn lemma_group_round_trip(g: Seq<u8>)
    requires
        g.len() == 8,
        is_bit_seq(g),
    ensures
        forall|m: int| 0 <= m < 8 ==> #[trigger] bit_of(pack_group(g), m) == g[m],
{
    assert(pad_group(g) =~= g);
    lemma_bits_value_of_eight(g);
    let v = pack_group(g);
    assert(g[0] <= 1 && g[1] <= 1 && g[2] <= 1 && g[3] <= 1);
    assert(g[4] <= 1 && g[5] <= 1 && g[6] <= 1 && g[7] <= 1);
    lemma_unpack_eight(v, g[0], g[1], g[2], g[3], g[4], g[5], g[6], g[7]);
}

/// For a byte-aligned bit sequence, unpacking the packed bytes gives the
/// sequence back.
pub proof fn lemma_bits_bytes_round_trip(bits: Seq<u8>)
    requires
        is_bit_seq(bits),
        bits.len() % 8 == 0,
    ensures
        bits_of(bytes_of(bits)) == bits,
{
    let bytes = bytes_of(bits);
    assert(bits_of(bytes).len() == bits.len());
    assert forall|k: int| 0 <= k < bits.len() implies #[trigger] bits_of(bytes)[k] == bits[k] by {
        let j = k / 8;
        let g = group_at(bits, j);
        assert(g =~= bits.subrange(8 * j, 8 * j + 8));
        assert(is_bit_seq(g)) by {
            assert forall|i: int| 0 <= i < g.len() implies #[trigger] g[i] <= 1 by {
                assert(g[i] == bits[8 * j + i]);
            }
        }
        lemma_group_round_trip(g);
        assert(bit_of(pack_group(g), k % 8) == g[k % 8]);
        assert(g[k % 8] == bits[k]);
    }
    assert(bits_of(bytes) =~= bits);
}

proof fn lemma_pack_eight(b: u8)
    by (bit_vector)
    ensures
        b == 128 * ((b >> 7u8) & 1u8) + 64 * ((b >> 6u8) & 1u8) + 32 * ((b >> 5u8) & 1u8) + 16 * ((
        b >> 4u8) & 1u8) + 8 * ((b >> 3u8) & 1u8) + 4 * ((b >> 2u8) & 1u8) + 2 * ((b >> 1u8) & 1u8)
            + ((b >> 0u8) & 1u8),
{
}

/// Packing the bits of a byte sequence gives the bytes back.
pub proof fn lemma_bytes_bits_round_trip(bytes: Seq<u8>)
    ensures
        bytes_of(bits_of(bytes)) == bytes,
{
    let bits = bits_of(bytes);
    assert(bytes_of(bits).len() == bytes.len());
    assert forall|j: int| 0 <= j < bytes.len() implies #[trigger] bytes_of(bits)[j] == bytes[j] by {
        let g = group_at(bits, j);
        let b = bytes[j];
        assert(g.len() == 8);
        assert forall|m: int| 0 <= m < 8 implies #[trigger] g[m] == bit_of(b, m) by {
            assert(g[m] == bits[8 * j + m]);
            assert((8 * j + m) / 8 == j);
            assert((8 * j + m) % 8 == m);
        }
        assert(pad_group(g) =~= g);
        lemma_bits_value_of_eight(g);
        lemma_pack_eight(b);
        assert(bit_of(b, 0) == (b >> 7u8) & 1u8);
        assert(bit_of(b, 7) == (b >> 0u8) & 1u8);
    }
    assert(bytes_of(bits) =~= bytes);
}

} // verus!
