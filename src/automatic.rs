//! The full scan: one trial per bit position of a message, and the summary
//! of the differences that the trials find.
use crate::digest::{binary_digest, digest_of};
use crate::manipulations::{
    bits_of, bits_to_bytes, bytes_of, flipped, is_bit_seq, lemma_flipped_is_bit_seq, str_to_bits,
};
use crate::reverse;
use crate::statistics::{diff_mismatches, lemma_mismatches_at_most_length, percent_difference};
use rayon::iter::{IndexedParallelIterator, IntoParallelIterator, ParallelIterator};
use vstd::prelude::*;
use vstd::string::StringSliceAdditionalSpecFns;

verus! {

/// Number of digest positions that change when the bit at `idx` (counted
/// from the end) of `bits` is flipped, measured against `baseline`.
pub open spec fn trial_result(bits: Seq<u8>, baseline: Seq<char>, idx: int) -> nat {
    diff_mismatches(baseline, digest_of(bytes_of(flipped(bits, idx))))
}

/// The trial results for every bit position of the message `bytes`, in
/// order of bit index.
pub open spec fn scan_results(bytes: Seq<u8>) -> Seq<usize> {
    Seq::new(
        bits_of(bytes).len(),
        |i: int| trial_result(bits_of(bytes), digest_of(bytes), i) as usize,
    )
}

/// Runs one trial: flips the bit at `idx` (counted from the end) of `bits`,
/// packs the result into bytes, hashes them and counts the digest positions
/// that differ from `baseline`.
pub fn trial(bits: &Vec<u8>, baseline: &str, idx: usize) -> (r: usize)
    requires
        is_bit_seq(bits@),
        idx < bits@.len(),
    ensures
        r == trial_result(bits@, baseline@, idx as int),
{
    let changed_bits = reverse::reverse_bit(bits, idx);
    proof {
        lemma_flipped_is_bit_seq(bits@, idx as int);
    }
    let changed_bytes = bits_to_bytes(&changed_bits);
    let changed = binary_digest(changed_bytes.as_slice());
    let diff = percent_difference(baseline, changed.as_str());
    diff.mismatches
}

/// Relies on rayon's `collect_into_vec` over the indexed parallel range
/// `0..n`: the result holds one item per index, in index order. Each item is
/// computed by `trial`.
#[verifier::external_body]
fn run_trials(bits: &Vec<u8>, baseline: &String, n: usize) -> (r: Vec<usize>)
    requires
        is_bit_seq(bits@),
        n == bits@.len(),
    ensures
        r@.len() == n,
        forall|i: int| 0 <= i < n ==> #[trigger] r@[i] == trial_result(bits@, baseline@, i),
{
    let mut out = Vec::new();
    (0..n).into_par_iter().map(|i| trial(bits, baseline.as_str(), i)).collect_into_vec(&mut out);
    out
}

/// Sum of a sequence of counts.
pub open spec fn seq_sum(s: Seq<usize>) -> nat
    decreases s.len(),
{
    if s.len() == 0 {
        0
    } else {
        seq_sum(s.drop_last()) + s.last() as nat
    }
}

/// Summary of the trials of a full scan, in numbers of differing digest
/// positions. The average is `total / trials`; a share of the digest is a
/// count divided by `positions`. A scan without trials reports zeros.
#[derive(Debug, Clone, Copy, PartialEq, Eq, Structural)]
pub struct Statistics {
    /// Number of trials.
    pub trials: usize,
    /// Number of positions of each compared digest.
    pub positions: usize,
    /// Fewest differing positions in one trial.
    pub min: usize,
    /// Most differing positions in one trial.
    pub max: usize,
    /// Differing positions over all trials.
    pub total: u128,
}

/// `st` summarizes `samples`, each taken over `positions` digest positions.
pub open spec fn is_summary_of(st: Statistics, samples: Seq<usize>, positions: usize) -> bool {
    &&& st.trials == samples.len()
    &&& st.positions == positions
    &&& st.total == seq_sum(samples)
    &&& samples.len() == 0 ==> st.min == 0 && st.max == 0
    &&& samples.len() > 0 ==> {
        &&& forall|i: int| 0 <= i < samples.len() ==> st.min <= #[trigger] samples[i] <= st.max
        &&& exists|i: int| 0 <= i < samples.len() && #[trigger] samples[i] == st.min
        &&& exists|i: int| 0 <= i < samples.len() && #[trigger] samples[i] == st.max
    }
}

proof fn lemma_sum_bounds(s: Seq<usize>, lo: int, hi: int)
    requires
        forall|i: int| 0 <= i < s.len() ==> lo <= #[trigger] s[i] <= hi,
    ensures
        lo * s.len() <= seq_sum(s) <= hi * s.len(),
    decreases s.len(),
{
    if s.len() > 0 {
        let init = s.drop_last();
        assert forall|i: int| 0 <= i < init.len() implies lo <= #[trigger] init[i] <= hi by {
            assert(init[i] == s[i]);
        }
        lemma_sum_bounds(init, lo, hi);
        let n = init.len() as int;
        assert(lo * (n + 1) == lo * n + lo) by (nonlinear_arith);
        assert(hi * (n + 1) == hi * n + hi) by (nonlinear_arith);
        assert(s[n] == s.last());
    }
}

/// The average of the trials lies between the fewest and the most
/// differing positions: `min * trials <= total <= max * trials`.
pub proof fn lemma_average_within_bounds(st: Statistics, samples: Seq<usize>, positions: usize)
    requires
        is_summary_of(st, samples, positions),
    ensures
        st.min * st.trials <= st.total <= st.max * st.trials,
        st.min <= st.max,
{
    if samples.len() > 0 {
        lemma_sum_bounds(samples, st.min as int, st.max as int);
        assert(st.min <= samples[0] <= st.max);
    }
}

/// Summarizes trial results, each a number of differing positions out of
/// `positions`: their count, least and greatest value and sum. Without
/// samples every figure is zero.
pub fn summarize(samples: &Vec<usize>, positions: usize) -> (st: Statistics)
    ensures
        is_summary_of(st, samples@, positions),
{
    let n = samples.len();
    if n == 0 {
        return Statistics { trials: 0, positions, min: 0, max: 0, total: 0 };
    }
    let mut min = samples[0];
    let mut max = samples[0];
    let mut total: u128 = 0;
    let mut i: usize = 0;
    while i < n
        invariant
            n == samples@.len(),
            n > 0,
            i <= n,
            total == seq_sum(samples@.take(i as int)),
            total <= i * usize::MAX,
            forall|k: int| 0 <= k < i ==> min <= #[trigger] samples@[k] <= max,
            exists|k: int| 0 <= k < n && #[trigger] samples@[k] == min,
            exists|k: int| 0 <= k < n && #[trigger] samples@[k] == max,
            i == 0 ==> min == samples@[0] && max == samples@[0],
        decreases n - i,
    {
        let x = samples[i];
        assert(samples@.take(i as int + 1).drop_last() =~= samples@.take(i as int));
        proof {
            let k = i as int;
            let m = usize::MAX as int;
            assert(k * m + m == (k + 1) * m) by (nonlinear_arith);
            assert((k + 1) * m <= m * m) by (nonlinear_arith)
                requires
                    k < m,
                    0 <= m,
            ;
            assert(m * m <= u64::MAX * u64::MAX) by (nonlinear_arith)
                requires
                    0 <= m <= u64::MAX,
            ;
        }
        total = total + x as u128;
        if x < min {
            min = x;
        }
        if x > max {
            max = x;
        }
        i = i + 1;
    }
    assert(samples@.take(n as int) =~= samples@);
    Statistics { trials: n, positions, min, max, total }
}

/// Number of positions of a binary SHA-256 digest.
pub const DIGEST_POSITIONS: usize = 256;

/// Runs one trial for every bit position of `text`, in parallel, and returns
/// their results in order of bit index.
pub fn trial_samples(text: &str) -> (r: Vec<usize>)
    requires
        8 * text.spec_bytes().len() <= usize::MAX,
    ensures
        r@ == scan_results(text.spec_bytes()),
        r@.len() == 8 * text.spec_bytes().len(),
        forall|i: int| 0 <= i < r@.len() ==> #[trigger] r@[i] <= DIGEST_POSITIONS,
{
    let baseline = binary_digest(text.as_bytes());
    let bits = str_to_bits(text);
    let samples = run_trials(&bits, &baseline, bits.len());
    assert forall|i: int| 0 <= i < samples@.len() implies #[trigger] samples@[i] <= DIGEST_POSITIONS by {
        lemma_mismatches_at_most_length(
            baseline@,
            digest_of(bytes_of(flipped(bits@, i))),
        );
    }
    assert(samples@ =~= scan_results(text.spec_bytes()));
    samples
}

/// The full scan of `text`: one trial per bit position, summarized. The
/// number of trials is eight times the byte length of `text`; empty text
/// gives a summary of zeros.
pub fn scan(text: &str) -> (st: Statistics)
    requires
        8 * text.spec_bytes().len() <= usize::MAX,
    ensures
        st.trials == 8 * text.spec_bytes().len(),
        is_summary_of(st, scan_results(text.spec_bytes()), DIGEST_POSITIONS),
{
    let samples = trial_samples(text);
    summarize(&samples, DIGEST_POSITIONS)
}

} // verus!
