//! Position-by-position comparison of two digests.
use vstd::prelude::*;

verus! {

/// Whether the characters at one position of two compared strings agree.
#[derive(Debug, Clone, Copy, PartialEq, Eq, Structural)]
pub enum Classification {
    Match,
    Mismatch,
}

/// One character of a compared string with its classification.
#[derive(Debug, Clone, Copy, PartialEq, Eq, Structural)]
pub struct ClassifiedChar {
    pub ch: char,
    pub class: Classification,
}

/// The outcome of comparing two strings position by position.
///
/// The share of differing positions is `mismatches / total`; it is zero
/// when `total` is zero.
#[derive(Debug)]
pub struct DiffResult {
    /// Number of positions at which the two strings differ.
    pub mismatches: usize,
    /// Number of positions compared.
    pub total: usize,
    /// The characters of the first string, classified.
    pub original: Vec<ClassifiedChar>,
    /// The characters of the second string, classified.
    pub changed: Vec<ClassifiedChar>,
}

/// Number of positions below `n` at which `a` and `b` differ.
pub open spec fn mismatches_upto(a: Seq<char>, b: Seq<char>, n: int) -> nat
    decreases n,
{
    if n <= 0 {
        0
    } else {
        mismatches_upto(a, b, n - 1) + if a[n - 1] != b[n - 1] {
            1nat
        } else {
            0nat
        }
    }
}

/// Number of positions at which two equally long sequences differ.
pub open spec fn mismatch_count(a: Seq<char>, b: Seq<char>) -> nat {
    mismatches_upto(a, b, a.len() as int)
}

pub open spec fn class_of(x: char, y: char) -> Classification {
    if x == y {
        Classification::Match
    } else {
        Classification::Mismatch
    }
}

/// The character of `a` at `i`, classified against the one of `b` there.
pub open spec fn classify_at(a: Seq<char>, b: Seq<char>, i: int) -> ClassifiedChar {
    ClassifiedChar { ch: a[i], class: class_of(a[i], b[i]) }
}

/// The characters of `a`, each classified against the same position of `b`.
pub open spec fn classified(a: Seq<char>, b: Seq<char>) -> Seq<ClassifiedChar> {
    Seq::new(a.len(), |i: int| classify_at(a, b, i))
}

/// `r` is the comparison of `a` with `b`: position by position when the two
/// are equally long, and otherwise an empty result with nothing compared.
pub open spec fn is_diff_of(r: DiffResult, a: Seq<char>, b: Seq<char>) -> bool {
    if a.len() == b.len() {
        &&& r.total == a.len()
        &&& r.mismatches == mismatch_count(a, b)
        &&& r.original@ == classified(a, b)
        &&& r.changed@ == classified(b, a)
    } else {
        &&& r.total == 0
        &&& r.mismatches == 0
        &&& r.original@.len() == 0
        &&& r.changed@.len() == 0
    }
}

proof fn lemma_mismatches_upto_bound(a: Seq<char>, b: Seq<char>, n: int)
    requires
        0 <= n,
    ensures
        mismatches_upto(a, b, n) <= n,
    decreases n,
{
    if n > 0 {
        lemma_mismatches_upto_bound(a, b, n - 1);
    }
}

fn chars_of(s: &str) -> (r: Vec<char>)
    ensures
        r@ == s@,
{
    let mut out: Vec<char> = Vec::new();
    for c in it: s.chars()
        invariant
            out@ == it.seq().take(it.index() as int),
    {
        out.push(c);
    }
    assert(out@ =~= s@);
    out
}

/// Compares two strings position by position. Strings of different lengths
/// give an empty result in which nothing is compared.
pub fn percent_difference(s1: &str, s2: &str) -> (r: DiffResult)
    ensures
        is_diff_of(r, s1@, s2@),
        r.mismatches <= r.total,
{
    let chars1 = chars_of(s1);
    let chars2 = chars_of(s2);
    let n = chars1.len();
    if n != chars2.len() {
        return DiffResult { mismatches: 0, total: 0, original: Vec::new(), changed: Vec::new() };
    }
    let mut older: Vec<ClassifiedChar> = Vec::new();
    let mut newer: Vec<ClassifiedChar> = Vec::new();
    let mut diff_count: usize = 0;
    let mut i: usize = 0;
    while i < n
        invariant
            n == chars1@.len(),
            n == chars2@.len(),
            i <= n,
            diff_count == mismatches_upto(chars1@, chars2@, i as int),
            diff_count <= i,
            older@ == classified(chars1@, chars2@).take(i as int),
            newer@ == classified(chars2@, chars1@).take(i as int),
        decreases n - i,
    {
        let x = chars1[i];
        let y = chars2[i];
        if x != y {
            diff_count = diff_count + 1;
            older.push(ClassifiedChar { ch: x, class: Classification::Mismatch });
            newer.push(ClassifiedChar { ch: y, class: Classification::Mismatch });
        } else {
            older.push(ClassifiedChar { ch: x, class: Classification::Match });
            newer.push(ClassifiedChar { ch: y, class: Classification::Match });
        }
        assert(older@.last() == classify_at(chars1@, chars2@, i as int));
        assert(older@ =~= classified(chars1@, chars2@).take(i as int + 1));
        assert(newer@.last() == classify_at(chars2@, chars1@, i as int));
        assert(newer@ =~= classified(chars2@, chars1@).take(i as int + 1));
        i = i + 1;
    }
    assert(older@ =~= classified(chars1@, chars2@));
    assert(newer@ =~= classified(chars2@, chars1@));
    DiffResult { mismatches: diff_count, total: n, original: older, changed: newer }
}

/// Number of differing positions that comparing `a` with `b` reports: zero
/// when their lengths differ.
pub open spec fn diff_mismatches(a: Seq<char>, b: Seq<char>) -> nat {
    if a.len() == b.len() {
        mismatch_count(a, b)
    } else {
        0
    }
}

/// At most every compared position differs.
pub proof fn lemma_mismatches_at_most_length(a: Seq<char>, b: Seq<char>)
    ensures
        mismatch_count(a, b) <= a.len(),
        diff_mismatches(a, b) <= a.len(),
{
    lemma_mismatches_upto_bound(a, b, a.len() as int);
}

proof fn lemma_mismatches_upto_self(a: Seq<char>, n: int)
    ensures
        mismatches_upto(a, a, n) == 0,
    decreases n,
{
    if n > 0 {
        lemma_mismatches_upto_self(a, n - 1);
    }
}

proof fn lemma_mismatches_upto_all(a: Seq<char>, b: Seq<char>, n: int)
    requires
        0 <= n <= a.len(),
        n <= b.len(),
        forall|i: int| 0 <= i < n ==> a[i] != b[i],
    ensures
        mismatches_upto(a, b, n) == n,
    decreases n,
{
    if n > 0 {
        lemma_mismatches_upto_all(a, b, n - 1);
    }
}

/// Comparing a string with itself finds no difference.
pub proof fn lemma_compare_identical(a: Seq<char>, r: DiffResult)
    requires
        is_diff_of(r, a, a),
    ensures
        r.mismatches == 0,
        r.total == a.len(),
{
    lemma_mismatches_upto_self(a, a.len() as int);
}

/// Comparing two non-empty strings of one length that differ at every
/// position finds every compared position different.
pub proof fn lemma_compare_all_different(a: Seq<char>, b: Seq<char>, r: DiffResult)
    requires
        a.len() == b.len(),
        a.len() > 0,
        forall|i: int| 0 <= i < a.len() ==> a[i] != b[i],
        is_diff_of(r, a, b),
    ensures
        r.mismatches == r.total,
        r.total > 0,
{
    lemma_mismatches_upto_all(a, b, a.len() as int);
}

} // verus!
