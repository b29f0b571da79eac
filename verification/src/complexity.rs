//! K-mer complexity estimation.
//!
//! The complexity of a base sequence is the ratio of distinct k-mers to the
//! total number of k-mer windows. A sequence too short to contain a single
//! k-mer is defined to have complexity zero. Scores are kept as exact
//! fractions, so every comparison against a cutoff is exact.

use vstd::prelude::*;

verus! {

broadcast use vstd::set::group_set_axioms;

/// Length of the substrings (k-mers) the estimator counts.
pub const KMER_SIZE: usize = 21;

/// The k-mer starting at offset `i` of `s`.
pub open spec fn kmer_at(s: Seq<u8>, i: int) -> Seq<u8> {
    s.subrange(i, i + KMER_SIZE as int)
}

/// The set of distinct k-mer contents among the first `n` window offsets of `s`.
pub open spec fn kmers_up_to(s: Seq<u8>, n: int) -> Set<Seq<u8>> {
    Set::new(|k: Seq<u8>| exists|j: int| 0 <= j < n && k == kmer_at(s, j))
}

/// Number of k-mer windows in `s` (meaningful when `s.len() >= KMER_SIZE`).
pub open spec fn total_kmers(s: Seq<u8>) -> int {
    s.len() - KMER_SIZE + 1
}

/// Number of distinct k-mers in `s`.
pub open spec fn distinct_kmers(s: Seq<u8>) -> nat {
    kmers_up_to(s, total_kmers(s)).len()
}

/// Numerator of the complexity score of `s`.
pub open spec fn complexity_num(s: Seq<u8>) -> int {
    if s.len() < KMER_SIZE {
        0
    } else {
        distinct_kmers(s) as int
    }
}

/// Denominator of the complexity score of `s`; always positive.
pub open spec fn complexity_den(s: Seq<u8>) -> int {
    if s.len() < KMER_SIZE {
        1
    } else {
        total_kmers(s)
    }
}

/// A complexity score as the exact fraction `num / den`, in `[0, 1]`.
#[derive(Clone, Copy, PartialEq, Eq, Structural, Debug)]
pub struct ComplexityScore {
    pub num: usize,
    pub den: usize,
}

/// Extending the window prefix by one offset inserts that offset's k-mer.
pub proof fn lemma_kmers_up_to_step(s: Seq<u8>, n: int)
    requires
        n >= 0,
    ensures
        kmers_up_to(s, n + 1) == kmers_up_to(s, n).insert(kmer_at(s, n)),
{
    assert(kmers_up_to(s, n + 1) =~= kmers_up_to(s, n).insert(kmer_at(s, n)));
}

/// A sequence shorter than one k-mer has complexity exactly zero.
pub proof fn lemma_short_sequence_score_zero(s: Seq<u8>)
    requires
        s.len() < KMER_SIZE,
    ensures
        complexity_num(s) == 0,
        complexity_den(s) == 1,
{
}

/// A sequence of length exactly `KMER_SIZE` has complexity exactly one.
pub proof fn lemma_length_k_score_one(s: Seq<u8>)
    requires
        s.len() == KMER_SIZE,
    ensures
        complexity_num(s) == complexity_den(s),
        complexity_den(s) == 1,
{
    assert(kmers_up_to(s, 1) =~= Set::<Seq<u8>>::empty().insert(kmer_at(s, 0)));
}

/// A sequence of one repeated base, long enough to hold a k-mer, has exactly
/// one distinct k-mer: its complexity is `1 / (len - KMER_SIZE + 1)`.
pub proof fn lemma_uniform_sequence_single_kmer(s: Seq<u8>)
    requires
        s.len() >= KMER_SIZE,
        forall|i: int| 0 <= i < s.len() ==> #[trigger] s[i] == s[0],
    ensures
        complexity_num(s) == 1,
        complexity_den(s) == s.len() - KMER_SIZE + 1,
{
    assert forall|j: int| 0 <= j < total_kmers(s) implies #[trigger] kmer_at(s, j) == kmer_at(s, 0) by {
        assert forall|u: int| 0 <= u < KMER_SIZE implies #[trigger] kmer_at(s, j)[u] == kmer_at(s, 0)[u] by {
            assert(s[j + u] == s[0]);
            assert(s[0 + u] == s[0]);
        }
        assert(kmer_at(s, j) =~= kmer_at(s, 0));
    }
    assert(kmers_up_to(s, total_kmers(s)) =~= Set::<Seq<u8>>::empty().insert(kmer_at(s, 0)));
}

/// When no two window offsets of `s` carry the same k-mer content, the first
/// `n` offsets contribute `n` distinct k-mers.
proof fn lemma_distinct_prefix_count(s: Seq<u8>, n: int)
    requires
        s.len() >= KMER_SIZE,
        0 <= n <= total_kmers(s),
        forall|i: int, j: int| #![trigger kmer_at(s, i), kmer_at(s, j)]
            0 <= i < j < total_kmers(s) ==> kmer_at(s, i) != kmer_at(s, j),
    ensures
        kmers_up_to(s, n).finite(),
        kmers_up_to(s, n).len() == n,
    decreases n,
{
    if n == 0 {
        assert(kmers_up_to(s, 0) =~= Set::<Seq<u8>>::empty());
    } else {
        lemma_distinct_prefix_count(s, n - 1);
        lemma_kmers_up_to_step(s, n - 1);
        assert(!kmers_up_to(s, n - 1).contains(kmer_at(s, n - 1))) by {
            if kmers_up_to(s, n - 1).contains(kmer_at(s, n - 1)) {
                let j = choose|j: int| 0 <= j < n - 1 && kmer_at(s, n - 1) == #[trigger] kmer_at(s, j);
                assert(kmer_at(s, j) != kmer_at(s, n - 1));
            }
        }
    }
}

/// A sequence with no repeated k-mer has complexity exactly one.
pub proof fn lemma_all_kmers_distinct_score_one(s: Seq<u8>)
    requires
        s.len() >= KMER_SIZE,
        forall|i: int, j: int| #![trigger kmer_at(s, i), kmer_at(s, j)]
            0 <= i < j < total_kmers(s) ==> kmer_at(s, i) != kmer_at(s, j),
    ensures
        complexity_num(s) == complexity_den(s),
{
    lemma_distinct_prefix_count(s, total_kmers(s));
}

/// Compares the k-mers at offsets `a` and `b` of `s` byte by byte.
fn kmers_equal(s: &Vec<u8>, a: usize, b: usize) -> (r: bool)
    requires
        a + KMER_SIZE <= s@.len(),
        b + KMER_SIZE <= s@.len(),
    ensures
        r == (kmer_at(s@, a as int) == kmer_at(s@, b as int)),
{
    let n = s.len();
    let mut t: usize = 0;
    let mut eq: bool = true;
    while t < KMER_SIZE
        invariant
            t <= KMER_SIZE,
            n == s@.len(),
            a + KMER_SIZE <= n,
            b + KMER_SIZE <= n,
            eq == (forall|u: int| 0 <= u < t ==> #[trigger] s@[a + u] == s@[b + u]),
        decreases KMER_SIZE - t,
    {
        if s[a + t] != s[b + t] {
            eq = false;
        }
        t += 1;
    }
    proof {
        if eq {
            assert forall|u: int| 0 <= u < KMER_SIZE implies kmer_at(s@, a as int)[u] == kmer_at(
                s@,
                b as int,
            )[u] by {
                assert(s@[a + u] == s@[b + u]);
            }
            assert(kmer_at(s@, a as int) =~= kmer_at(s@, b as int));
        } else {
            let u0 = choose|u: int| 0 <= u < KMER_SIZE && #[trigger] s@[a + u] != s@[b + u];
            assert(kmer_at(s@, a as int)[u0] != kmer_at(s@, b as int)[u0]);
        }
    }
    eq
}

/// Whether the k-mer at offset `i` already occurs at an earlier offset of `s`.
fn kmer_seen_before(s: &Vec<u8>, i: usize) -> (r: bool)
    requires
        i + KMER_SIZE <= s@.len(),
    ensures
        r == kmers_up_to(s@, i as int).contains(kmer_at(s@, i as int)),
{
    let mut j: usize = 0;
    let mut found: bool = false;
    while j < i
        invariant
            j <= i,
            i + KMER_SIZE <= s@.len(),
            found == (exists|j2: int|
                0 <= j2 < j && kmer_at(s@, i as int) == kmer_at(s@, j2)),
        decreases i - j,
    {
        if kmers_equal(s, j, i) {
            found = true;
        }
        j += 1;
    }
    found
}

/// Computes the complexity score of a base sequence: the number of distinct
/// k-mers over the number of k-mer windows, or exactly zero for a sequence
/// shorter than one k-mer.
pub fn kmer_complexity(seq: &Vec<u8>) -> (r: ComplexityScore)
    ensures
        r.num == complexity_num(seq@),
        r.den == complexity_den(seq@),
        0 < r.den,
        r.num <= r.den,
{
    if seq.len() < KMER_SIZE {
        return ComplexityScore { num: 0, den: 1 };
    }
    let total: usize = seq.len() - KMER_SIZE + 1;
    let mut count: usize = 0;
    let mut i: usize = 0;
    proof {
        assert(kmers_up_to(seq@, 0) =~= Set::<Seq<u8>>::empty());
    }
    while i < total
        invariant
            KMER_SIZE <= seq@.len(),
            total == total_kmers(seq@),
            i <= total,
            kmers_up_to(seq@, i as int).finite(),
            count == kmers_up_to(seq@, i as int).len(),
            count <= i,
        decreases total - i,
    {
        let is_old = kmer_seen_before(seq, i);
        proof {
            lemma_kmers_up_to_step(seq@, i as int);
        }
        if !is_old {
            count += 1;
        }
        i += 1;
    }
    ComplexityScore { num: count, den: total }
}

} // verus!
