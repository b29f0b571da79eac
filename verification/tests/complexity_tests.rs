use pair_filter::complexity::{kmer_complexity, KMER_SIZE};

#[test]
fn empty_sequence_scores_zero() {
    let seq: Vec<u8> = Vec::new();
    let s = kmer_complexity(&seq);
    assert_eq!(s.num, 0);
    assert_eq!(s.den, 1);
}

#[test]
fn short_sequence_scores_zero() {
    let seq: Vec<u8> = b"ACGTACGTACGTACGTACGT".to_vec();
    assert_eq!(seq.len(), KMER_SIZE - 1);
    let s = kmer_complexity(&seq);
    assert_eq!(s.num, 0);
    assert_eq!(s.den, 1);
}

#[test]
fn length_k_sequence_scores_one() {
    let seq: Vec<u8> = b"ACGTACGTACGTACGTACGTA".to_vec();
    assert_eq!(seq.len(), KMER_SIZE);
    let s = kmer_complexity(&seq);
    assert_eq!(s.num, 1);
    assert_eq!(s.den, 1);
}

#[test]
fn uniform_sequence_has_single_distinct_kmer() {
    // 30 copies of one base: 10 windows, all with the same content.
    let seq: Vec<u8> = vec![b'A'; 30];
    let s = kmer_complexity(&seq);
    assert_eq!(s.num, 1);
    assert_eq!(s.den, 10);
}

#[test]
fn distinct_windows_score_one() {
    // 21 copies of 'A' then one 'C': the two windows differ.
    let mut seq: Vec<u8> = vec![b'A'; KMER_SIZE];
    seq.push(b'C');
    let s = kmer_complexity(&seq);
    assert_eq!(s.num, 2);
    assert_eq!(s.den, 2);
}

#[test]
fn repeated_kmer_counted_once() {
    // 22 copies of 'A' then one 'C': the first two windows are identical,
    // the third differs, so 2 distinct contents among 3 windows.
    let mut seq: Vec<u8> = vec![b'A'; 22];
    seq.push(b'C');
    let s = kmer_complexity(&seq);
    assert_eq!(s.num, 2);
    assert_eq!(s.den, 3);
}

#[test]
fn case_is_not_canonicalized() {
    // Lower-case and upper-case bases are different bytes, so the two
    // windows of this 22-base sequence differ.
    let mut seq: Vec<u8> = vec![b'a'; KMER_SIZE];
    seq.push(b'A');
    let s = kmer_complexity(&seq);
    assert_eq!(s.num, 2);
    assert_eq!(s.den, 2);
}
