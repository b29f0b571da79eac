use pair_filter::contiguity::{AlignOp, OpKind};
use pair_filter::engine::{run_filter, FilterConfig, RecordData, RunStatus, StreamItem};

fn rec_item(qname: &[u8], seq: Vec<u8>, ops: Vec<AlignOp>) -> StreamItem {
    StreamItem::Record(RecordData { qname: qname.to_vec(), seq, ops })
}

fn high_complexity_seq() -> Vec<u8> {
    b"ACGTACGTACGTACGTACGTA".to_vec()
}

fn low_complexity_seq() -> Vec<u8> {
    vec![b'A'; 41]
}

fn long_mapped_ops() -> Vec<AlignOp> {
    vec![AlignOp { kind: OpKind::Match, len: 50 }]
}

fn short_mapped_ops() -> Vec<AlignOp> {
    vec![AlignOp { kind: OpKind::Match, len: 5 }]
}

/// Three pairs under cutoff 0.8 and threshold 10: pair A passes both checks on
/// both mates, pair B fails complexity on one mate only, pair C fails the
/// mapped-run threshold on both mates.
fn three_pair_stream() -> Vec<StreamItem> {
    vec![
        rec_item(b"pairA", high_complexity_seq(), long_mapped_ops()),
        rec_item(b"pairA", high_complexity_seq(), long_mapped_ops()),
        rec_item(b"pairB", high_complexity_seq(), long_mapped_ops()),
        rec_item(b"pairB", low_complexity_seq(), long_mapped_ops()),
        rec_item(b"pairC", high_complexity_seq(), short_mapped_ops()),
        rec_item(b"pairC", high_complexity_seq(), short_mapped_ops()),
    ]
}

#[test]
fn three_pair_stream_keeps_only_the_passing_pair() {
    let config = FilterConfig::new(4, 5, 10).unwrap();
    let r = run_filter(&three_pair_stream(), config);
    assert_eq!(r.status, RunStatus::CleanEnd);
    assert_eq!(r.total_pairs, 3);
    assert_eq!(r.kept_pairs, 1);
    assert_eq!(r.accepted, vec![0]);
}

#[test]
fn empty_stream_completes_cleanly() {
    let config = FilterConfig::new(4, 5, 0).unwrap();
    let r = run_filter(&Vec::new(), config);
    assert_eq!(r.status, RunStatus::CleanEnd);
    assert_eq!(r.total_pairs, 0);
    assert_eq!(r.kept_pairs, 0);
    assert!(r.accepted.is_empty());
}

#[test]
fn mismatch_aborts_without_emitting_either_record() {
    let config = FilterConfig::new(0, 1, 0).unwrap();
    let items = vec![
        rec_item(b"pairA", high_complexity_seq(), long_mapped_ops()),
        rec_item(b"pairB", high_complexity_seq(), long_mapped_ops()),
    ];
    let r = run_filter(&items, config);
    assert_eq!(r.status, RunStatus::MismatchAbort);
    assert_eq!(r.total_pairs, 0);
    assert_eq!(r.kept_pairs, 0);
    assert!(r.accepted.is_empty());
}

#[test]
fn mismatch_in_later_pair_keeps_earlier_output() {
    let config = FilterConfig::new(0, 1, 0).unwrap();
    let items = vec![
        rec_item(b"pairA", high_complexity_seq(), long_mapped_ops()),
        rec_item(b"pairA", high_complexity_seq(), long_mapped_ops()),
        rec_item(b"pairB", high_complexity_seq(), long_mapped_ops()),
        rec_item(b"pairC", high_complexity_seq(), long_mapped_ops()),
    ];
    let r = run_filter(&items, config);
    assert_eq!(r.status, RunStatus::MismatchAbort);
    assert_eq!(r.total_pairs, 1);
    assert_eq!(r.kept_pairs, 1);
    assert_eq!(r.accepted, vec![0]);
}

#[test]
fn odd_record_count_processes_completed_pairs_only() {
    let config = FilterConfig::new(0, 1, 0).unwrap();
    let items = vec![
        rec_item(b"pairA", high_complexity_seq(), long_mapped_ops()),
        rec_item(b"pairA", high_complexity_seq(), long_mapped_ops()),
        rec_item(b"orphan", high_complexity_seq(), long_mapped_ops()),
    ];
    let r = run_filter(&items, config);
    assert_eq!(r.status, RunStatus::UnpairedEnd);
    assert_eq!(r.total_pairs, 1);
    assert_eq!(r.kept_pairs, 1);
    assert_eq!(r.accepted, vec![0]);
}

#[test]
fn read_error_on_first_record_stops_the_run() {
    let config = FilterConfig::new(0, 1, 0).unwrap();
    let items = vec![StreamItem::ReadError];
    let r = run_filter(&items, config);
    assert_eq!(r.status, RunStatus::ErrorEnd);
    assert_eq!(r.total_pairs, 0);
    assert_eq!(r.kept_pairs, 0);
}

#[test]
fn read_error_on_second_record_stops_the_run() {
    let config = FilterConfig::new(0, 1, 0).unwrap();
    let items = vec![
        rec_item(b"pairA", high_complexity_seq(), long_mapped_ops()),
        rec_item(b"pairA", high_complexity_seq(), long_mapped_ops()),
        rec_item(b"pairB", high_complexity_seq(), long_mapped_ops()),
        StreamItem::ReadError,
    ];
    let r = run_filter(&items, config);
    assert_eq!(r.status, RunStatus::ErrorEnd);
    assert_eq!(r.total_pairs, 1);
    assert_eq!(r.kept_pairs, 1);
    assert_eq!(r.accepted, vec![0]);
}

#[test]
fn running_twice_gives_identical_results() {
    let config = FilterConfig::new(4, 5, 10).unwrap();
    let first = run_filter(&three_pair_stream(), config);
    let second = run_filter(&three_pair_stream(), config);
    assert_eq!(first.status, second.status);
    assert_eq!(first.total_pairs, second.total_pairs);
    assert_eq!(first.kept_pairs, second.kept_pairs);
    assert_eq!(first.accepted, second.accepted);
}
