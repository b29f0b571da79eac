use pair_filter::contiguity::{longest_mapped_run, AlignOp, OpKind};

fn op(kind: OpKind, len: u32) -> AlignOp {
    AlignOp { kind, len }
}

#[test]
fn empty_ops_give_zero() {
    let ops: Vec<AlignOp> = Vec::new();
    assert_eq!(longest_mapped_run(&ops), 0);
}

#[test]
fn zero_length_break_still_resets() {
    let ops = vec![op(OpKind::Match, 5), op(OpKind::Other, 0), op(OpKind::Match, 7)];
    assert_eq!(longest_mapped_run(&ops), 7);
}

#[test]
fn adjacent_mapped_ops_accumulate() {
    let ops = vec![op(OpKind::Match, 3), op(OpKind::Match, 4)];
    assert_eq!(longest_mapped_run(&ops), 7);
}

#[test]
fn sequence_match_counts_as_mapped() {
    let ops = vec![op(OpKind::SeqMatch, 5), op(OpKind::Match, 3)];
    assert_eq!(longest_mapped_run(&ops), 8);
}

#[test]
fn all_mapped_equals_total_length() {
    let ops = vec![op(OpKind::Match, 10), op(OpKind::SeqMatch, 20), op(OpKind::Match, 12)];
    assert_eq!(longest_mapped_run(&ops), 42);
}

#[test]
fn only_breaking_ops_give_zero() {
    let ops = vec![op(OpKind::Other, 5), op(OpKind::Other, 9)];
    assert_eq!(longest_mapped_run(&ops), 0);
}

#[test]
fn interrupted_run_keeps_longer_side() {
    let ops = vec![op(OpKind::Match, 10), op(OpKind::Other, 1), op(OpKind::Match, 4)];
    assert_eq!(longest_mapped_run(&ops), 10);
}

#[test]
fn trailing_run_is_compared_at_end() {
    let ops = vec![op(OpKind::Match, 4), op(OpKind::Other, 1), op(OpKind::Match, 10)];
    assert_eq!(longest_mapped_run(&ops), 10);
}
