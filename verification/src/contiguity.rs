//! Longest contiguous mapped run.
//!
//! An alignment record's operation list is scanned in order; operations whose
//! kind counts as mapped extend the current run, every other operation closes
//! it (even one of length zero). The result is the longest run seen.

use vstd::prelude::*;

verus! {

/// Kind of one alignment operation. Only `Match` and `SeqMatch` count as
/// mapped; every other operation kind collapses to `Other` and breaks a run.
#[derive(Clone, Copy, PartialEq, Eq, Structural, Debug)]
pub enum OpKind {
    Match,
    SeqMatch,
    Other,
}

/// One alignment operation: its kind and its length in bases.
#[derive(Clone, Copy, PartialEq, Eq, Structural, Debug)]
pub struct AlignOp {
    pub kind: OpKind,
    pub len: u32,
}

/// Whether an operation kind extends a contiguous mapped run.
pub open spec fn is_mapped(k: OpKind) -> bool {
    k == OpKind::Match || k == OpKind::SeqMatch
}

/// Scan state after the first `n` operations: the length of the in-progress
/// run and the longest run closed so far.
pub open spec fn scan_state(ops: Seq<AlignOp>, n: int) -> (int, int)
    decreases n,
{
    if n <= 0 {
        (0, 0)
    } else {
        let prev = scan_state(ops, n - 1);
        let op = ops[n - 1];
        if is_mapped(op.kind) {
            (prev.0 + op.len, prev.1)
        } else {
            (0, if prev.0 > prev.1 {
                prev.0
            } else {
                prev.1
            })
        }
    }
}

/// The larger component of a scan state.
pub open spec fn larger(pair: (int, int)) -> int {
    if pair.0 > pair.1 {
        pair.0
    } else {
        pair.1
    }
}

/// The longest contiguous mapped run of an operation list: the larger of the
/// final in-progress run and the longest run closed during the scan.
pub open spec fn longest_mapped_run_spec(ops: Seq<AlignOp>) -> int {
    larger(scan_state(ops, ops.len() as int))
}

/// Sum of the lengths of the operations in the window `[a, b)`.
pub open spec fn window_len_sum(ops: Seq<AlignOp>, a: int, b: int) -> int
    decreases b - a,
{
    if a >= b {
        0
    } else {
        window_len_sum(ops, a, b - 1) + ops[b - 1].len
    }
}

/// Whether `[a, b)` is a contiguous window of `ops` made of mapped operations
/// only.
pub open spec fn is_mapped_window(ops: Seq<AlignOp>, a: int, b: int) -> bool {
    0 <= a <= b <= ops.len() && (forall|t: int| a <= t < b ==> is_mapped(#[trigger] ops[t].kind))
}

/// Both scan accumulators stay within `n` times the largest operation length.
proof fn lemma_scan_state_bounds(ops: Seq<AlignOp>, n: int)
    requires
        0 <= n <= ops.len(),
    ensures
        0 <= scan_state(ops, n).0 <= n * (u32::MAX as int),
        0 <= scan_state(ops, n).1 <= n * (u32::MAX as int),
    decreases n,
{
    if n > 0 {
        lemma_scan_state_bounds(ops, n - 1);
        assert((n - 1) * (u32::MAX as int) + (u32::MAX as int) == n * (u32::MAX as int))
            by (nonlinear_arith);
    }
}

/// After `n` operations, the in-progress run is the sum of some mapped window
/// ending at `n`, the closed run is the sum of some mapped window, every
/// mapped window ending at `n` sums to at most the in-progress run, and every
/// mapped window inside the first `n` operations sums to at most the larger
/// accumulator.
proof fn lemma_scan_state_windows(ops: Seq<AlignOp>, n: int)
    requires
        0 <= n <= ops.len(),
    ensures
        exists|s: int| #![trigger window_len_sum(ops, s, n)]
            is_mapped_window(ops, s, n) && window_len_sum(ops, s, n) == scan_state(ops, n).0,
        exists|a: int, b: int| #![trigger window_len_sum(ops, a, b)]
            b <= n && is_mapped_window(ops, a, b)
                && window_len_sum(ops, a, b) == scan_state(ops, n).1,
        forall|a: int| is_mapped_window(ops, a, n)
            ==> #[trigger] window_len_sum(ops, a, n) <= scan_state(ops, n).0,
        forall|a: int, b: int| b <= n && is_mapped_window(ops, a, b)
            ==> #[trigger] window_len_sum(ops, a, b) <= larger(scan_state(ops, n)),
    decreases n,
{
    lemma_scan_state_bounds(ops, n);
    if n == 0 {
        assert(is_mapped_window(ops, 0, 0) && window_len_sum(ops, 0, 0) == 0);
    } else {
        lemma_scan_state_windows(ops, n - 1);
        lemma_scan_state_bounds(ops, n - 1);
        let c = scan_state(ops, n - 1).0;
        let l = scan_state(ops, n - 1).1;
        if is_mapped(ops[n - 1].kind) {
            // The in-progress window extends by one operation.
            let s = choose|s: int| #![trigger window_len_sum(ops, s, n - 1)]
                is_mapped_window(ops, s, n - 1) && window_len_sum(ops, s, n - 1) == c;
            assert(is_mapped_window(ops, s, n) && window_len_sum(ops, s, n) == c + ops[n
                - 1].len);
            assert forall|a: int| is_mapped_window(ops, a, n) implies #[trigger] window_len_sum(
                ops,
                a,
                n,
            ) <= scan_state(ops, n).0 by {
                if a < n {
                    assert(is_mapped_window(ops, a, n - 1));
                    assert(window_len_sum(ops, a, n - 1) <= c);
                }
            }
            assert forall|a: int, b: int| b <= n && is_mapped_window(ops, a, b)
                implies #[trigger] window_len_sum(ops, a, b) <= larger(scan_state(ops, n)) by {
                if b == n {
                    assert(window_len_sum(ops, a, b) <= scan_state(ops, n).0);
                } else {
                    assert(window_len_sum(ops, a, b) <= larger(scan_state(ops, n - 1)));
                }
            }
        } else {
            // The operation breaks contiguity: the in-progress window empties
            // and the closed best is the larger of the two accumulators.
            assert(is_mapped_window(ops, n, n) && window_len_sum(ops, n, n) == 0);
            if c > l {
                let s = choose|s: int| #![trigger window_len_sum(ops, s, n - 1)]
                    is_mapped_window(ops, s, n - 1) && window_len_sum(ops, s, n - 1) == c;
                assert(s <= n - 1 && is_mapped_window(ops, s, n - 1)
                    && window_len_sum(ops, s, n - 1) == scan_state(ops, n).1);
            }
            assert forall|a: int| is_mapped_window(ops, a, n) implies #[trigger] window_len_sum(
                ops,
                a,
                n,
            ) <= scan_state(ops, n).0 by {
                if a < n {
                    assert(is_mapped(ops[n - 1].kind));
                }
            }
            assert forall|a: int, b: int| b <= n && is_mapped_window(ops, a, b)
                implies #[trigger] window_len_sum(ops, a, b) <= larger(scan_state(ops, n)) by {
                if b == n {
                    if a < n {
                        assert(is_mapped(ops[n - 1].kind));
                    }
                } else {
                    assert(window_len_sum(ops, a, b) <= larger(scan_state(ops, n - 1)));
                }
            }
        }
    }
}

/// The scan computes exactly the longest mapped window: no contiguous window
/// of mapped operations sums to more than the longest mapped run, and some
/// such window attains it.
pub proof fn lemma_longest_run_is_max_window(ops: Seq<AlignOp>)
    ensures
        forall|a: int, b: int| is_mapped_window(ops, a, b)
            ==> #[trigger] window_len_sum(ops, a, b) <= longest_mapped_run_spec(ops),
        exists|a: int, b: int| #![trigger window_len_sum(ops, a, b)]
            is_mapped_window(ops, a, b)
                && window_len_sum(ops, a, b) == longest_mapped_run_spec(ops),
{
    let n = ops.len() as int;
    lemma_scan_state_windows(ops, n);
    let end = scan_state(ops, n);
    if end.0 > end.1 {
        let s = choose|s: int| #![trigger window_len_sum(ops, s, n)]
            is_mapped_window(ops, s, n) && window_len_sum(ops, s, n) == end.0;
        assert(is_mapped_window(ops, s, n)
            && window_len_sum(ops, s, n) == longest_mapped_run_spec(ops));
    } else {
        let (a, b) = choose|a: int, b: int| #![trigger window_len_sum(ops, a, b)]
            b <= n && is_mapped_window(ops, a, b) && window_len_sum(ops, a, b) == end.1;
        assert(is_mapped_window(ops, a, b)
            && window_len_sum(ops, a, b) == longest_mapped_run_spec(ops));
    }
}

/// Computes the longest contiguous mapped run of `ops`. The result never
/// overflows: the sum of at most `usize::MAX` operation lengths of at most
/// `u32::MAX` bases each fits in a `u128`.
pub fn longest_mapped_run(ops: &Vec<AlignOp>) -> (r: u128)
    ensures
        r == longest_mapped_run_spec(ops@),
{
    let mut current: u128 = 0;
    let mut longest: u128 = 0;
    let mut i: usize = 0;
    while i < ops.len()
        invariant
            i <= ops@.len(),
            current == scan_state(ops@, i as int).0,
            longest == scan_state(ops@, i as int).1,
        decreases ops@.len() - i,
    {
        proof {
            lemma_scan_state_bounds(ops@, i as int);
            lemma_scan_state_bounds(ops@, i + 1);
            assert((i + 1) * (u32::MAX as int) < u128::MAX) by (nonlinear_arith)
                requires 0 <= i < 0x1_0000_0000_0000_0000;
        }
        let op = ops[i];
        match op.kind {
            OpKind::Match | OpKind::SeqMatch => {
                current = current + (op.len as u128);
            },
            OpKind::Other => {
                if current > longest {
                    longest = current;
                }
                current = 0;
            },
        }
        i += 1;
    }
    if current > longest {
        longest = current;
    }
    longest
}

} // verus!
