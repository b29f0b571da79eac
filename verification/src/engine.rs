//! Pair-wise streaming filter.
//!
//! The engine consumes a name-sorted alignment stream two records at a time,
//! checks that the two mates carry the same query name, applies the combined
//! complexity and mapped-run predicate, and keeps running counters. A name
//! mismatch aborts the run; end-of-stream and read errors end it normally.

use vstd::prelude::*;
use crate::complexity::{ComplexityScore, complexity_den, complexity_num, kmer_complexity};
use crate::contiguity::{AlignOp, longest_mapped_run, longest_mapped_run_spec};

verus! {

/// Filter configuration. The complexity cutoff is the exact fraction
/// `cutoff_num / cutoff_den`; `min_mapped == 0` disables the mapped-run check.
#[derive(Clone, Copy, PartialEq, Eq, Structural, Debug)]
pub struct FilterConfig {
    pub cutoff_num: u64,
    pub cutoff_den: u64,
    pub min_mapped: u64,
}

/// A valid configuration: the cutoff is a fraction in `[0, 1]`.
pub open spec fn config_wf(c: FilterConfig) -> bool {
    0 < c.cutoff_den && c.cutoff_num <= c.cutoff_den
}

impl FilterConfig {
    /// Builds a configuration, rejecting a cutoff outside `[0, 1]`.
    pub fn new(cutoff_num: u64, cutoff_den: u64, min_mapped: u64) -> (r: Option<FilterConfig>)
        ensures
            r is Some <==> (0 < cutoff_den && cutoff_num <= cutoff_den),
            r is Some ==> r == Some(FilterConfig { cutoff_num, cutoff_den, min_mapped }),
    {
        if 0 < cutoff_den && cutoff_num <= cutoff_den {
            Some(FilterConfig { cutoff_num, cutoff_den, min_mapped })
        } else {
            None
        }
    }
}

/// Whether the score `num / den` is at least the configured cutoff, compared
/// exactly by cross-multiplication.
pub open spec fn score_at_least_cutoff(num: int, den: int, c: FilterConfig) -> bool {
    num * c.cutoff_den >= c.cutoff_num * den
}

/// Exact comparison of a complexity score against the cutoff.
pub fn score_passes(score: &ComplexityScore, c: &FilterConfig) -> (r: bool)
    ensures
        r == score_at_least_cutoff(score.num as int, score.den as int, *c),
{
    proof {
        assert((score.num as int) * (c.cutoff_den as int) < u128::MAX) by (nonlinear_arith)
            requires
                0 <= score.num < 0x1_0000_0000_0000_0000,
                0 <= c.cutoff_den < 0x1_0000_0000_0000_0000;
        assert((c.cutoff_num as int) * (score.den as int) < u128::MAX) by (nonlinear_arith)
            requires
                0 <= c.cutoff_num < 0x1_0000_0000_0000_0000,
                0 <= score.den < 0x1_0000_0000_0000_0000;
    }
    let lhs: u128 = (score.num as u128) * (c.cutoff_den as u128);
    let rhs: u128 = (c.cutoff_num as u128) * (score.den as u128);
    lhs >= rhs
}

/// One alignment record's data, as plain values: query name, base sequence,
/// and the ordered list of alignment operations.
pub struct RecordData {
    pub qname: Vec<u8>,
    pub seq: Vec<u8>,
    pub ops: Vec<AlignOp>,
}

/// Whether a pair passes the combined predicate: both mates reach the
/// complexity cutoff, and, when the mapped-run check is enabled, both mates
/// reach the minimum contiguous mapped-run length.
pub open spec fn pair_passes(r1: RecordData, r2: RecordData, c: FilterConfig) -> bool {
    &&& score_at_least_cutoff(complexity_num(r1.seq@), complexity_den(r1.seq@), c)
    &&& score_at_least_cutoff(complexity_num(r2.seq@), complexity_den(r2.seq@), c)
    &&& (c.min_mapped == 0 || (longest_mapped_run_spec(r1.ops@) >= c.min_mapped
        && longest_mapped_run_spec(r2.ops@) >= c.min_mapped))
}

/// Outcome of looking at one pair of consecutive records.
#[derive(Clone, Copy, PartialEq, Eq, Structural, Debug)]
pub enum PairDecision {
    /// The two records carry different query names: the stream is not
    /// name-sorted, and the whole run must abort.
    Mismatch,
    /// Both mates pass every active check.
    Accept,
    /// The names match but at least one check fails on at least one mate.
    Reject,
}

/// The decision the engine owes for one pair of consecutive records.
pub open spec fn pair_decision_spec(r1: RecordData, r2: RecordData, c: FilterConfig)
    -> PairDecision {
    if r1.qname@ != r2.qname@ {
        PairDecision::Mismatch
    } else if pair_passes(r1, r2, c) {
        PairDecision::Accept
    } else {
        PairDecision::Reject
    }
}

/// Byte-for-byte equality of two query names.
fn bytes_equal(a: &Vec<u8>, b: &Vec<u8>) -> (r: bool)
    ensures
        r == (a@ == b@),
{
    if a.len() != b.len() {
        return false;
    }
    let n = a.len();
    let mut t: usize = 0;
    let mut eq: bool = true;
    while t < n
        invariant
            t <= n,
            n == a@.len(),
            n == b@.len(),
            eq == (forall|u: int| 0 <= u < t ==> #[trigger] a@[u] == b@[u]),
        decreases n - t,
    {
        if a[t] != b[t] {
            eq = false;
        }
        t += 1;
    }
    proof {
        if eq {
            assert(a@ =~= b@);
        } else {
            let u0 = choose|u: int| 0 <= u < n && #[trigger] a@[u] != b@[u];
            assert(a@[u0] != b@[u0]);
        }
    }
    eq
}

/// Decides one pair: the mate-name check, the complexity check on both mates,
/// and, when `min_mapped > 0`, the mapped-run check on both mates. When the
/// mapped-run check is disabled it is not computed at all.
pub fn decide_pair(r1: &RecordData, r2: &RecordData, c: &FilterConfig) -> (d: PairDecision)
    ensures
        d == pair_decision_spec(*r1, *r2, *c),
{
    if !bytes_equal(&r1.qname, &r2.qname) {
        return PairDecision::Mismatch;
    }
    let s1 = kmer_complexity(&r1.seq);
    let s2 = kmer_complexity(&r2.seq);
    let pass_complexity = score_passes(&s1, c) && score_passes(&s2, c);
    let pass_mapped = if c.min_mapped == 0 {
        true
    } else {
        let m1 = longest_mapped_run(&r1.ops);
        let m2 = longest_mapped_run(&r2.ops);
        m1 >= c.min_mapped as u128 && m2 >= c.min_mapped as u128
    };
    if pass_complexity && pass_mapped {
        PairDecision::Accept
    } else {
        PairDecision::Reject
    }
}

/// Pairs between two progress observations: a report is due after every
/// interval of processed pairs.
pub const PROGRESS_INTERVAL: u64 = 100000;

/// The streaming pair filter: a configuration and the two running counters.
pub struct PairFilterEngine {
    pub config: FilterConfig,
    pub total_pairs: u64,
    pub kept_pairs: u64,
}

impl PairFilterEngine {
    /// The engine's invariant: the configuration is valid and no more pairs
    /// were kept than were seen.
    pub open spec fn wf(self) -> bool {
        config_wf(self.config) && self.kept_pairs <= self.total_pairs
    }

    /// A fresh engine with both counters at zero.
    pub fn new(config: FilterConfig) -> (r: PairFilterEngine)
        requires
            config_wf(config),
        ensures
            r.config == config,
            r.total_pairs == 0,
            r.kept_pairs == 0,
            r.wf(),
    {
        PairFilterEngine { config, total_pairs: 0, kept_pairs: 0 }
    }

    /// Processes one successfully read pair. On matching names the total
    /// counter rises by one and the kept counter rises exactly on acceptance;
    /// a name mismatch leaves both counters unchanged (the run aborts).
    pub fn process_pair(&mut self, r1: &RecordData, r2: &RecordData) -> (d: PairDecision)
        requires
            old(self).wf(),
            old(self).total_pairs < u64::MAX,
        ensures
            final(self).wf(),
            final(self).config == old(self).config,
            d == pair_decision_spec(*r1, *r2, old(self).config),
            d is Mismatch ==> final(self).total_pairs == old(self).total_pairs
                && final(self).kept_pairs == old(self).kept_pairs,
            !(d is Mismatch) ==> final(self).total_pairs == old(self).total_pairs + 1,
            d is Accept ==> final(self).kept_pairs == old(self).kept_pairs + 1,
            d is Reject ==> final(self).kept_pairs == old(self).kept_pairs,
    {
        let d = decide_pair(r1, r2, &self.config);
        match d {
            PairDecision::Mismatch => {},
            PairDecision::Accept => {
                self.total_pairs = self.total_pairs + 1;
                self.kept_pairs = self.kept_pairs + 1;
            },
            PairDecision::Reject => {
                self.total_pairs = self.total_pairs + 1;
            },
        }
        d
    }

    /// Pairs seen and rejected so far.
    pub fn removed_pairs(&self) -> (r: u64)
        requires
            self.wf(),
        ensures
            r == self.total_pairs - self.kept_pairs,
    {
        self.total_pairs - self.kept_pairs
    }

    /// Whether a periodic progress observation is due, checked by exact
    /// modulus on the total-pair counter.
    pub fn progress_due(&self) -> (r: bool)
        ensures
            r == (self.total_pairs > 0 && self.total_pairs % PROGRESS_INTERVAL == 0),
    {
        self.total_pairs > 0 && self.total_pairs % PROGRESS_INTERVAL == 0
    }
}

/// One item handed to the engine by the record source: a record that was read
/// successfully, or a failed read. End-of-stream is the end of the sequence.
pub enum StreamItem {
    Record(RecordData),
    ReadError,
}

/// How a run over a stream ended.
#[derive(Clone, Copy, PartialEq, Eq, Structural, Debug)]
pub enum RunStatus {
    /// The stream ended cleanly between pairs.
    CleanEnd,
    /// The stream ended after the first record of a pair: the trailing record
    /// is dropped with a warning and the run still counts as a success.
    UnpairedEnd,
    /// A record failed to read: the run stops there and still counts as a
    /// success with partial data.
    ErrorEnd,
    /// Two consecutive records carried different query names: the run aborts
    /// as a hard failure.
    MismatchAbort,
}

/// The model of a run over the suffix of `items` that starts at offset `i`:
/// the offsets of the first records of accepted pairs, the two counters, and
/// how the run ends.
pub ghost struct RunModel {
    pub accepted: Seq<int>,
    pub total: int,
    pub kept: int,
    pub status: RunStatus,
}

/// Runs the pair protocol over `items` from offset `i` on: records are taken
/// two at a time; a read error or a lone trailing record ends the run; a
/// name mismatch aborts it; otherwise the pair is counted and, when it passes,
/// accepted.
pub open spec fn run_model(items: Seq<StreamItem>, c: FilterConfig, i: int) -> RunModel
    decreases items.len() - i,
{
    if i < 0 || i >= items.len() {
        RunModel { accepted: Seq::empty(), total: 0, kept: 0, status: RunStatus::CleanEnd }
    } else if !(items[i] is Record) {
        RunModel { accepted: Seq::empty(), total: 0, kept: 0, status: RunStatus::ErrorEnd }
    } else if i + 1 >= items.len() {
        RunModel { accepted: Seq::empty(), total: 0, kept: 0, status: RunStatus::UnpairedEnd }
    } else if !(items[i + 1] is Record) {
        RunModel { accepted: Seq::empty(), total: 0, kept: 0, status: RunStatus::ErrorEnd }
    } else {
        let r1 = items[i]->Record_0;
        let r2 = items[i + 1]->Record_0;
        if r1.qname@ != r2.qname@ {
            RunModel {
                accepted: Seq::empty(),
                total: 0,
                kept: 0,
                status: RunStatus::MismatchAbort,
            }
        } else {
            let rest = run_model(items, c, i + 2);
            if pair_passes(r1, r2, c) {
                RunModel {
                    accepted: seq![i] + rest.accepted,
                    total: rest.total + 1,
                    kept: rest.kept + 1,
                    status: rest.status,
                }
            } else {
                RunModel {
                    accepted: rest.accepted,
                    total: rest.total + 1,
                    kept: rest.kept,
                    status: rest.status,
                }
            }
        }
    }
}

/// Counters and accepted offsets of a run model are consistent: one accepted
/// offset per kept pair, no more pairs than half the remaining items, and
/// every accepted offset points at the first record of a pair in range.
pub proof fn lemma_run_model_bounds(items: Seq<StreamItem>, c: FilterConfig, i: int)
    requires
        0 <= i <= items.len(),
    ensures
        run_model(items, c, i).accepted.len() == run_model(items, c, i).kept,
        0 <= run_model(items, c, i).kept <= run_model(items, c, i).total,
        2 * run_model(items, c, i).total + i <= items.len() + 1,
        forall|k: int| 0 <= k < run_model(items, c, i).accepted.len()
            ==> i <= #[trigger] run_model(items, c, i).accepted[k]
                && run_model(items, c, i).accepted[k] + 1 < items.len(),
    decreases items.len() - i,
{
    if 0 <= i && i + 1 < items.len() && items[i] is Record && items[i + 1] is Record
        && items[i]->Record_0.qname@ == items[i + 1]->Record_0.qname@ {
        lemma_run_model_bounds(items, c, i + 2);
    }
}

/// What the accepted offsets of a run mean: each one points at the first
/// record of a complete pair whose two records carry the same name and pass
/// the combined predicate, and the offsets are strictly increasing — accepted
/// pairs are emitted in the order they were read, mate-adjacent.
pub proof fn lemma_accepted_are_passing_pairs(items: Seq<StreamItem>, c: FilterConfig, i: int)
    requires
        0 <= i <= items.len(),
    ensures
        forall|k: int| #![trigger run_model(items, c, i).accepted[k]]
            0 <= k < run_model(items, c, i).accepted.len() ==> {
                let off = run_model(items, c, i).accepted[k];
                &&& i <= off && off + 1 < items.len()
                &&& items[off] is Record
                &&& items[off + 1] is Record
                &&& items[off]->Record_0.qname@ == items[off + 1]->Record_0.qname@
                &&& pair_passes(items[off]->Record_0, items[off + 1]->Record_0, c)
            },
        forall|k: int| #![trigger run_model(items, c, i).accepted[k]]
            0 <= k && k + 1 < run_model(items, c, i).accepted.len()
                ==> run_model(items, c, i).accepted[k] < run_model(items, c, i).accepted[k + 1],
    decreases items.len() - i,
{
    if 0 <= i && i + 1 < items.len() && items[i] is Record && items[i + 1] is Record
        && items[i]->Record_0.qname@ == items[i + 1]->Record_0.qname@ {
        lemma_accepted_are_passing_pairs(items, c, i + 2);
        lemma_run_model_bounds(items, c, i + 2);
    }
}

/// A mismatched pair aborts the run and keeps its records out of the output:
/// when the pair starting at offset `m` is the first whose two records carry
/// different names — every earlier pair is two successfully read records with
/// equal names — the run from `i` ends in `MismatchAbort`, and every accepted
/// offset lies before `m`: neither record of the offending pair, nor anything
/// after it, is ever emitted.
pub proof fn lemma_mismatch_aborts(items: Seq<StreamItem>, c: FilterConfig, i: int, m: int)
    requires
        0 <= i <= m,
        (m - i) % 2 == 0,
        m + 1 < items.len(),
        items[m] is Record,
        items[m + 1] is Record,
        items[m]->Record_0.qname@ != items[m + 1]->Record_0.qname@,
        forall|j: int| #![trigger items[j]]
            i <= j < m && (j - i) % 2 == 0 ==> items[j] is Record && items[j + 1] is Record
                && items[j]->Record_0.qname@ == items[j + 1]->Record_0.qname@,
    ensures
        run_model(items, c, i).status == RunStatus::MismatchAbort,
        forall|k: int| 0 <= k < run_model(items, c, i).accepted.len()
            ==> #[trigger] run_model(items, c, i).accepted[k] < m,
    decreases m - i,
{
    if i < m {
        assert(items[i] is Record && items[i + 1] is Record
            && items[i]->Record_0.qname@ == items[i + 1]->Record_0.qname@);
        lemma_mismatch_aborts(items, c, i + 2, m);
    }
}

/// A stream of an odd number of well-paired records processes every complete
/// pair and then ends with the trailing-unpaired warning: the run from `i`
/// ends in `UnpairedEnd` and counts exactly `(len - i - 1) / 2` pairs — the
/// completed pairs only, never the orphan.
pub proof fn lemma_odd_stream_unpaired_end(items: Seq<StreamItem>, c: FilterConfig, i: int)
    requires
        0 <= i <= items.len(),
        (items.len() - i) % 2 == 1,
        forall|j: int| i <= j < items.len() ==> #[trigger] items[j] is Record,
        forall|j: int| #![trigger items[j]]
            i <= j && j + 1 < items.len() && (j - i) % 2 == 0
                ==> items[j]->Record_0.qname@ == items[j + 1]->Record_0.qname@,
    ensures
        run_model(items, c, i).status == RunStatus::UnpairedEnd,
        2 * run_model(items, c, i).total == items.len() - i - 1,
    decreases items.len() - i,
{
    if i + 1 < items.len() {
        lemma_odd_stream_unpaired_end(items, c, i + 2);
    }
}

/// The result of one whole run: the offsets (into the input) of the first
/// records of the accepted pairs, the two counters, and how the run ended.
pub struct RunResult {
    pub accepted: Vec<usize>,
    pub total_pairs: u64,
    pub kept_pairs: u64,
    pub status: RunStatus,
}

/// Whether `r` reports exactly what the run model says of `items` under `c`.
pub open spec fn run_result_matches(r: RunResult, items: Seq<StreamItem>, c: FilterConfig)
    -> bool {
    let m = run_model(items, c, 0);
    &&& r.total_pairs == m.total
    &&& r.kept_pairs == m.kept
    &&& r.status == m.status
    &&& r.accepted@.len() == m.accepted.len()
    &&& (forall|k: int| 0 <= k < m.accepted.len() ==> #[trigger] r.accepted@[k] == m.accepted[k])
}

/// Idempotence of a run: the contract of `run_filter` pins every reported
/// field to the run model of the input and configuration, so two results of
/// the same input under the same configuration agree on the counters, the
/// status, and the accepted offsets — and equal accepted offsets into equal
/// input mean byte-identical output.
pub proof fn lemma_run_idempotent(
    items: Seq<StreamItem>,
    c: FilterConfig,
    a: RunResult,
    b: RunResult,
)
    requires
        run_result_matches(a, items, c),
        run_result_matches(b, items, c),
    ensures
        a.total_pairs == b.total_pairs,
        a.kept_pairs == b.kept_pairs,
        a.status == b.status,
        a.accepted@ == b.accepted@,
{
    assert(a.accepted@ =~= b.accepted@);
}

/// Runs the whole pair-filter protocol over an in-memory stream and reports
/// exactly what the run model prescribes.
pub fn run_filter(items: &Vec<StreamItem>, config: FilterConfig) -> (r: RunResult)
    requires
        config_wf(config),
    ensures
        run_result_matches(r, items@, config),
{
    let ghost m0 = run_model(items@, config, 0);
    let mut engine = PairFilterEngine::new(config);
    let mut accepted: Vec<usize> = Vec::new();
    let mut status = RunStatus::CleanEnd;
    let mut done: bool = false;
    let mut i: usize = 0;
    while !done
        invariant
            engine.wf(),
            engine.config == config,
            config_wf(config),
            m0 == run_model(items@, config, 0),
            i <= items@.len(),
            !done ==> ({
                let rest = run_model(items@, config, i as int);
                &&& m0.total == engine.total_pairs + rest.total
                &&& m0.kept == engine.kept_pairs + rest.kept
                &&& m0.status == rest.status
                &&& m0.accepted.len() == accepted@.len() + rest.accepted.len()
                &&& (forall|k: int| 0 <= k < accepted@.len()
                    ==> m0.accepted[k] == #[trigger] accepted@[k])
                &&& (forall|k: int| 0 <= k < rest.accepted.len()
                    ==> m0.accepted[accepted@.len() + k] == #[trigger] rest.accepted[k])
            }),
            done ==> ({
                &&& m0.total == engine.total_pairs
                &&& m0.kept == engine.kept_pairs
                &&& m0.status == status
                &&& m0.accepted.len() == accepted@.len()
                &&& (forall|k: int| 0 <= k < accepted@.len()
                    ==> m0.accepted[k] == #[trigger] accepted@[k])
            }),
        decreases items@.len() - i + (if done { 0int } else { 1 }),
    {
        let ghost rest = run_model(items@, config, i as int);
        proof {
            lemma_run_model_bounds(items@, config, 0);
            lemma_run_model_bounds(items@, config, i as int);
        }
        if i >= items.len() {
            status = RunStatus::CleanEnd;
            done = true;
        } else {
            match &items[i] {
                StreamItem::ReadError => {
                    status = RunStatus::ErrorEnd;
                    done = true;
                },
                StreamItem::Record(r1) => {
                    if i + 1 >= items.len() {
                        status = RunStatus::UnpairedEnd;
                        done = true;
                    } else {
                        match &items[i + 1] {
                            StreamItem::ReadError => {
                                status = RunStatus::ErrorEnd;
                                done = true;
                            },
                            StreamItem::Record(r2) => {
                                proof {
                                    lemma_run_model_bounds(items@, config, i + 2);
                                    assert(engine.total_pairs < u64::MAX);
                                }
                                let ghost rest2 = run_model(items@, config, i + 2);
                                let ghost acc_len = accepted@.len() as int;
                                let d = engine.process_pair(r1, r2);
                                match d {
                                    PairDecision::Mismatch => {
                                        status = RunStatus::MismatchAbort;
                                        done = true;
                                    },
                                    PairDecision::Accept => {
                                        proof {
                                            assert(rest.accepted == seq![i as int]
                                                + rest2.accepted);
                                            assert(m0.accepted[acc_len] == rest.accepted[0]);
                                            assert(rest.accepted[0] == i as int);
                                            assert forall|k: int| 0 <= k < rest2.accepted.len()
                                                implies m0.accepted[acc_len + 1 + k]
                                                    == #[trigger] rest2.accepted[k] by {
                                                assert(m0.accepted[acc_len + (1 + k)]
                                                    == rest.accepted[1 + k]);
                                                assert(rest.accepted[1 + k]
                                                    == rest2.accepted[k]);
                                            }
                                        }
                                        accepted.push(i);
                                        i = i + 2;
                                    },
                                    PairDecision::Reject => {
                                        proof {
                                            assert(rest.accepted == rest2.accepted);
                                        }
                                        i = i + 2;
                                    },
                                }
                            },
                        }
                    }
                },
            }
        }
    }
    RunResult {
        accepted,
        total_pairs: engine.total_pairs,
        kept_pairs: engine.kept_pairs,
        status,
    }
}

} // verus!
