//! The processor: owns the session counter and the verbosity flag, and
//! produces one result record per `process` call.

use vstd::prelude::*;
use crate::errors::RunError;
use crate::record::ProcessData;
use crate::record::ProcessResult;
use crate::record::ResultModel;
use crate::record::consistent_model;
use crate::record::message_chars;
use crate::record::success_message;
use crate::time::now_rfc3339;
use crate::time::rfc3339_char;

verus! {

/// Owns mutable session state: a monotonically increasing counter of
/// processed items and an immutable verbosity flag.
#[derive(Debug)]
pub struct GasOptimizerProcessor {
    /// Verbose mode flag, fixed at construction.
    pub verbose: bool,
    /// Number of items processed since construction.
    pub processed_count: usize,
}

/// A read-only snapshot of the processor's state.
#[derive(Debug, Clone, Copy, PartialEq, Eq)]
pub struct ProcessorStats {
    /// Number of items processed so far.
    pub processed_count: usize,
    /// The verbosity flag the processor was built with.
    pub verbose: bool,
}

/// What a snapshot must report of a processor's state.
pub open spec fn stats_of(p: GasOptimizerProcessor, s: ProcessorStats) -> bool {
    &&& s.processed_count == p.processed_count
    &&& s.verbose == p.verbose
}

/// Everything one `process` call does: it advances the counter by exactly
/// one and returns a successful record whose message and payload both carry
/// the advanced count as the item's sequence number, and whose payload
/// reports the input's length in Unicode scalar values and a nonempty
/// completion timestamp spelled with RFC 3339 characters.
pub open spec fn process_step(
    pre: GasOptimizerProcessor,
    post: GasOptimizerProcessor,
    rec: ResultModel,
    input_len: nat,
) -> bool {
    &&& post.verbose == pre.verbose
    &&& post.processed_count == pre.processed_count + 1
    &&& rec.success == true
    &&& rec.message == message_chars((pre.processed_count + 1) as nat)
    &&& rec.data matches Some(d)
        && d.length == input_len
        && d.item_number == pre.processed_count + 1
        && d.processed_at.len() > 0
        && (forall|i: int| 0 <= i < d.processed_at.len() ==> rfc3339_char(
            #[trigger] d.processed_at[i],
        ))
}

impl GasOptimizerProcessor {
    /// Creates a fresh processor: nothing processed yet.
    pub fn new(verbose: bool) -> (p: Self)
        ensures
            p.verbose == verbose,
            p.processed_count == 0,
    {
        Self { verbose, processed_count: 0 }
    }

    /// Processes one input: advances the counter and returns the record
    /// describing the outcome. Total over its input domain — it always
    /// succeeds in the current contract.
    pub fn process(&mut self, data: &str) -> (r: Result<ProcessResult, RunError>)
        requires
            old(self).processed_count < usize::MAX,
        ensures
            r matches Ok(rec) && process_step(*old(self), *final(self), rec@, data@.len()),
            r matches Ok(rec) && consistent_model(rec@),
    {
        self.processed_count = self.processed_count + 1;
        let length = data.unicode_len();
        let message = success_message(self.processed_count);
        let processed_at = now_rfc3339();
        let record = ProcessResult {
            success: true,
            message,
            data: Some(ProcessData { length, processed_at, item_number: self.processed_count }),
        };
        Ok(record)
    }

    /// Returns a read-only snapshot of the current state. Pure: it neither
    /// mutates the processor nor depends on anything but its fields, so two
    /// snapshots taken without a `process` call in between are identical.
    pub fn get_stats(&self) -> (s: ProcessorStats)
        ensures
            stats_of(*self, s),
    {
        ProcessorStats { processed_count: self.processed_count, verbose: self.verbose }
    }
}

/// Snapshots are idempotent: any two snapshots of the same processor state
/// are equal in all fields.
pub proof fn lemma_stats_idempotent(p: GasOptimizerProcessor, s1: ProcessorStats, s2: ProcessorStats)
    requires
        stats_of(p, s1),
        stats_of(p, s2),
    ensures
        s1 == s2,
{
}

/// In a chain of `process` steps from a fresh processor, the counter after
/// `j` steps is exactly `j`.
proof fn lemma_count_after(
    states: Seq<GasOptimizerProcessor>,
    recs: Seq<ResultModel>,
    lens: Seq<nat>,
    j: int,
)
    requires
        states.len() == recs.len() + 1,
        lens.len() == recs.len(),
        states[0].processed_count == 0,
        forall|k: int| 0 <= k < recs.len()
            ==> process_step(states[k], states[k + 1], #[trigger] recs[k], lens[k]),
        0 <= j <= recs.len(),
    ensures
        states[j].processed_count == j,
    decreases j,
{
    if j > 0 {
        lemma_count_after(states, recs, lens, j - 1);
        assert(process_step(states[j - 1], states[j], recs[j - 1], lens[j - 1]));
    }
}

/// Calling `process` n times on a fresh processor drives the counter to n,
/// and the k-th call's record carries sequence number k (1-indexed).
pub proof fn lemma_sequence_numbers(
    states: Seq<GasOptimizerProcessor>,
    recs: Seq<ResultModel>,
    lens: Seq<nat>,
)
    requires
        states.len() == recs.len() + 1,
        lens.len() == recs.len(),
        states[0].processed_count == 0,
        forall|k: int| 0 <= k < recs.len()
            ==> process_step(states[k], states[k + 1], #[trigger] recs[k], lens[k]),
    ensures
        states[recs.len() as int].processed_count == recs.len(),
        forall|k: int| 0 <= k < recs.len()
            ==> ((#[trigger] recs[k]).data matches Some(d) && d.item_number == k + 1),
        forall|k: int| 0 <= k < recs.len()
            ==> (#[trigger] recs[k]).message == message_chars((k + 1) as nat),
{
    lemma_count_after(states, recs, lens, recs.len() as int);
    assert forall|k: int| 0 <= k < recs.len() implies ((#[trigger] recs[k]).data matches Some(
        d,
    ) && d.item_number == k + 1) && (#[trigger] recs[k]).message == message_chars(
        (k + 1) as nat,
    ) by {
        lemma_count_after(states, recs, lens, k);
        assert(process_step(states[k], states[k + 1], recs[k], lens[k]));
    }
}

} // verus!
