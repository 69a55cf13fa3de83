//! The shared accumulator of completed analyses, the queue of pending work,
//! and the sequential driver that feeds every discovered file through both.
use vstd::prelude::*;

use crate::stats::{analysis_matches_input, analyze_input, wf_analyses, FileAnalysis, FileInput};

verus! {

/// The collection of completed analyses plus a completion counter. The
/// counter always equals the number of recorded entries, so no work item is
/// lost or double-counted.
pub struct Aggregate {
    pub entries: Vec<FileAnalysis>,
    pub completed: usize,
}

impl Aggregate {
    /// The counter and the entry list agree.
    pub open spec fn wf(self) -> bool {
        self.completed == self.entries@.len()
    }

    /// Makes an empty aggregate.
    pub fn new() -> (agg: Aggregate)
        ensures
            agg.wf(),
            agg.entries@ =~= Seq::<FileAnalysis>::empty(),
            agg.completed == 0,
    {
        Aggregate { entries: Vec::new(), completed: 0 }
    }

    /// Records one completed analysis: appends it and advances the counter.
    pub fn record(&mut self, analysis: FileAnalysis)
        requires
            old(self).wf(),
            old(self).entries@.len() < usize::MAX,
        ensures
            final(self).wf(),
            final(self).entries@ == old(self).entries@.push(analysis),
            final(self).completed == old(self).completed + 1,
    {
        self.entries.push(analysis);
        self.completed += 1;
    }

    /// Reads the completion counter.
    pub fn progress(&self) -> (p: usize)
        ensures
            p == self.completed,
    {
        self.completed
    }
}

/// The queue of pending work: file paths taken in the order they were
/// submitted, each consumed exactly once.
pub struct WorkQueue {
    pub pending: Vec<String>,
}

impl WorkQueue {
    /// Makes an empty queue.
    pub fn new() -> (q: WorkQueue)
        ensures
            q.pending@ =~= Seq::<String>::empty(),
    {
        WorkQueue { pending: Vec::new() }
    }

    /// Enqueues one file path without blocking.
    pub fn submit(&mut self, path: String)
        requires
            old(self).pending@.len() < usize::MAX,
        ensures
            final(self).pending@ == old(self).pending@.push(path),
    {
        self.pending.push(path);
    }

    /// Takes the oldest pending path, or `None` when the queue is drained.
    pub fn take(&mut self) -> (r: Option<String>)
        ensures
            match r {
                Some(path) => old(self).pending@.len() > 0 && path == old(self).pending@[0]
                    && final(self).pending@ == old(self).pending@.drop_first(),
                None => old(self).pending@.len() == 0 && final(self).pending@ == old(
                    self,
                ).pending@,
            },
    {
        if self.pending.len() == 0 {
            None
        } else {
            let path = self.pending.remove(0);
            proof {
                assert(self.pending@ =~= old(self).pending@.drop_first());
            }
            Some(path)
        }
    }
}

/// Feeds every unit of work through the analyzer and records each result:
/// the drained aggregate holds exactly one entry per submitted file, in
/// submission order, and a failed read contributes its all-zero record
/// without stopping the rest. An empty input set yields an empty aggregate.
pub fn run_pipeline(inputs: &Vec<FileInput>) -> (agg: Aggregate)
    ensures
        agg.wf(),
        agg.entries@.len() == inputs@.len(),
        forall|i: int|
            0 <= i < inputs@.len() ==> analysis_matches_input(
                #[trigger] agg.entries@[i],
                inputs@[i],
            ),
        wf_analyses(agg.entries@),
{
    let mut agg = Aggregate::new();
    let mut i: usize = 0;
    while i < inputs.len()
        invariant
            i <= inputs@.len(),
            agg.wf(),
            agg.entries@.len() == i,
            forall|j: int|
                0 <= j < i ==> analysis_matches_input(#[trigger] agg.entries@[j], inputs@[j]),
        decreases inputs@.len() - i,
    {
        let analysis = analyze_input(&inputs[i]);
        agg.record(analysis);
        i += 1;
    }
    agg
}

} // verus!
