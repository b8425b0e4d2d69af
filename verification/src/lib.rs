//! A byte-pair-encoding (BPE) trainer: it discovers, by iterative
//! frequency-driven merging, the ordered list of symbol-merge rules that
//! defines a subword tokenizer over a text corpus.

pub mod model;
pub mod word;
pub mod index;
pub mod splitter;
pub mod counter;
pub mod trainer;

use vstd::prelude::*;

verus! {

/// A failure of a training run.
#[derive(Debug, Clone, Copy, PartialEq, Eq, Structural)]
pub enum TrainError {
    /// An invalid split pattern, a zero target vocabulary size, or a zero
    /// batch size; reported before any corpus work starts.
    ConfigurationError,
    /// The corpus producer failed mid-stream; for callers that drive an
    /// external producer and abort the run on its failure.
    ProducerError,
    /// The match engine failed while scanning a chunk; fatal, since skipping
    /// a chunk would corrupt the frequency statistics.
    MatchEngineError,
    /// A pretoken count or the total weighted symbol count does not fit in
    /// 64 bits; a machine limit, reported rather than wrapped around.
    CorpusTooLarge,
    /// The pair index and the word table disagree. The consistency of the
    /// two is proved here, so no function of this crate constructs it.
    InvariantViolation,
}

/// The terminal state of the merge driver.
#[derive(Debug, Clone, Copy, PartialEq, Eq, Structural)]
pub enum TrainOutcome {
    /// The target vocabulary size was reached.
    Done,
    /// No adjacent pair was left to merge before the target was reached.
    Exhausted,
}

} // verus!
