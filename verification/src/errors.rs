//! Fatal error conditions of the search engine.
//!
//! Every operation of the engine is pure and deterministic, so no condition
//! here is retried: each one aborts the enclosing run.

use vstd::prelude::*;

verus! {

/// The reasons a search run can fail.
#[derive(Clone, Copy, Debug, PartialEq, Eq, Structural)]
pub enum SearchError {
    /// The run configuration is unusable: zero workers, or an expansion size
    /// that cannot fit in the remaining universe. Surfaced before any round.
    InvalidConfig,
    /// The indexer was asked to unrank a rank outside `[0, C(n, k))`, or to
    /// rank a sequence that is not a combination of the universe.
    OutOfRange,
    /// A binomial coefficient exceeds the representable range.
    Overflow,
    /// The injected scoring function declined a candidate.
    ScorerFailure,
}

} // verus!
