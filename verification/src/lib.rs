//! A batch engine that searches the space of fixed-size category subsets for
//! the subsets that maximize an injected scoring function.
//!
//! The engine unranks combination indices directly (no sequential stepping),
//! splits the index space evenly over a bounded worker pool, keeps the K
//! highest-scoring candidates in a bounded collector whose merge is safe in
//! any order, and refines results over successive expansion rounds.

pub mod binomial;
pub mod catalog;
pub mod driver;
pub mod errors;
pub mod executor;
pub mod indexer;
pub mod partition;
pub mod seqs;
pub mod topk;
