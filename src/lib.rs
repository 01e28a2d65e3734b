//! Score aggregation and leaderboard engine for judged competitions.
use vstd::prelude::*;

pub mod aggregate;
pub mod leaderboard;
pub mod model;
pub mod normalize;
pub mod records;
pub mod report;
pub mod sync;

verus! {

/// Failure conditions reported by the scoring core.
#[derive(Debug, Clone, Copy, PartialEq, Eq, Structural)]
pub enum ScoreError {
    /// A referenced event, category or candidate is absent from the snapshot.
    NotFound,
    /// The data store could not complete a read or a write.
    StorageFailure,
}

} // verus!
