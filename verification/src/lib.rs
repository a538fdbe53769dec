//! Reconstructs a chronological activity timeline for each pull request in a
//! repository from a paginated, schema-heterogeneous feed: a team-membership
//! index resolves each actor to the teams it belongs to, a cursor tracks
//! pagination against a target total, heterogeneous raw records are
//! normalized into typed events, and each pull request's event sequence is
//! sorted chronologically with derived inter-event delays.
pub mod cursor;
pub mod order;
pub mod pull_request;
pub mod teams;
pub mod time;

use vstd::prelude::*;

verus! {

/// Why processing of a record, or a page fetch, was aborted.
#[derive(Debug, PartialEq)]
pub enum BuildError {
    /// The paged data source failed or returned a malformed page.
    FetchFailed,
    /// A timeline item carried a kind tag that the schema does not know.
    UnrecognizedEventKind(String),
    /// A review carried a state string that the schema does not know.
    UnrecognizedReviewState(String),
    /// A required scalar field was absent from a raw record.
    MissingField(String),
    /// A timestamp string could not be parsed.
    InvalidTimestamp(String),
}

} // verus!
