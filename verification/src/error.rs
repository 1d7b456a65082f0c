//! The error kinds the storage engine can report.

use vstd::prelude::*;

verus! {

/// Semantic error kinds, distinguishable by the outer protocol layer.
///
/// Conflicts and not-found conditions map to distinct protocol responses;
/// `Internal` marks invariant violations (a lock-escalation attempt, a
/// cache/name-resolution inconsistency) and is a server fault, not a client
/// error.
#[derive(Clone, Copy, Debug, PartialEq, Eq, Structural)]
pub enum DbError {
    /// The named collection does not exist.
    CollectionNotFound,
    /// The addressed BSO does not exist (or has expired).
    BsoNotFound,
    /// A write lock could not advance the collection's clock.
    Conflict,
    /// An internal invariant was violated.
    Internal,
}

impl DbError {
    /// The message reported for this error kind, for contracts.
    pub open spec fn message_view(self) -> Seq<char> {
        match self {
            DbError::CollectionNotFound => "collection not found"@,
            DbError::BsoNotFound => "bso not found"@,
            DbError::Conflict => "conflict updating collection"@,
            DbError::Internal => "internal error"@,
        }
    }

    /// A human-readable description of the error.
    pub fn message(&self) -> (r: String)
        ensures
            r@ == self.message_view(),
    {
        match self {
            DbError::CollectionNotFound => "collection not found".to_owned(),
            DbError::BsoNotFound => "bso not found".to_owned(),
            DbError::Conflict => "conflict updating collection".to_owned(),
            DbError::Internal => "internal error".to_owned(),
        }
    }
}

} // verus!
