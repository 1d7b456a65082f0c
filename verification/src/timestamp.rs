//! The logical clock used to stamp all writes.
//!
//! A `SyncTimestamp` is a count of milliseconds since the epoch. It is the
//! authoritative ordering device of the store: within one session the
//! timestamp used to stamp writes never decreases, and a write into a
//! collection must use a timestamp strictly greater than that collection's
//! previously observed `modified` value.

use vstd::prelude::*;

use crate::error::DbError;

verus! {

/// A non-negative millisecond count used as a logical clock.
#[derive(Clone, Copy, Debug, PartialEq, Eq, Structural)]
pub struct SyncTimestamp {
    pub millis: i64,
}

impl SyncTimestamp {
    /// The timestamp's integer value, for contracts.
    pub open spec fn as_int(self) -> int {
        self.millis as int
    }

    /// A timestamp is valid when its count is non-negative.
    pub open spec fn valid(self) -> bool {
        self.millis >= 0
    }

    /// The zero timestamp: earlier than (or equal to) every valid timestamp.
    pub fn zero() -> (r: SyncTimestamp)
        ensures
            r.as_int() == 0,
            r.valid(),
    {
        SyncTimestamp { millis: 0 }
    }

    /// Wraps a raw millisecond count, rejecting negative values.
    pub fn from_i64(val: i64) -> (r: Result<SyncTimestamp, DbError>)
        ensures
            val >= 0 ==> (r matches Ok(t) && t.as_int() == val && t.valid()),
            val < 0 ==> (r matches Err(e) && e == DbError::Internal),
    {
        if val >= 0 {
            Ok(SyncTimestamp { millis: val })
        } else {
            Err(DbError::Internal)
        }
    }

    /// The raw millisecond count.
    pub fn as_i64(self) -> (r: i64)
        ensures
            r == self.as_int(),
    {
        self.millis
    }
}

} // verus!
