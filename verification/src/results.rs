//! Outputs of the storage operations, consumed by the outer API layer.

use vstd::prelude::*;

use crate::rows::BsoV;
use crate::timestamp::SyncTimestamp;

verus! {

/// The collection timestamp an upsert produced.
pub type PutBso = SyncTimestamp;

/// The collection timestamp a point delete produced.
pub type DeleteBso = SyncTimestamp;

/// The collection timestamp a bulk delete produced.
pub type DeleteBsos = SyncTimestamp;

/// The maximum `modified` across all of a user's collections.
pub type GetStorageTimestamp = SyncTimestamp;

/// A collection's last-modified timestamp.
pub type GetCollectionTimestamp = SyncTimestamp;

/// A BSO's last-modified timestamp (zero when the BSO does not exist).
pub type GetBsoTimestamp = SyncTimestamp;

/// Each of a user's collections with its last-modified timestamp.
pub type GetCollectionTimestamps = Vec<(String, SyncTimestamp)>;

/// The sum of live payload byte-lengths for a user.
pub type GetStorageUsage = u64;

/// Live payload byte-lengths for a user, grouped by collection name.
pub type GetCollectionUsage = Vec<(String, u64)>;

/// Live row counts for a user, grouped by collection name.
pub type GetCollectionCounts = Vec<(String, u64)>;

/// One BSO as a query returns it.
pub struct GetBso {
    pub id: String,
    pub modified: SyncTimestamp,
    pub payload: String,
    pub sortindex: Option<i32>,
    pub expiry: i64,
}

/// Ghost value of a returned BSO.
pub ghost struct GetBsoV {
    pub id: Seq<char>,
    pub modified: int,
    pub payload: Seq<char>,
    pub sortindex: Option<i32>,
    pub expiry: int,
}

impl View for GetBso {
    type V = GetBsoV;

    open spec fn view(&self) -> GetBsoV {
        GetBsoV {
            id: self.id@,
            modified: self.modified.as_int(),
            payload: self.payload@,
            sortindex: self.sortindex,
            expiry: self.expiry as int,
        }
    }
}

/// What a stored row looks like when returned.
pub open spec fn returned_bso(b: BsoV) -> GetBsoV {
    GetBsoV {
        id: b.id,
        modified: b.modified,
        payload: b.payload,
        sortindex: b.sortindex,
        expiry: b.expiry,
    }
}

/// A page of BSOs, and the offset of the next page when rows remain.
pub struct GetBsos {
    pub items: Vec<GetBso>,
    pub offset: Option<u64>,
}

/// A page of BSO ids, and the offset of the next page when rows remain.
pub struct GetBsoIds {
    pub items: Vec<String>,
    pub offset: Option<u64>,
}

/// The report of a batch upsert: which items were applied, which failed
/// (keyed by BSO id), and the collection timestamp stamped on the batch.
pub struct PostBsos {
    pub modified: SyncTimestamp,
    pub success: Vec<String>,
    pub failed: Vec<(String, String)>,
}

} // verus!
