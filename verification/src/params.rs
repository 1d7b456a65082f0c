//! Inputs of the storage operations.
//!
//! These are assembled by the outer request layer from validated user input;
//! the engine trusts that their fields are already range- and type-checked.

use vstd::prelude::*;

use crate::timestamp::SyncTimestamp;

verus! {

/// The opaque numeric user id, fully resolved by the outer auth layer.
#[derive(Clone, Copy, Debug, PartialEq, Eq, Structural)]
pub struct HawkIdentifier {
    pub legacy_id: u64,
}

/// How a page of BSOs is ordered.
#[derive(Clone, Copy, Debug, PartialEq, Eq, Structural)]
pub enum Sorting {
    /// No ordering requested: rows come in table order.
    Unsorted,
    /// By `sortindex`, highest first; rows without a `sortindex` come last.
    Index,
    /// By `modified`, newest first.
    Newest,
    /// By `modified`, oldest first.
    Oldest,
}

/// Filters, ordering and pagination for a BSO query.
pub struct BsoQueryParams {
    /// Keep only rows modified strictly after this timestamp.
    pub newer: Option<SyncTimestamp>,
    /// Keep only rows modified strictly before this timestamp.
    pub older: Option<SyncTimestamp>,
    /// Requested ordering.
    pub sort: Sorting,
    /// Page size; absent means unbounded.
    pub limit: Option<u32>,
    /// How many rows of the ordered result to skip.
    pub offset: Option<u64>,
    /// When non-empty, an allow-list of BSO ids.
    pub ids: Vec<String>,
}

/// The ghost value of a query: filters over plain mathematical types.
pub ghost struct QueryV {
    pub newer: Option<int>,
    pub older: Option<int>,
    pub sort: Sorting,
    pub limit: Option<u32>,
    pub offset: int,
    pub ids: Seq<Seq<char>>,
}

impl View for BsoQueryParams {
    type V = QueryV;

    open spec fn view(&self) -> QueryV {
        QueryV {
            newer: match self.newer {
                Some(t) => Some(t.as_int()),
                None => None,
            },
            older: match self.older {
                Some(t) => Some(t.as_int()),
                None => None,
            },
            sort: self.sort,
            limit: self.limit,
            offset: match self.offset {
                Some(o) => o as int,
                None => 0,
            },
            ids: self.ids@.map_values(|s: String| s@),
        }
    }
}

/// Identifies a collection to lock.
pub struct LockCollection {
    pub user_id: HawkIdentifier,
    pub collection: String,
}

/// Asks for a collection's last-modified timestamp.
pub struct GetCollectionTimestamp {
    pub user_id: HawkIdentifier,
    pub collection: String,
}

/// Asks for one BSO's last-modified timestamp.
pub struct GetBsoTimestamp {
    pub user_id: HawkIdentifier,
    pub collection: String,
    pub id: String,
}

/// Asks to delete a whole collection.
pub struct DeleteCollection {
    pub user_id: HawkIdentifier,
    pub collection: String,
}

/// A single-BSO upsert.
pub struct PutBso {
    pub user_id: HawkIdentifier,
    pub collection: String,
    pub id: String,
    /// When present, replaces the payload and bumps `modified`.
    pub payload: Option<String>,
    /// When present, replaces the sort index and bumps `modified`.
    pub sortindex: Option<i32>,
    /// When present, recomputes `expiry` without bumping `modified` by itself.
    pub ttl: Option<u32>,
}

impl PutBso {
    /// The upsert item this request carries.
    pub open spec fn item(&self) -> PostItemV {
        PostItemV {
            id: self.id@,
            payload: match self.payload {
                Some(p) => Some(p@),
                None => None,
            },
            sortindex: self.sortindex,
            ttl: self.ttl,
        }
    }
}

/// A page query over one collection.
pub struct GetBsos {
    pub user_id: HawkIdentifier,
    pub collection: String,
    pub params: BsoQueryParams,
}

/// A point lookup of one BSO.
pub struct GetBso {
    pub user_id: HawkIdentifier,
    pub collection: String,
    pub id: String,
}

/// A point delete of one BSO.
pub struct DeleteBso {
    pub user_id: HawkIdentifier,
    pub collection: String,
    pub id: String,
}

/// A bulk delete of BSOs by id.
pub struct DeleteBsos {
    pub user_id: HawkIdentifier,
    pub collection: String,
    pub ids: Vec<String>,
}

/// One item of a batch upsert.
pub struct PostCollectionBso {
    pub id: String,
    pub payload: Option<String>,
    pub sortindex: Option<i32>,
    pub ttl: Option<u32>,
}

/// The ghost value of a batch-upsert item.
pub ghost struct PostItemV {
    pub id: Seq<char>,
    pub payload: Option<Seq<char>>,
    pub sortindex: Option<i32>,
    pub ttl: Option<u32>,
}

impl View for PostCollectionBso {
    type V = PostItemV;

    open spec fn view(&self) -> PostItemV {
        PostItemV {
            id: self.id@,
            payload: match self.payload {
                Some(p) => Some(p@),
                None => None,
            },
            sortindex: self.sortindex,
            ttl: self.ttl,
        }
    }
}

/// A batch upsert: many items for one collection.
pub struct PostBsos {
    pub user_id: HawkIdentifier,
    pub collection: String,
    pub bsos: Vec<PostCollectionBso>,
    /// Items the outer layer already rejected, keyed by BSO id.
    pub failed: Vec<(String, String)>,
}

} // verus!
