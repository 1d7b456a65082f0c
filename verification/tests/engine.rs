//! End-to-end behaviour of the storage engine.

use syncstorage::params::{
    BsoQueryParams, DeleteBso, DeleteBsos, DeleteCollection, GetBso, GetBsos,
    GetBsoTimestamp, GetCollectionTimestamp, HawkIdentifier, PostBsos, PostCollectionBso, PutBso,
    Sorting,
};
use syncstorage::store::{CollectionLock, MysqlDb};
use syncstorage::{DbError, SyncTimestamp};

fn db_at(millis: i64) -> MysqlDb {
    MysqlDb::new(SyncTimestamp::from_i64(millis).unwrap())
}

fn uid(n: u64) -> HawkIdentifier {
    HawkIdentifier { legacy_id: n }
}

fn put(
    user: u64,
    coll: &str,
    id: &str,
    payload: Option<&str>,
    sortindex: Option<i32>,
    ttl: Option<u32>,
) -> PutBso {
    PutBso {
        user_id: uid(user),
        collection: coll.to_string(),
        id: id.to_string(),
        payload: payload.map(|p| p.to_string()),
        sortindex,
        ttl,
    }
}

fn query(sort: Sorting, limit: Option<u32>, offset: Option<u64>) -> BsoQueryParams {
    BsoQueryParams { newer: None, older: None, sort, limit, offset, ids: Vec::new() }
}

fn get_bsos(user: u64, coll: &str, q: BsoQueryParams) -> GetBsos {
    GetBsos { user_id: uid(user), collection: coll.to_string(), params: q }
}

#[test]
fn put_then_get_returns_latest_write() {
    let mut db = db_at(1000);
    db.put_bso_sync(put(1, "tabs", "a", Some("x"), None, None)).unwrap();
    db.set_timestamp(SyncTimestamp::from_i64(2000).unwrap());
    db.put_bso_sync(put(1, "tabs", "a", Some("y"), Some(7), None)).unwrap();
    let got = db
        .get_bso_sync(GetBso {
            user_id: uid(1),
            collection: "tabs".to_string(),
            id: "a".to_string(),
        })
        .unwrap()
        .unwrap();
    assert_eq!(got.payload, "y");
    assert_eq!(got.sortindex, Some(7));
    assert_eq!(got.modified.as_i64(), 2000);
}

#[test]
fn write_lock_conflict_when_clock_not_ahead() {
    let mut db = db_at(2000);
    db.put_bso_sync(put(1, "tabs", "a", Some("x"), None, None)).unwrap();
    db.commit_sync().ok();
    // The session clock equals the collection's modified timestamp: conflict.
    let r = db.lock_for_write_sync(syncstorage::params::LockCollection {
        user_id: uid(1),
        collection: "tabs".to_string(),
    });
    assert_eq!(r, Err(DbError::Conflict));
}

#[test]
fn write_lock_succeeds_when_clock_ahead_and_write_advances() {
    let mut db = db_at(1000);
    db.put_bso_sync(put(1, "tabs", "a", Some("x"), None, None)).unwrap();
    db.set_timestamp(SyncTimestamp::from_i64(2000).unwrap());
    let r = db.lock_for_write_sync(syncstorage::params::LockCollection {
        user_id: uid(1),
        collection: "tabs".to_string(),
    });
    assert_eq!(r, Ok(()));
    let t = db.put_bso_sync(put(1, "tabs", "a", Some("y"), None, None)).unwrap();
    assert_eq!(t.as_i64(), 2000);
    let coll_ts = db
        .get_collection_timestamp_sync(GetCollectionTimestamp {
            user_id: uid(1),
            collection: "tabs".to_string(),
        })
        .unwrap();
    assert!(coll_ts.as_i64() >= 1000);
}

#[test]
fn read_lock_then_write_lock_is_refused() {
    let mut db = db_at(1000);
    db.put_bso_sync(put(1, "tabs", "a", Some("x"), None, None)).unwrap();
    db.set_timestamp(SyncTimestamp::from_i64(2000).unwrap());
    let lock = syncstorage::params::LockCollection {
        user_id: uid(1),
        collection: "tabs".to_string(),
    };
    db.lock_for_read_sync(syncstorage::params::LockCollection {
        user_id: uid(1),
        collection: "tabs".to_string(),
    })
    .unwrap();
    assert_eq!(db.lock_for_write_sync(lock), Err(DbError::Internal));
}

#[test]
fn read_lock_is_idempotent_and_locks_missing_collection() {
    let mut db = db_at(1000);
    let mk = || syncstorage::params::LockCollection {
        user_id: uid(1),
        collection: "nowhere".to_string(),
    };
    assert_eq!(db.lock_for_read_sync(mk()), Ok(()));
    assert_eq!(db.lock_for_read_sync(mk()), Ok(()));
}

#[test]
fn pagination_two_pages() {
    let mut db = db_at(1000);
    for (id, idx) in [("a", 1), ("b", 2), ("c", 3)] {
        db.put_bso_sync(put(1, "tabs", id, Some("p"), Some(idx), None)).unwrap();
    }
    let page1 = db
        .get_bsos_sync(get_bsos(1, "tabs", query(Sorting::Oldest, Some(2), None)))
        .unwrap();
    assert_eq!(page1.items.len(), 2);
    assert_eq!(page1.offset, Some(2));
    let page2 = db
        .get_bsos_sync(get_bsos(1, "tabs", query(Sorting::Oldest, Some(2), Some(2))))
        .unwrap();
    assert_eq!(page2.items.len(), 1);
    assert_eq!(page2.offset, None);
    assert_eq!(page2.items[0].id, "c");
}

#[test]
fn delete_bsos_empty_set_still_touches() {
    let mut db = db_at(1000);
    db.put_bso_sync(put(1, "tabs", "a", Some("x"), None, None)).unwrap();
    db.set_timestamp(SyncTimestamp::from_i64(5000).unwrap());
    let t = db
        .delete_bsos_sync(DeleteBsos {
            user_id: uid(1),
            collection: "tabs".to_string(),
            ids: Vec::new(),
        })
        .unwrap();
    assert_eq!(t.as_i64(), 5000);
    let coll_ts = db
        .get_collection_timestamp_sync(GetCollectionTimestamp {
            user_id: uid(1),
            collection: "tabs".to_string(),
        })
        .unwrap();
    assert_eq!(coll_ts.as_i64(), 5000);
    // The row is still there.
    assert!(db
        .get_bso_sync(GetBso {
            user_id: uid(1),
            collection: "tabs".to_string(),
            id: "a".to_string(),
        })
        .unwrap()
        .is_some());
}

#[test]
fn expired_rows_are_invisible() {
    let mut db = db_at(1000);
    // ttl of 1 second: expiry = 1000 + 1000 = 2000.
    db.put_bso_sync(put(1, "tabs", "gone", Some("old"), None, Some(1))).unwrap();
    db.put_bso_sync(put(1, "tabs", "kept", Some("new"), None, None)).unwrap();
    db.set_timestamp(SyncTimestamp::from_i64(30_000).unwrap());
    // Point lookup misses it.
    assert!(db
        .get_bso_sync(GetBso {
            user_id: uid(1),
            collection: "tabs".to_string(),
            id: "gone".to_string(),
        })
        .unwrap()
        .is_none());
    // Pages never contain it.
    let page = db
        .get_bsos_sync(get_bsos(1, "tabs", query(Sorting::Newest, None, None)))
        .unwrap();
    assert_eq!(page.items.len(), 1);
    assert_eq!(page.items[0].id, "kept");
    // Aggregates do not count it.
    let usage = db.get_storage_usage_sync(uid(1)).unwrap();
    assert_eq!(usage, 3); // "new"
    let counts = db.get_collection_counts_sync(uid(1)).unwrap();
    assert_eq!(counts, vec![("tabs".to_string(), 1u64)]);
}

#[test]
fn end_to_end_scenario() {
    let mut db = db_at(1000);
    let t1 = db.put_bso_sync(put(7, "tabs", "a", Some("x"), None, None)).unwrap();
    assert_eq!(t1.as_i64(), 1000);
    let coll_ts = db
        .get_collection_timestamp_sync(GetCollectionTimestamp {
            user_id: uid(7),
            collection: "tabs".to_string(),
        })
        .unwrap();
    assert_eq!(coll_ts.as_i64(), t1.as_i64());
    db.set_timestamp(SyncTimestamp::from_i64(2500).unwrap());
    let t2 = db.put_bso_sync(put(7, "tabs", "a", Some("y"), None, None)).unwrap();
    assert!(t2.as_i64() > t1.as_i64());
    let got = db
        .get_bso_sync(GetBso {
            user_id: uid(7),
            collection: "tabs".to_string(),
            id: "a".to_string(),
        })
        .unwrap()
        .unwrap();
    assert_eq!(got.payload, "y");
    assert_eq!(got.modified.as_i64(), t2.as_i64());
    let storage_ts = db
        .delete_collection_sync(DeleteCollection {
            user_id: uid(7),
            collection: "tabs".to_string(),
        })
        .unwrap();
    assert_eq!(storage_ts.as_i64(), 0);
    let after = db.get_collection_timestamp_sync(GetCollectionTimestamp {
        user_id: uid(7),
        collection: "tabs".to_string(),
    });
    assert_eq!(after, Err(DbError::CollectionNotFound));
}

#[test]
fn ttl_alone_recomputes_expiry_without_clock_churn() {
    let mut db = db_at(1000);
    db.put_bso_sync(put(1, "tabs", "a", Some("x"), None, None)).unwrap();
    db.set_timestamp(SyncTimestamp::from_i64(4000).unwrap());
    db.put_bso_sync(put(1, "tabs", "a", None, None, Some(10))).unwrap();
    let got = db
        .get_bso_sync(GetBso {
            user_id: uid(1),
            collection: "tabs".to_string(),
            id: "a".to_string(),
        })
        .unwrap()
        .unwrap();
    // modified kept, expiry recomputed from the new clock.
    assert_eq!(got.modified.as_i64(), 1000);
    assert_eq!(got.expiry, 4000 + 10_000);
}

#[test]
fn sorting_modes() {
    let mut db = db_at(1000);
    db.put_bso_sync(put(1, "tabs", "noidx", Some("p"), None, None)).unwrap();
    db.set_timestamp(SyncTimestamp::from_i64(2000).unwrap());
    db.put_bso_sync(put(1, "tabs", "low", Some("p"), Some(1), None)).unwrap();
    db.set_timestamp(SyncTimestamp::from_i64(3000).unwrap());
    db.put_bso_sync(put(1, "tabs", "high", Some("p"), Some(9), None)).unwrap();

    let by_index = db
        .get_bsos_sync(get_bsos(1, "tabs", query(Sorting::Index, None, None)))
        .unwrap();
    let ids: Vec<&str> = by_index.items.iter().map(|b| b.id.as_str()).collect();
    assert_eq!(ids, vec!["high", "low", "noidx"]);

    let newest = db
        .get_bsos_sync(get_bsos(1, "tabs", query(Sorting::Newest, None, None)))
        .unwrap();
    let ids: Vec<&str> = newest.items.iter().map(|b| b.id.as_str()).collect();
    assert_eq!(ids, vec!["high", "low", "noidx"]);

    let oldest = db
        .get_bsos_sync(get_bsos(1, "tabs", query(Sorting::Oldest, None, None)))
        .unwrap();
    let ids: Vec<&str> = oldest.items.iter().map(|b| b.id.as_str()).collect();
    assert_eq!(ids, vec!["noidx", "low", "high"]);
}

#[test]
fn newer_older_bounds_are_exclusive() {
    let mut db = db_at(1000);
    db.put_bso_sync(put(1, "tabs", "a", Some("p"), None, None)).unwrap();
    db.set_timestamp(SyncTimestamp::from_i64(2000).unwrap());
    db.put_bso_sync(put(1, "tabs", "b", Some("p"), None, None)).unwrap();
    db.set_timestamp(SyncTimestamp::from_i64(3000).unwrap());
    db.put_bso_sync(put(1, "tabs", "c", Some("p"), None, None)).unwrap();

    let mut q = query(Sorting::Oldest, None, None);
    q.newer = Some(SyncTimestamp::from_i64(1000).unwrap());
    q.older = Some(SyncTimestamp::from_i64(3000).unwrap());
    let page = db.get_bsos_sync(get_bsos(1, "tabs", q)).unwrap();
    let ids: Vec<&str> = page.items.iter().map(|b| b.id.as_str()).collect();
    assert_eq!(ids, vec!["b"]);
}

#[test]
fn id_allow_list_filters() {
    let mut db = db_at(1000);
    for id in ["a", "b", "c"] {
        db.put_bso_sync(put(1, "tabs", id, Some("p"), None, None)).unwrap();
    }
    let mut q = query(Sorting::Oldest, None, None);
    q.ids = vec!["a".to_string(), "c".to_string()];
    let ids_page = db
        .get_bso_ids_sync(get_bsos(1, "tabs", q))
        .unwrap();
    assert_eq!(ids_page.items, vec!["a".to_string(), "c".to_string()]);
}

#[test]
fn delete_bso_missing_is_not_found() {
    let mut db = db_at(1000);
    db.put_bso_sync(put(1, "tabs", "a", Some("x"), None, None)).unwrap();
    let r = db.delete_bso_sync(DeleteBso {
        user_id: uid(1),
        collection: "tabs".to_string(),
        id: "zzz".to_string(),
    });
    assert_eq!(r, Err(DbError::BsoNotFound));
    let r2 = db.delete_bso_sync(DeleteBso {
        user_id: uid(1),
        collection: "tabs".to_string(),
        id: "a".to_string(),
    });
    assert!(r2.is_ok());
}

#[test]
fn missing_collection_is_collection_not_found() {
    let mut db = db_at(1000);
    let r = db.get_bsos_sync(get_bsos(1, "nothere", query(Sorting::Unsorted, None, None)));
    assert!(matches!(r, Err(DbError::CollectionNotFound)));
}

#[test]
fn post_bsos_applies_batch_under_one_touch() {
    let mut db = db_at(1000);
    let input = PostBsos {
        user_id: uid(1),
        collection: "bookmarks".to_string(),
        bsos: vec![
            PostCollectionBso {
                id: "one".to_string(),
                payload: Some("p1".to_string()),
                sortindex: None,
                ttl: None,
            },
            PostCollectionBso {
                id: "two".to_string(),
                payload: Some("p2".to_string()),
                sortindex: Some(3),
                ttl: None,
            },
        ],
        failed: vec![("bad".to_string(), "rejected upstream".to_string())],
    };
    let report = db.post_bsos_sync(input).unwrap();
    assert_eq!(report.modified.as_i64(), 1000);
    assert_eq!(report.success, vec!["one".to_string(), "two".to_string()]);
    assert_eq!(report.failed.len(), 1);
    assert_eq!(report.failed[0].0, "bad");
    let page = db
        .get_bsos_sync(get_bsos(1, "bookmarks", query(Sorting::Oldest, None, None)))
        .unwrap();
    assert_eq!(page.items.len(), 2);
}

#[test]
fn rollback_restores_tables() {
    let mut db = db_at(1000);
    db.put_bso_sync(put(1, "tabs", "a", Some("x"), None, None)).unwrap();
    db.set_timestamp(SyncTimestamp::from_i64(2000).unwrap());
    db.lock_for_write_sync(syncstorage::params::LockCollection {
        user_id: uid(1),
        collection: "tabs".to_string(),
    })
    .unwrap();
    db.put_bso_sync(put(1, "tabs", "b", Some("y"), None, None)).unwrap();
    db.rollback_sync().unwrap();
    assert!(db
        .get_bso_sync(GetBso {
            user_id: uid(1),
            collection: "tabs".to_string(),
            id: "b".to_string(),
        })
        .unwrap()
        .is_none());
    assert!(db
        .get_bso_sync(GetBso {
            user_id: uid(1),
            collection: "tabs".to_string(),
            id: "a".to_string(),
        })
        .unwrap()
        .is_some());
}

#[test]
fn commit_without_transaction_is_internal() {
    let mut db = db_at(1000);
    assert_eq!(db.commit_sync(), Err(DbError::Internal));
    assert_eq!(db.rollback_sync(), Err(DbError::Internal));
}

#[test]
fn lock_read_then_commit_releases_nothing_but_succeeds() {
    let mut db = db_at(1000);
    db.lock_for_read_sync(syncstorage::params::LockCollection {
        user_id: uid(1),
        collection: "tabs".to_string(),
    })
    .unwrap();
    assert_eq!(db.commit_sync(), Ok(()));
}

#[test]
fn bso_timestamp_defaults_to_zero() {
    let mut db = db_at(1000);
    db.put_bso_sync(put(1, "tabs", "a", Some("x"), None, None)).unwrap();
    let t = db
        .get_bso_timestamp_sync(GetBsoTimestamp {
            user_id: uid(1),
            collection: "tabs".to_string(),
            id: "missing".to_string(),
        })
        .unwrap();
    assert_eq!(t.as_i64(), 0);
}

#[test]
fn storage_and_collection_accounting() {
    let mut db = db_at(1000);
    db.put_bso_sync(put(1, "tabs", "a", Some("abcd"), None, None)).unwrap();
    db.put_bso_sync(put(1, "bookmarks", "b", Some("xy"), None, None)).unwrap();
    db.put_bso_sync(put(2, "tabs", "c", Some("zzzzzz"), None, None)).unwrap();
    assert_eq!(db.get_storage_usage_sync(uid(1)).unwrap(), 6);
    let mut usage = db.get_collection_usage_sync(uid(1)).unwrap();
    usage.sort();
    assert_eq!(
        usage,
        vec![("bookmarks".to_string(), 2u64), ("tabs".to_string(), 4u64)]
    );
    let ts = db.get_storage_timestamp_sync(uid(1)).unwrap();
    assert_eq!(ts.as_i64(), 1000);
    let stamps = db.get_collection_timestamps_sync(uid(1)).unwrap();
    assert_eq!(stamps.len(), 2);
}

#[test]
fn delete_storage_wipes_user_only() {
    let mut db = db_at(1000);
    db.put_bso_sync(put(1, "tabs", "a", Some("x"), None, None)).unwrap();
    db.put_bso_sync(put(2, "tabs", "b", Some("y"), None, None)).unwrap();
    db.delete_storage_sync(uid(1)).unwrap();
    assert_eq!(db.get_storage_usage_sync(uid(1)).unwrap(), 0);
    assert_eq!(db.get_storage_usage_sync(uid(2)).unwrap(), 1);
}

#[test]
fn delete_missing_collection_not_found() {
    let mut db = db_at(1000);
    db.put_bso_sync(put(1, "tabs", "a", Some("x"), None, None)).unwrap();
    // The collection exists but this user never wrote to it.
    let r = db.delete_collection_sync(DeleteCollection {
        user_id: uid(9),
        collection: "tabs".to_string(),
    });
    assert_eq!(r, Err(DbError::CollectionNotFound));
}

#[test]
fn collection_lock_modes_differ() {
    assert_ne!(CollectionLock::Read, CollectionLock::Write);
}

#[test]
fn error_messages_name_their_kind() {
    assert_eq!(DbError::Conflict.message(), "conflict updating collection");
    assert_eq!(DbError::CollectionNotFound.message(), "collection not found");
    assert_eq!(DbError::BsoNotFound.message(), "bso not found");
    assert_eq!(DbError::Internal.message(), "internal error");
}
