//! The per-session storage engine.
//!
//! A `MysqlDb` value is one session: the three tables, the session's
//! logical clock, its lock table and modified-timestamp cache, and the
//! read-through collection-name cache. Cross-session concurrency is
//! arbitrated by per-collection row locks; within one session every
//! operation is serial, which is what this type models.
//!
//! Transactions begin on first lock acquisition and end at an explicit
//! commit or rollback; a rollback restores the tables to their state at
//! the transaction's start.

use vstd::prelude::*;

use crate::cache::CollectionCache;
use crate::error::DbError;
use crate::params;
use crate::results;
use crate::rows::{apply_put, lemma_apply_put, new_bso_v, updated_bso_v, compute_expiry,
    DEFAULT_BSO_TTL};
use crate::rows::{delete_bsos_v, delete_coll_bsos, delete_uc, delete_user_bsos, delete_user_ucs,
    lemma_keep_all, lemma_keep_shorter, storage_max};
use crate::rows::{apply_put_all, bso_live_match, filter_bsos, live_coll_count, live_coll_usage,
    live_usage, next_offset_of, page_of, sort_bsos, user_ucs};
use crate::params::PostItemV;
use crate::rows::{
    apply_touch, coll_id_by_name, coll_name_by_id, colls_wf, has_coll_id, has_coll_name, has_uc,
    keep, lemma_apply_touch, lemma_keep_contains, lemma_keep_unique_by, uc_index, uc_key,
    uc_match, uc_modified, ucs_unique, unique_by, bso_index, bso_key, bso_match, bsos_unique,
    has_bso, has_coll_bso, has_live_bso, has_live_coll, Bso, BsoV, Collection, CollectionV,
    UserCollection, UserCollectionV,
};
use crate::timestamp::SyncTimestamp;
use vstd::string::StringSliceAdditionalSpecFns;

verus! {

/// The mode of a held collection lock.
///
/// `Read` is shared, `Write` exclusive. Escalating `Read` to `Write`
/// within one session is an error.
#[derive(Clone, Copy, Debug, PartialEq, Eq, Structural)]
pub enum CollectionLock {
    Read,
    Write,
}

/// One entry of the session's lock table.
#[derive(Clone, Copy)]
pub struct LockEntry {
    pub user_id: u64,
    pub collection_id: i32,
    pub mode: CollectionLock,
}

/// Ghost value of a lock-table entry.
pub ghost struct LockEntryV {
    pub user_id: int,
    pub collection_id: int,
    pub mode: CollectionLock,
}

impl View for LockEntry {
    type V = LockEntryV;

    open spec fn view(&self) -> LockEntryV {
        LockEntryV {
            user_id: self.user_id as int,
            collection_id: self.collection_id as int,
            mode: self.mode,
        }
    }
}

/// The entry belongs to this (user, collection) pair.
pub open spec fn lock_match(e: LockEntryV, user: int, coll: int) -> bool {
    e.user_id == user && e.collection_id == coll
}

/// A lock for this pair is held.
pub open spec fn has_lock(s: Seq<LockEntryV>, user: int, coll: int) -> bool {
    exists|i: int| 0 <= i < s.len() && lock_match(s[i], user, coll)
}

/// The position of the pair's entry.
pub open spec fn lock_index(s: Seq<LockEntryV>, user: int, coll: int) -> int {
    choose|i: int| 0 <= i < s.len() && lock_match(s[i], user, coll)
}

/// The mode of the held lock.
pub open spec fn lock_mode_of(s: Seq<LockEntryV>, user: int, coll: int) -> CollectionLock {
    s[lock_index(s, user, coll)].mode
}

/// At most one entry per pair.
pub open spec fn locks_unique(s: Seq<LockEntryV>) -> bool {
    unique_by(s, |e: LockEntryV| (e.user_id, e.collection_id))
}

/// The lock table after recording a lock: updated in place or appended.
pub open spec fn apply_lock(s: Seq<LockEntryV>, user: int, coll: int, mode: CollectionLock) -> Seq<
    LockEntryV,
> {
    let e = LockEntryV { user_id: user, collection_id: coll, mode };
    if has_lock(s, user, coll) {
        s.update(lock_index(s, user, coll), e)
    } else {
        s.push(e)
    }
}

/// What recording a lock does: the pair now holds `mode`, other pairs are
/// untouched.
pub proof fn lemma_apply_lock(s: Seq<LockEntryV>, user: int, coll: int, mode: CollectionLock)
    requires
        locks_unique(s),
    ensures
        ({
            let t = apply_lock(s, user, coll, mode);
            &&& locks_unique(t)
            &&& has_lock(t, user, coll)
            &&& lock_mode_of(t, user, coll) == mode
            &&& forall|uu: int, cc: int|
                #![trigger has_lock(t, uu, cc)]
                #![trigger has_lock(s, uu, cc)]
                !(uu == user && cc == coll) ==> (has_lock(t, uu, cc) <==> has_lock(s, uu, cc))
            &&& forall|uu: int, cc: int|
                #![trigger lock_mode_of(t, uu, cc)]
                #![trigger lock_mode_of(s, uu, cc)]
                #![trigger has_lock(s, uu, cc)]
                !(uu == user && cc == coll) && has_lock(s, uu, cc) ==> lock_mode_of(t, uu, cc)
                    == lock_mode_of(s, uu, cc)
        }),
{
    let e = LockEntryV { user_id: user, collection_id: coll, mode };
    let t = apply_lock(s, user, coll, mode);
    let key = |x: LockEntryV| (x.user_id, x.collection_id);
    if has_lock(s, user, coll) {
        let i0 = lock_index(s, user, coll);
        assert(0 <= i0 < s.len() && lock_match(s[i0], user, coll));
        assert(forall|j: int|
            0 <= j < s.len() && lock_match(s[j], user, coll) ==> j == i0);
        assert(t[i0] == e);
        assert(forall|j: int|
            0 <= j < t.len() && lock_match(t[j], user, coll) ==> j == i0);
        assert(lock_index(t, user, coll) == i0);
        assert forall|i: int, j: int| 0 <= i < j < t.len() implies key(t[i]) != key(t[j]) by {
            assert(key(t[i]) == key(s[i]));
            assert(key(t[j]) == key(s[j]));
        }
        assert forall|uu: int, cc: int|
            #![trigger has_lock(s, uu, cc)]
            !(uu == user && cc == coll) && has_lock(s, uu, cc) implies has_lock(t, uu, cc)
            && lock_mode_of(t, uu, cc) == lock_mode_of(s, uu, cc) by {
            let k = lock_index(s, uu, cc);
            assert(k != i0);
            assert(lock_match(t[k], uu, cc));
            let k2 = lock_index(t, uu, cc);
            assert(lock_match(t[k2], uu, cc));
            assert(k2 != i0);
            assert(lock_match(s[k2], uu, cc));
            assert(k2 == k);
        }
        assert forall|uu: int, cc: int|
            #![trigger has_lock(t, uu, cc)]
            !(uu == user && cc == coll) && has_lock(t, uu, cc) implies has_lock(s, uu, cc) by {
            let k = lock_index(t, uu, cc);
            assert(k != i0);
            assert(lock_match(s[k], uu, cc));
        }
    } else {
        assert(t == s.push(e));
        assert(forall|i: int| 0 <= i < s.len() ==> #[trigger] t[i] == s[i]);
        assert(t[s.len() as int] == e);
        assert(forall|j: int|
            0 <= j < s.len() ==> !lock_match(s[j], user, coll));
        assert(forall|j: int|
            0 <= j < t.len() && lock_match(t[j], user, coll) ==> j == s.len());
        assert(lock_index(t, user, coll) == s.len());
        assert forall|i: int, j: int| 0 <= i < j < t.len() implies key(t[i]) != key(t[j]) by {
            if j == s.len() {
                assert(!lock_match(s[i], user, coll));
                assert(key(t[j]) == (user, coll));
            } else {
                assert(key(t[i]) == key(s[i]));
                assert(key(t[j]) == key(s[j]));
            }
        }
        assert forall|uu: int, cc: int|
            #![trigger has_lock(s, uu, cc)]
            !(uu == user && cc == coll) && has_lock(s, uu, cc) implies has_lock(t, uu, cc)
            && lock_mode_of(t, uu, cc) == lock_mode_of(s, uu, cc) by {
            let k = lock_index(s, uu, cc);
            assert(lock_match(t[k], uu, cc));
            let k2 = lock_index(t, uu, cc);
            assert(lock_match(t[k2], uu, cc));
            assert(k2 != s.len());
            assert(lock_match(s[k2], uu, cc));
            assert(k2 == k);
        }
        assert forall|uu: int, cc: int|
            #![trigger has_lock(t, uu, cc)]
            !(uu == user && cc == coll) && has_lock(t, uu, cc) implies has_lock(s, uu, cc) by {
            let k = lock_index(t, uu, cc);
            assert(k != s.len());
            assert(lock_match(s[k], uu, cc));
        }
    }
}

/// Per-session state: the logical clock, the modified timestamps learned
/// under lock this session, and the locks held.
pub struct Session {
    pub timestamp: SyncTimestamp,
    pub coll_modified_cache: Vec<UserCollection>,
    pub coll_locks: Vec<LockEntry>,
}

/// The tables (and the name cache fed from them) as they stood when the
/// open transaction began.
pub struct Snapshot {
    pub collections: Vec<Collection>,
    pub next_collection_id: i32,
    pub user_collections: Vec<UserCollection>,
    pub bsos: Vec<Bso>,
    pub coll_cache: CollectionCache,
}

/// Ghost view of a sequence of collection rows.
pub open spec fn colls_view(v: Vec<Collection>) -> Seq<CollectionV> {
    v@.map_values(|c: Collection| c@)
}

/// Ghost view of a sequence of user-collection rows.
pub open spec fn ucs_view(v: Vec<UserCollection>) -> Seq<UserCollectionV> {
    v@.map_values(|r: UserCollection| r@)
}

/// Ghost view of a sequence of BSO rows.
pub open spec fn bsos_view(v: Vec<Bso>) -> Seq<BsoV> {
    v@.map_values(|b: Bso| b@)
}

/// Ghost view of a lock table.
pub open spec fn locks_view(v: Vec<LockEntry>) -> Seq<LockEntryV> {
    v@.map_values(|e: LockEntry| e@)
}

impl Snapshot {
    /// Ghost view of the snapshot's collections table.
    pub open spec fn colls(&self) -> Seq<CollectionV> {
        colls_view(self.collections)
    }

    /// Ghost view of the snapshot's id generator.
    pub open spec fn next_id(&self) -> int {
        self.next_collection_id as int
    }

    /// Ghost view of the snapshot's user_collections table.
    pub open spec fn ucols(&self) -> Seq<UserCollectionV> {
        ucs_view(self.user_collections)
    }

    /// Ghost view of the snapshot's bso table.
    pub open spec fn bsos_v(&self) -> Seq<BsoV> {
        bsos_view(self.bsos)
    }
}

/// Every cache entry is confirmed by the collections table.
pub open spec fn cache_ok(cache: Seq<CollectionV>, colls: Seq<CollectionV>) -> bool {
    forall|i: int| 0 <= i < cache.len() ==> colls.contains(#[trigger] cache[i])
}

/// Well-formedness of a table state: unique keys, valid timestamps, and
/// every referenced collection id present in the collections table.
pub open spec fn table_state_wf(
    colls: Seq<CollectionV>,
    next: int,
    ucols: Seq<UserCollectionV>,
    bsos: Seq<BsoV>,
) -> bool {
    &&& colls_wf(colls, next)
    &&& 1 <= next <= i32::MAX as int
    &&& ucs_unique(ucols)
    &&& forall|i: int|
        0 <= i < ucols.len() ==> (#[trigger] ucols[i]).modified >= 0 && has_coll_id(
            colls,
            ucols[i].collection_id,
        )
    &&& bsos_unique(bsos)
    &&& forall|i: int|
        0 <= i < bsos.len() ==> (#[trigger] bsos[i]).modified >= 0 && bsos[i].expiry >= 0
            && has_coll_id(colls, bsos[i].collection_id)
}

/// A collection name either already exists or a fresh id can still be
/// generated for it.
pub open spec fn can_resolve(colls: Seq<CollectionV>, next: int, name: Seq<char>) -> bool {
    has_coll_name(colls, name) || next < i32::MAX as int
}

/// The id the name resolves (or is created) to.
pub open spec fn resolved_id(colls: Seq<CollectionV>, next: int, name: Seq<char>) -> int {
    if has_coll_name(colls, name) {
        coll_id_by_name(colls, name)
    } else {
        next
    }
}

/// The collections table after resolve-or-create.
pub open spec fn resolved_colls(colls: Seq<CollectionV>, next: int, name: Seq<char>) -> Seq<
    CollectionV,
> {
    if has_coll_name(colls, name) {
        colls
    } else {
        colls.push(CollectionV { id: next, name })
    }
}

/// The id generator after resolve-or-create.
pub open spec fn resolved_next(colls: Seq<CollectionV>, next: int, name: Seq<char>) -> int {
    if has_coll_name(colls, name) {
        next
    } else {
        next + 1
    }
}

/// The resolved id really is a row of the resolved table.
pub proof fn lemma_resolved_has_id(colls: Seq<CollectionV>, next: int, name: Seq<char>)
    requires
        can_resolve(colls, next, name),
    ensures
        has_coll_id(resolved_colls(colls, next, name), resolved_id(colls, next, name)),
{
    if has_coll_name(colls, name) {
        let i = choose|i: int| 0 <= i < colls.len() && colls[i].name == name;
        assert(colls[i].id == coll_id_by_name(colls, name));
    } else {
        let t = resolved_colls(colls, next, name);
        assert(t[colls.len() as int].id == next);
    }
}

/// One session of the storage engine.
pub struct MysqlDb {
    pub collections: Vec<Collection>,
    pub next_collection_id: i32,
    pub user_collections: Vec<UserCollection>,
    pub bsos: Vec<Bso>,
    pub session: Session,
    pub coll_cache: CollectionCache,
    pub snapshot: Option<Snapshot>,
}

impl MysqlDb {
    /// Ghost view of the collections table.
    pub open spec fn colls(&self) -> Seq<CollectionV> {
        colls_view(self.collections)
    }

    /// Ghost view of the id generator.
    pub open spec fn next_id(&self) -> int {
        self.next_collection_id as int
    }

    /// Ghost view of the user_collections table.
    pub open spec fn ucols(&self) -> Seq<UserCollectionV> {
        ucs_view(self.user_collections)
    }

    /// Ghost view of the bso table.
    pub open spec fn bsos_v(&self) -> Seq<BsoV> {
        bsos_view(self.bsos)
    }

    /// The session's logical clock.
    pub open spec fn ts(&self) -> int {
        self.session.timestamp.as_int()
    }

    /// Ghost view of the session's lock table.
    pub open spec fn locks(&self) -> Seq<LockEntryV> {
        locks_view(self.session.coll_locks)
    }

    /// Ghost view of the session's modified-timestamp cache.
    pub open spec fn mod_cache(&self) -> Seq<UserCollectionV> {
        ucs_view(self.session.coll_modified_cache)
    }

    /// A transaction is open.
    pub open spec fn in_txn(&self) -> bool {
        self.snapshot is Some
    }

    /// The four table fields are unchanged between two states.
    pub open spec fn same_tables(pre: MysqlDb, post: MysqlDb) -> bool {
        &&& post.collections == pre.collections
        &&& post.next_collection_id == pre.next_collection_id
        &&& post.user_collections == pre.user_collections
        &&& post.bsos == pre.bsos
    }

    /// An already-open transaction keeps its snapshot; a newly opened one
    /// snapshots the pre-state's tables.
    pub open spec fn txn_preserved(pre: MysqlDb, post: MysqlDb) -> bool {
        if pre.in_txn() {
            post.snapshot == pre.snapshot
        } else {
            post.snapshot matches Some(sn) && sn.colls() == pre.colls() && sn.next_id()
                == pre.next_id() && sn.ucols() == pre.ucols() && sn.bsos_v() == pre.bsos_v()
        }
    }

    /// The engine's invariant: well-formed tables (also in the snapshot,
    /// if one is held), a valid clock, unique session-cache keys, and a
    /// name cache that agrees with the collections table.
    pub open spec fn wf(&self) -> bool {
        &&& table_state_wf(self.colls(), self.next_id(), self.ucols(), self.bsos_v())
        &&& self.session.timestamp.valid()
        &&& ucs_unique(self.mod_cache())
        &&& forall|i: int|
            0 <= i < self.mod_cache().len() ==> (#[trigger] self.mod_cache()[i]).modified >= 0
        &&& locks_unique(self.locks())
        &&& cache_ok(self.coll_cache@, self.colls())
        &&& match self.snapshot {
            Some(sn) => table_state_wf(sn.colls(), sn.next_id(), sn.ucols(), sn.bsos_v())
                && cache_ok(sn.coll_cache@, sn.colls()),
            None => true,
        }
    }

    /// A fresh session over an empty store, with the given clock.
    pub fn new(timestamp: SyncTimestamp) -> (r: MysqlDb)
        requires
            timestamp.valid(),
        ensures
            r.wf(),
            r.colls() == Seq::<CollectionV>::empty(),
            r.next_id() == 1,
            r.ucols() == Seq::<UserCollectionV>::empty(),
            r.bsos_v() == Seq::<BsoV>::empty(),
            r.ts() == timestamp.as_int(),
            r.locks() == Seq::<LockEntryV>::empty(),
            r.mod_cache() == Seq::<UserCollectionV>::empty(),
            !r.in_txn(),
    {
        let r = MysqlDb {
            collections: Vec::new(),
            next_collection_id: 1,
            user_collections: Vec::new(),
            bsos: Vec::new(),
            session: Session {
                timestamp,
                coll_modified_cache: Vec::new(),
                coll_locks: Vec::new(),
            },
            coll_cache: CollectionCache::new(),
            snapshot: None,
        };
        proof {
            assert(r.colls() =~= Seq::<CollectionV>::empty());
            assert(r.ucols() =~= Seq::<UserCollectionV>::empty());
            assert(r.bsos_v() =~= Seq::<BsoV>::empty());
            assert(r.locks() =~= Seq::<LockEntryV>::empty());
            assert(r.mod_cache() =~= Seq::<UserCollectionV>::empty());
        }
        r
    }

    /// The session's logical clock.
    pub fn timestamp(&self) -> (r: SyncTimestamp)
        ensures
            r == self.session.timestamp,
            r.as_int() == self.ts(),
    {
        self.session.timestamp
    }

    /// Resolves a collection name through the cache, falling back to the
    /// collections table and filling the cache on a hit there.
    #[verifier::loop_isolation(false)]
    pub fn get_collection_id(&mut self, name: &String) -> (r: Result<i32, DbError>)
        requires
            old(self).wf(),
        ensures
            final(self).wf(),
            Self::same_tables(*old(self), *final(self)),
            final(self).session == old(self).session,
            final(self).snapshot == old(self).snapshot,
            match r {
                Ok(id) => has_coll_name(old(self).colls(), name@) && id as int == coll_id_by_name(
                    old(self).colls(),
                    name@,
                ),
                Err(e) => e == DbError::CollectionNotFound && !has_coll_name(
                    old(self).colls(),
                    name@,
                ) && final(self).coll_cache == old(self).coll_cache,
            },
    {
        let ghost colls = self.colls();
        if let Some(id) = self.coll_cache.get_id(name) {
            proof {
                let i = choose|i: int|
                    0 <= i < self.coll_cache@.len() && self.coll_cache@[i].name == name@
                        && self.coll_cache@[i].id == id;
                assert(colls.contains(self.coll_cache@[i]));
                let j = choose|j: int| 0 <= j < colls.len() && colls[j] == self.coll_cache@[i];
                assert(has_coll_name(colls, name@));
                let k = choose|k: int| 0 <= k < colls.len() && colls[k].name == name@;
                assert(colls[k].id == colls[j].id);
            }
            return Ok(id);
        }
        let n = self.collections.len();
        let mut k: usize = 0;
        while k < n
            invariant
                *self == *old(self),
                n == self.collections.len(),
                k <= n,
                colls == self.colls(),
                forall|i: int| 0 <= i < k ==> colls[i].name != name@,
            decreases n - k,
        {
            if self.collections[k].name == *name {
                let id = self.collections[k].id;
                proof {
                    assert(colls[k as int].name == name@ && colls[k as int].id == id as int);
                    assert(has_coll_name(colls, name@));
                    let j = choose|j: int| 0 <= j < colls.len() && colls[j].name == name@;
                    assert(colls[j].id == colls[k as int].id);
                    assert(colls.contains(colls[k as int]));
                }
                let ghost pre_cache = self.coll_cache@;
                proof {
                    assert(cache_ok(pre_cache, colls));
                }
                self.coll_cache.put(id, name.clone());
                proof {
                    assert(forall|i: int|
                        0 <= i < pre_cache.len() ==> self.coll_cache@[i] == pre_cache[i]);
                    assert(self.coll_cache@.last() == colls[k as int]);
                    assert(cache_ok(self.coll_cache@, colls));
                }
                return Ok(id);
            }
            k += 1;
        }
        Err(DbError::CollectionNotFound)
    }

    /// Inserts a new collection row, assigning it the next id. A duplicate
    /// name or an exhausted id space surfaces as an internal error, as a
    /// unique-key violation would.
    #[verifier::loop_isolation(false)]
    pub fn create_collection(&mut self, name: &String) -> (r: Result<i32, DbError>)
        requires
            old(self).wf(),
        ensures
            final(self).wf(),
            final(self).user_collections == old(self).user_collections,
            final(self).bsos == old(self).bsos,
            final(self).session == old(self).session,
            final(self).snapshot == old(self).snapshot,
            match r {
                Ok(id) => !has_coll_name(old(self).colls(), name@) && old(self).next_id()
                    < i32::MAX as int && id as int == old(self).next_id() && final(self).colls()
                    == old(self).colls().push(CollectionV { id: id as int, name: name@ })
                    && final(self).next_id() == old(self).next_id() + 1,
                Err(e) => e == DbError::Internal && (has_coll_name(old(self).colls(), name@)
                    || old(self).next_id() == i32::MAX as int) && final(self).collections
                    == old(self).collections && final(self).next_collection_id == old(
                    self,
                ).next_collection_id && final(self).coll_cache == old(self).coll_cache,
            },
    {
        let ghost colls = self.colls();
        if self.next_collection_id == i32::MAX {
            return Err(DbError::Internal);
        }
        let n = self.collections.len();
        let mut k: usize = 0;
        while k < n
            invariant
                *self == *old(self),
                n == self.collections.len(),
                k <= n,
                colls == self.colls(),
                forall|i: int| 0 <= i < k ==> colls[i].name != name@,
            decreases n - k,
        {
            if self.collections[k].name == *name {
                proof {
                    assert(colls[k as int].name == name@);
                    assert(has_coll_name(colls, name@));
                }
                return Err(DbError::Internal);
            }
            k += 1;
        }
        let id = self.next_collection_id;
        let ghost pre_cache = self.coll_cache@;
        self.collections.push(Collection { id, name: name.clone() });
        self.next_collection_id = id + 1;
        self.coll_cache.put(id, name.clone());
        proof {
            let post = self.colls();
            assert(post =~= colls.push(CollectionV { id: id as int, name: name@ }));
            assert(forall|i: int| 0 <= i < colls.len() ==> post[i] == colls[i]);
            assert(colls_wf(post, self.next_id())) by {
                assert(forall|i: int|
                    0 <= i < colls.len() ==> 1 <= (#[trigger] post[i]).id < id as int);
            }
            assert forall|i: int|
                0 <= i < self.ucols().len() implies (#[trigger] self.ucols()[i]).modified >= 0
                && has_coll_id(post, self.ucols()[i].collection_id) by {
                let j = choose|j: int|
                    0 <= j < colls.len() && colls[j].id == self.ucols()[i].collection_id;
                assert(post[j].id == self.ucols()[i].collection_id);
            }
            assert forall|i: int|
                0 <= i < self.bsos_v().len() implies (#[trigger] self.bsos_v()[i]).modified >= 0
                && self.bsos_v()[i].expiry >= 0 && has_coll_id(
                post,
                self.bsos_v()[i].collection_id,
            ) by {
                let j = choose|j: int|
                    0 <= j < colls.len() && colls[j].id == self.bsos_v()[i].collection_id;
                assert(post[j].id == self.bsos_v()[i].collection_id);
            }
            assert forall|i: int|
                0 <= i < self.coll_cache@.len() implies post.contains(
                #[trigger] self.coll_cache@[i],
            ) by {
                if i < pre_cache.len() {
                    assert(self.coll_cache@[i] == pre_cache[i]);
                    let j = choose|j: int|
                        0 <= j < colls.len() && colls[j] == pre_cache[i];
                    assert(post[j] == pre_cache[i]);
                } else {
                    assert(self.coll_cache@[i] == post.last());
                }
            }
        }
        Ok(id)
    }

    /// Resolves a collection name, creating the collection on first use.
    pub fn get_or_create_collection_id(&mut self, name: &String) -> (r: Result<i32, DbError>)
        requires
            old(self).wf(),
        ensures
            final(self).wf(),
            final(self).user_collections == old(self).user_collections,
            final(self).bsos == old(self).bsos,
            final(self).session == old(self).session,
            final(self).snapshot == old(self).snapshot,
            match r {
                Ok(id) => can_resolve(old(self).colls(), old(self).next_id(), name@) && id as int
                    == resolved_id(old(self).colls(), old(self).next_id(), name@)
                    && final(self).colls() == resolved_colls(old(self).colls(), old(self).next_id(), name@)
                    && final(self).next_id() == resolved_next(
                    old(self).colls(),
                    old(self).next_id(),
                    name@,
                ),
                Err(e) => e == DbError::Internal && !can_resolve(
                    old(self).colls(),
                    old(self).next_id(),
                    name@,
                ) && final(self).collections == old(self).collections
                    && final(self).next_collection_id == old(self).next_collection_id
                    && final(self).coll_cache == old(self).coll_cache,
            },
    {
        match self.get_collection_id(name) {
            Ok(id) => Ok(id),
            Err(_) => self.create_collection(name),
        }
    }

    /// Resolves a collection id back to its name through the cache,
    /// falling back to the collections table.
    #[verifier::loop_isolation(false)]
    pub fn get_collection_name(&mut self, id: i32) -> (r: Result<String, DbError>)
        requires
            old(self).wf(),
        ensures
            final(self).wf(),
            Self::same_tables(*old(self), *final(self)),
            final(self).session == old(self).session,
            final(self).snapshot == old(self).snapshot,
            match r {
                Ok(n) => has_coll_id(old(self).colls(), id as int) && n@ == coll_name_by_id(
                    old(self).colls(),
                    id as int,
                ),
                Err(e) => e == DbError::CollectionNotFound && !has_coll_id(
                    old(self).colls(),
                    id as int,
                ),
            },
    {
        let ghost colls = self.colls();
        if let Some(n) = self.coll_cache.get_name(id) {
            proof {
                let i = choose|i: int|
                    0 <= i < self.coll_cache@.len() && self.coll_cache@[i].name == n@
                        && self.coll_cache@[i].id == id as int;
                assert(colls.contains(self.coll_cache@[i]));
                let j = choose|j: int| 0 <= j < colls.len() && colls[j] == self.coll_cache@[i];
                assert(has_coll_id(colls, id as int));
                let k = choose|k: int| 0 <= k < colls.len() && colls[k].id == id as int;
                assert(colls[k].name == colls[j].name);
            }
            return Ok(n);
        }
        let len = self.collections.len();
        let mut k: usize = 0;
        while k < len
            invariant
                *self == *old(self),
                len == self.collections.len(),
                k <= len,
                colls == self.colls(),
                forall|i: int| 0 <= i < k ==> colls[i].id != id as int,
            decreases len - k,
        {
            if self.collections[k].id == id {
                let n = self.collections[k].name.clone();
                proof {
                    assert(colls[k as int].id == id as int && colls[k as int].name == n@);
                    let j = choose|j: int| 0 <= j < colls.len() && colls[j].id == id as int;
                    assert(colls[j].name == colls[k as int].name);
                    assert(colls.contains(colls[k as int]));
                }
                let ghost pre_cache = self.coll_cache@;
                proof {
                    assert(cache_ok(pre_cache, colls));
                }
                self.coll_cache.put(id, n.clone());
                proof {
                    assert(forall|i: int|
                        0 <= i < pre_cache.len() ==> self.coll_cache@[i] == pre_cache[i]);
                    assert(self.coll_cache@.last() == colls[k as int]);
                    assert(cache_ok(self.coll_cache@, colls));
                }
                return Ok(n);
            }
            k += 1;
        }
        Err(DbError::CollectionNotFound)
    }

    /// Opens the unit of work's transaction, snapshotting the tables; a
    /// transaction already open is kept.
    fn begin(&mut self)
        requires
            old(self).wf(),
        ensures
            final(self).wf(),
            Self::same_tables(*old(self), *final(self)),
            final(self).session == old(self).session,
            final(self).in_txn(),
            Self::txn_preserved(*old(self), *final(self)),
    {
        if self.snapshot.is_none() {
            let sn = Snapshot {
                collections: clone_collections(&self.collections),
                next_collection_id: self.next_collection_id,
                user_collections: clone_ucs(&self.user_collections),
                bsos: clone_bsos(&self.bsos),
                coll_cache: self.coll_cache.duplicate(),
            };
            proof {
                assert(sn.colls() == self.colls());
                assert(sn.ucols() == self.ucols());
                assert(sn.bsos_v() == self.bsos_v());
            }
            self.snapshot = Some(sn);
        }
    }

    /// Ends the unit of work, keeping its writes. Without an open
    /// transaction this is an internal fault.
    pub fn commit_sync(&mut self) -> (r: Result<(), DbError>)
        requires
            old(self).wf(),
        ensures
            final(self).wf(),
            Self::same_tables(*old(self), *final(self)),
            final(self).session == old(self).session,
            !final(self).in_txn(),
            if old(self).in_txn() {
                r == Ok::<(), DbError>(())
            } else {
                r == Err::<(), DbError>(DbError::Internal)
            },
    {
        let open = self.snapshot.is_some();
        self.snapshot = None;
        if open {
            Ok(())
        } else {
            Err(DbError::Internal)
        }
    }

    /// Ends the unit of work, restoring the tables to the transaction's
    /// start. Without an open transaction this is an internal fault.
    pub fn rollback_sync(&mut self) -> (r: Result<(), DbError>)
        requires
            old(self).wf(),
        ensures
            final(self).wf(),
            final(self).session == old(self).session,
            !final(self).in_txn(),
            match old(self).snapshot {
                Some(sn) => r == Ok::<(), DbError>(()) && final(self).colls() == sn.colls()
                    && final(self).next_id() == sn.next_id() && final(self).ucols() == sn.ucols()
                    && final(self).bsos_v() == sn.bsos_v(),
                None => r == Err::<(), DbError>(DbError::Internal) && *final(self) == *old(self),
            },
    {
        let mut taken: Option<Snapshot> = None;
        core::mem::swap(&mut self.snapshot, &mut taken);
        match taken {
            Some(sn) => {
                self.collections = sn.collections;
                self.next_collection_id = sn.next_collection_id;
                self.user_collections = sn.user_collections;
                self.bsos = sn.bsos;
                self.coll_cache = sn.coll_cache;
                Ok(())
            },
            None => Err(DbError::Internal),
        }
    }

    /// Moves the session's clock, as a fresh unit of work would.
    pub fn set_timestamp(&mut self, timestamp: SyncTimestamp)
        requires
            old(self).wf(),
            timestamp.valid(),
        ensures
            final(self).wf(),
            Self::same_tables(*old(self), *final(self)),
            final(self).ts() == timestamp.as_int(),
            final(self).session.coll_modified_cache == old(self).session.coll_modified_cache,
            final(self).session.coll_locks == old(self).session.coll_locks,
            final(self).snapshot == old(self).snapshot,
            final(self).coll_cache == old(self).coll_cache,
    {
        self.session.timestamp = timestamp;
    }
}

/// An equal copy of a collections table.
#[verifier::loop_isolation(false)]
fn clone_collections(v: &Vec<Collection>) -> (r: Vec<Collection>)
    ensures
        r@ == v@,
{
    let mut r: Vec<Collection> = Vec::new();
    let n = v.len();
    let mut k: usize = 0;
    while k < n
        invariant
            n == v.len(),
            k <= n,
            r@ == v@.take(k as int),
        decreases n - k,
    {
        r.push(v[k].duplicate());
        proof {
            assert(r@ =~= v@.take(k + 1));
        }
        k += 1;
    }
    proof {
        assert(v@.take(n as int) =~= v@);
    }
    r
}

/// An equal copy of a user_collections table.
#[verifier::loop_isolation(false)]
fn clone_ucs(v: &Vec<UserCollection>) -> (r: Vec<UserCollection>)
    ensures
        r@ == v@,
{
    let mut r: Vec<UserCollection> = Vec::new();
    let n = v.len();
    let mut k: usize = 0;
    while k < n
        invariant
            n == v.len(),
            k <= n,
            r@ == v@.take(k as int),
        decreases n - k,
    {
        r.push(v[k]);
        proof {
            assert(r@ =~= v@.take(k + 1));
        }
        k += 1;
    }
    proof {
        assert(v@.take(n as int) =~= v@);
    }
    r
}

/// An equal copy of a bso table.
#[verifier::loop_isolation(false)]
fn clone_bsos(v: &Vec<Bso>) -> (r: Vec<Bso>)
    ensures
        r@ == v@,
{
    let mut r: Vec<Bso> = Vec::new();
    let n = v.len();
    let mut k: usize = 0;
    while k < n
        invariant
            n == v.len(),
            k <= n,
            r@ == v@.take(k as int),
        decreases n - k,
    {
        r.push(v[k].duplicate());
        proof {
            assert(r@ =~= v@.take(k + 1));
        }
        k += 1;
    }
    proof {
        assert(v@.take(n as int) =~= v@);
    }
    r
}

/// The position of the pair's row, if it has one.
#[verifier::loop_isolation(false)]
fn find_uc(v: &Vec<UserCollection>, user: u64, coll: i32) -> (r: Option<usize>)
    ensures
        match r {
            Some(i) => i < v.len() && uc_match(ucs_view(*v)[i as int], user as int, coll as int),
            None => !has_uc(ucs_view(*v), user as int, coll as int),
        },
{
    let n = v.len();
    let mut k: usize = 0;
    while k < n
        invariant
            n == v.len(),
            k <= n,
            forall|i: int| 0 <= i < k ==> !uc_match(ucs_view(*v)[i], user as int, coll as int),
        decreases n - k,
    {
        if v[k].user_id == user && v[k].collection_id == coll {
            proof {
                assert(uc_match(ucs_view(*v)[k as int], user as int, coll as int));
            }
            return Some(k);
        }
        k += 1;
    }
    None
}

/// Records a modified timestamp for the pair: updated in place, or a new
/// row.
fn upsert_uc(v: &mut Vec<UserCollection>, user: u64, coll: i32, modified: i64)
    requires
        ucs_unique(ucs_view(*old(v))),
    ensures
        ucs_view(*final(v)) == apply_touch(
            ucs_view(*old(v)),
            user as int,
            coll as int,
            modified as int,
        ),
{
    let ghost s = ucs_view(*v);
    let row = UserCollection { user_id: user, collection_id: coll, modified };
    match find_uc(v, user, coll) {
        Some(i) => {
            proof {
                assert(has_uc(s, user as int, coll as int));
                assert(forall|j: int|
                    0 <= j < s.len() && uc_match(s[j], user as int, coll as int) ==> j == i);
                assert(uc_index(s, user as int, coll as int) == i as int);
            }
            v[i] = row;
            proof {
                assert(ucs_view(*v) =~= apply_touch(s, user as int, coll as int, modified as int));
            }
        },
        None => {
            v.push(row);
            proof {
                assert(ucs_view(*v) =~= apply_touch(s, user as int, coll as int, modified as int));
            }
        },
    }
}

/// The mode of the pair's held lock, if one is held.
#[verifier::loop_isolation(false)]
fn find_lock(v: &Vec<LockEntry>, user: u64, coll: i32) -> (r: Option<CollectionLock>)
    requires
        locks_unique(locks_view(*v)),
    ensures
        match r {
            Some(m) => has_lock(locks_view(*v), user as int, coll as int) && m == lock_mode_of(
                locks_view(*v),
                user as int,
                coll as int,
            ),
            None => !has_lock(locks_view(*v), user as int, coll as int),
        },
{
    let ghost s = locks_view(*v);
    let n = v.len();
    let mut k: usize = 0;
    while k < n
        invariant
            n == v.len(),
            k <= n,
            s == locks_view(*v),
            forall|i: int| 0 <= i < k ==> !lock_match(s[i], user as int, coll as int),
        decreases n - k,
    {
        if v[k].user_id == user && v[k].collection_id == coll {
            proof {
                assert(lock_match(s[k as int], user as int, coll as int));
                assert(forall|j: int|
                    0 <= j < s.len() && lock_match(s[j], user as int, coll as int) ==> j
                        == k as int);
                assert(lock_index(s, user as int, coll as int) == k as int);
            }
            return Some(v[k].mode);
        }
        k += 1;
    }
    None
}

/// Records a held lock for the pair: updated in place, or a new entry.
#[verifier::loop_isolation(false)]
fn put_lock(v: &mut Vec<LockEntry>, user: u64, coll: i32, mode: CollectionLock)
    requires
        locks_unique(locks_view(*old(v))),
    ensures
        locks_view(*final(v)) == apply_lock(
            locks_view(*old(v)),
            user as int,
            coll as int,
            mode,
        ),
{
    let ghost s = locks_view(*v);
    let e = LockEntry { user_id: user, collection_id: coll, mode };
    let n = v.len();
    let mut k: usize = 0;
    while k < n
        invariant
            n == v.len(),
            k <= n,
            s == locks_view(*v),
            forall|i: int| 0 <= i < k ==> !lock_match(s[i], user as int, coll as int),
        decreases n - k,
    {
        if v[k].user_id == user && v[k].collection_id == coll {
            proof {
                assert(lock_match(s[k as int], user as int, coll as int));
                assert(forall|j: int|
                    0 <= j < s.len() && lock_match(s[j], user as int, coll as int) ==> j
                        == k as int);
                assert(lock_index(s, user as int, coll as int) == k as int);
            }
            v[k] = e;
            proof {
                assert(locks_view(*v) =~= apply_lock(s, user as int, coll as int, mode));
            }
            return ;
        }
        k += 1;
    }
    v.push(e);
    proof {
        assert(locks_view(*v) =~= apply_lock(s, user as int, coll as int, mode));
    }
}

/// The position of the key's row, if it has one.
#[verifier::loop_isolation(false)]
fn find_bso(v: &Vec<Bso>, user: u64, coll: i32, id: &String) -> (r: Option<usize>)
    ensures
        match r {
            Some(i) => i < v.len() && bso_match(
                bsos_view(*v)[i as int],
                user as int,
                coll as int,
                id@,
            ),
            None => !has_bso(bsos_view(*v), user as int, coll as int, id@),
        },
{
    let n = v.len();
    let mut k: usize = 0;
    while k < n
        invariant
            n == v.len(),
            k <= n,
            forall|i: int|
                0 <= i < k ==> !bso_match(bsos_view(*v)[i], user as int, coll as int, id@),
        decreases n - k,
    {
        if v[k].user_id == user && v[k].collection_id == coll && v[k].id == *id {
            proof {
                assert(bso_match(bsos_view(*v)[k as int], user as int, coll as int, id@));
            }
            return Some(k);
        }
        k += 1;
    }
    None
}

/// Whether the id list names this BSO id.
#[verifier::loop_isolation(false)]
fn ids_contain(ids: &Vec<String>, id: &String) -> (r: bool)
    ensures
        r == ids@.map_values(|s: String| s@).contains(id@),
{
    let ghost sv = ids@.map_values(|s: String| s@);
    let n = ids.len();
    let mut k: usize = 0;
    while k < n
        invariant
            n == ids.len(),
            k <= n,
            sv == ids@.map_values(|s: String| s@),
            forall|i: int| 0 <= i < k ==> sv[i] != id@,
        decreases n - k,
    {
        if ids[k] == *id {
            proof {
                assert(sv[k as int] == id@);
            }
            return true;
        }
        k += 1;
    }
    proof {
        if sv.contains(id@) {
            let i = choose|i: int| 0 <= i < sv.len() && sv[i] == id@;
        }
    }
    false
}

impl MysqlDb {
    /// Takes (or keeps) a shared lock on the collection for this user.
    ///
    /// A collection name that does not exist locks the virtual id `0`, so
    /// that the transaction still starts and keeps observing its absence.
    /// The row's `modified` timestamp, when there is a row, is remembered
    /// in the session's cache. Idempotent under a lock already held.
    pub fn lock_for_read_sync(&mut self, params: params::LockCollection) -> (r: Result<
        (),
        DbError,
    >)
        requires
            old(self).wf(),
        ensures
            final(self).wf(),
            r == Ok::<(), DbError>(()),
            Self::same_tables(*old(self), *final(self)),
            final(self).ts() == old(self).ts(),
            ({
                let u = params.user_id.legacy_id as int;
                let cid = if has_coll_name(old(self).colls(), params.collection@) {
                    coll_id_by_name(old(self).colls(), params.collection@)
                } else {
                    0
                };
                if has_lock(old(self).locks(), u, cid) {
                    final(self).session == old(self).session && final(self).snapshot == old(
                        self,
                    ).snapshot
                } else {
                    &&& final(self).locks() == old(self).locks().push(
                        LockEntryV { user_id: u, collection_id: cid, mode: CollectionLock::Read },
                    )
                    &&& final(self).mod_cache() == if has_uc(old(self).ucols(), u, cid) {
                        apply_touch(
                            old(self).mod_cache(),
                            u,
                            cid,
                            uc_modified(old(self).ucols(), u, cid),
                        )
                    } else {
                        old(self).mod_cache()
                    }
                    &&& final(self).in_txn()
                    &&& Self::txn_preserved(*old(self), *final(self))
                }
            }),
    {
        let user_id = params.user_id.legacy_id;
        let collection_id = match self.get_collection_id(&params.collection) {
            Ok(id) => id,
            Err(_) => 0,
        };
        let ghost u = user_id as int;
        let ghost c = collection_id as int;
        if find_lock(&self.session.coll_locks, user_id, collection_id).is_some() {
            return Ok(());
        }
        self.begin();
        match find_uc(&self.user_collections, user_id, collection_id) {
            Some(i) => {
                let modified = self.user_collections[i].modified;
                proof {
                    let s = self.ucols();
                    assert(uc_match(s[i as int], u, c));
                    assert(forall|j: int|
                        0 <= j < s.len() && uc_match(s[j], u, c) ==> j == i as int);
                    assert(uc_index(s, u, c) == i as int);
                    assert(modified as int == uc_modified(s, u, c));
                    assert(modified >= 0);
                    lemma_apply_touch(self.mod_cache(), u, c, modified as int);
                }
                let ghost mc0 = self.mod_cache();
                upsert_uc(&mut self.session.coll_modified_cache, user_id, collection_id, modified);
                proof {
                    assert forall|i2: int|
                        0 <= i2 < self.mod_cache().len() implies (#[trigger] self.mod_cache()[i2]).modified >= 0 by {
                        let t = self.mod_cache();
                        if t[i2] != (UserCollectionV {
                            user_id: u,
                            collection_id: c,
                            modified: modified as int,
                        }) {
                            assert(mc0.contains(t[i2]));
                            let j = choose|j: int| 0 <= j < mc0.len() && mc0[j] == t[i2];
                        }
                    }
                }
            },
            None => {},
        }
        let ghost locks0 = self.locks();
        proof {
            assert(!has_lock(locks0, u, c));
        }
        self.session.coll_locks.push(
            LockEntry { user_id, collection_id, mode: CollectionLock::Read },
        );
        proof {
            let t = self.locks();
            assert(t =~= locks0.push(
                LockEntryV { user_id: u, collection_id: c, mode: CollectionLock::Read },
            ));
            let key = |x: LockEntryV| (x.user_id, x.collection_id);
            assert forall|i: int, j: int| 0 <= i < j < t.len() implies key(t[i]) != key(t[j]) by {
                if j == t.len() - 1 {
                    assert(!lock_match(locks0[i], u, c));
                } else {
                    assert(key(t[i]) == key(locks0[i]));
                    assert(key(t[j]) == key(locks0[j]));
                }
            }
            assert(locks_unique(t));
        }
        Ok(())
    }

    /// Takes an exclusive lock on the collection for this user, creating
    /// the collection on first use.
    ///
    /// Escalating a read lock held by this session is refused. A row whose
    /// `modified` is not strictly older than the session's clock cannot be
    /// overwritten without clock regression, so the lock is refused with a
    /// conflict, to be retried by the caller under a fresh clock.
    pub fn lock_for_write_sync(&mut self, params: params::LockCollection) -> (r: Result<
        (),
        DbError,
    >)
        requires
            old(self).wf(),
        ensures
            final(self).wf(),
            final(self).ts() == old(self).ts(),
            ({
                let u = params.user_id.legacy_id as int;
                let name = params.collection@;
                let colls0 = old(self).colls();
                let next0 = old(self).next_id();
                if !can_resolve(colls0, next0, name) {
                    r == Err::<(), DbError>(DbError::Internal) && *final(self) == *old(self)
                } else {
                    let cid = resolved_id(colls0, next0, name);
                    &&& final(self).colls() == resolved_colls(colls0, next0, name)
                    &&& final(self).next_id() == resolved_next(colls0, next0, name)
                    &&& final(self).user_collections == old(self).user_collections
                    &&& final(self).bsos == old(self).bsos
                    &&& if has_lock(old(self).locks(), u, cid) && lock_mode_of(
                        old(self).locks(),
                        u,
                        cid,
                    ) == CollectionLock::Read {
                        r == Err::<(), DbError>(DbError::Internal) && final(self).session == old(
                            self,
                        ).session && final(self).snapshot == old(self).snapshot
                    } else if has_uc(old(self).ucols(), u, cid) && uc_modified(
                        old(self).ucols(),
                        u,
                        cid,
                    ) >= old(self).ts() {
                        r == Err::<(), DbError>(DbError::Conflict) && final(self).session == old(
                            self,
                        ).session && final(self).in_txn() && (old(self).in_txn() ==> final(self).snapshot == old(self).snapshot)
                    } else {
                        &&& r == Ok::<(), DbError>(())
                        &&& final(self).locks() == apply_lock(
                            old(self).locks(),
                            u,
                            cid,
                            CollectionLock::Write,
                        )
                        &&& final(self).mod_cache() == if has_uc(old(self).ucols(), u, cid) {
                            apply_touch(
                                old(self).mod_cache(),
                                u,
                                cid,
                                uc_modified(old(self).ucols(), u, cid),
                            )
                        } else {
                            old(self).mod_cache()
                        }
                        &&& final(self).ts() == old(self).ts()
                        &&& final(self).in_txn()
                        &&& (old(self).in_txn() ==> final(self).snapshot == old(self).snapshot)
                        &&& (!old(self).in_txn() ==> (final(self).snapshot matches Some(sn)
                            && sn.colls() == resolved_colls(colls0, next0, name)
                            && sn.ucols() == old(self).ucols() && sn.bsos_v() == old(
                            self,
                        ).bsos_v()))
                    }
                }
            }),
    {
        let user_id = params.user_id.legacy_id;
        let collection_id = match self.get_or_create_collection_id(&params.collection) {
            Ok(id) => id,
            Err(e) => {
                return Err(e);
            },
        };
        let ghost u = user_id as int;
        let ghost c = collection_id as int;
        if let Some(CollectionLock::Read) = find_lock(&self.session.coll_locks, user_id,
            collection_id) {
            return Err(DbError::Internal);
        }
        self.begin();
        match find_uc(&self.user_collections, user_id, collection_id) {
            Some(i) => {
                let modified = self.user_collections[i].modified;
                proof {
                    let s = self.ucols();
                    assert(uc_match(s[i as int], u, c));
                    assert(forall|j: int|
                        0 <= j < s.len() && uc_match(s[j], u, c) ==> j == i as int);
                    assert(uc_index(s, u, c) == i as int);
                    assert(modified as int == uc_modified(s, u, c));
                    assert(modified >= 0);
                }
                if modified >= self.session.timestamp.as_i64() {
                    return Err(DbError::Conflict);
                }
                let ghost mc0 = self.mod_cache();
                proof {
                    lemma_apply_touch(mc0, u, c, modified as int);
                }
                upsert_uc(&mut self.session.coll_modified_cache, user_id, collection_id, modified);
                proof {
                    assert forall|i2: int|
                        0 <= i2 < self.mod_cache().len() implies (#[trigger] self.mod_cache()[i2]).modified >= 0 by {
                        let t = self.mod_cache();
                        if t[i2] != (UserCollectionV {
                            user_id: u,
                            collection_id: c,
                            modified: modified as int,
                        }) {
                            assert(mc0.contains(t[i2]));
                            let j = choose|j: int| 0 <= j < mc0.len() && mc0[j] == t[i2];
                        }
                    }
                }
            },
            None => {},
        }
        proof {
            lemma_apply_lock(self.locks(), u, c, CollectionLock::Write);
        }
        put_lock(&mut self.session.coll_locks, user_id, collection_id, CollectionLock::Write);
        Ok(())
    }

    /// Stamps the collection's `user_collections` row with the session's
    /// clock, creating the row if absent, and returns that clock.
    fn touch_collection(&mut self, user_id: u64, collection_id: i32) -> (r: SyncTimestamp)
        requires
            old(self).wf(),
            has_coll_id(old(self).colls(), collection_id as int),
        ensures
            final(self).wf(),
            r == old(self).session.timestamp,
            r.as_int() == old(self).ts(),
            final(self).ucols() == apply_touch(
                old(self).ucols(),
                user_id as int,
                collection_id as int,
                old(self).ts(),
            ),
            final(self).collections == old(self).collections,
            final(self).next_collection_id == old(self).next_collection_id,
            final(self).bsos == old(self).bsos,
            final(self).session == old(self).session,
            final(self).snapshot == old(self).snapshot,
            final(self).coll_cache == old(self).coll_cache,
    {
        let ghost u = user_id as int;
        let ghost c = collection_id as int;
        let ghost s0 = self.ucols();
        let ts = self.session.timestamp.as_i64();
        proof {
            lemma_apply_touch(s0, u, c, ts as int);
        }
        upsert_uc(&mut self.user_collections, user_id, collection_id, ts);
        proof {
            assert forall|i: int|
                0 <= i < self.ucols().len() implies (#[trigger] self.ucols()[i]).modified >= 0
                && has_coll_id(self.colls(), self.ucols()[i].collection_id) by {
                let t = self.ucols();
                if t[i] != (UserCollectionV { user_id: u, collection_id: c, modified: ts as int })
                {
                    assert(s0.contains(t[i]));
                    let j = choose|j: int| 0 <= j < s0.len() && s0[j] == t[i];
                }
            }
        }
        self.session.timestamp
    }

    /// Upserts one BSO, resolving (or creating) its collection.
    ///
    /// A present row keeps every field the request does not supply;
    /// `modified` is bumped exactly when payload or sortindex is supplied,
    /// and a ttl alone recomputes `expiry` without clock churn. An absent
    /// row is created whole, with an empty payload and a
    /// practically-infinite expiry unless given. The owning collection is
    /// always touched, and its new timestamp returned.
    pub fn put_bso_sync(&mut self, bso: params::PutBso) -> (r: Result<results::PutBso, DbError>)
        requires
            old(self).wf(),
        ensures
            final(self).wf(),
            ({
                let u = bso.user_id.legacy_id as int;
                let name = bso.collection@;
                let colls0 = old(self).colls();
                let next0 = old(self).next_id();
                if can_resolve(colls0, next0, name) {
                    let cid = resolved_id(colls0, next0, name);
                    &&& r == Ok::<results::PutBso, DbError>(old(self).session.timestamp)
                    &&& final(self).colls() == resolved_colls(colls0, next0, name)
                    &&& final(self).next_id() == resolved_next(colls0, next0, name)
                    &&& final(self).bsos_v() == apply_put(
                        old(self).bsos_v(),
                        u,
                        cid,
                        bso.item(),
                        old(self).ts(),
                    )
                    &&& final(self).ucols() == apply_touch(old(self).ucols(), u, cid, old(self).ts())
                    &&& final(self).session == old(self).session
                    &&& final(self).snapshot == old(self).snapshot
                } else {
                    &&& r == Err::<results::PutBso, DbError>(DbError::Internal)
                    &&& *final(self) == *old(self)
                }
            }),
    {
        let ghost item_name = bso.collection@;
        let collection_id = match self.get_or_create_collection_id(&bso.collection) {
            Ok(id) => id,
            Err(e) => {
                return Err(e);
            },
        };
        let user_id = bso.user_id.legacy_id;
        let ghost u = user_id as int;
        let ghost c = collection_id as int;
        let ghost item = bso.item();
        let ghost s0 = self.bsos_v();
        let ts = self.session.timestamp.as_i64();
        proof {
            lemma_apply_put(s0, u, c, item, ts as int);
        }
        match find_bso(&self.bsos, user_id, collection_id, &bso.id) {
            Some(i) => {
                proof {
                    assert(bso_match(s0[i as int], u, c, item.id));
                    assert(forall|j: int|
                        0 <= j < s0.len() && bso_match(s0[j], u, c, item.id) ==> j == i as int);
                    assert(bso_index(s0, u, c, item.id) == i as int);
                }
                let old_row = self.bsos[i].duplicate();
                let bump = bso.payload.is_some() || bso.sortindex.is_some();
                let expiry: i64 = match bso.ttl {
                    Some(t) => compute_expiry(ts, t),
                    None => old_row.expiry,
                };
                let new_row = Bso {
                    user_id: old_row.user_id,
                    collection_id: old_row.collection_id,
                    id: old_row.id,
                    sortindex: match bso.sortindex {
                        Some(x) => Some(x),
                        None => old_row.sortindex,
                    },
                    payload: match bso.payload {
                        Some(p) => p,
                        None => old_row.payload,
                    },
                    modified: if bump {
                        ts
                    } else {
                        old_row.modified
                    },
                    expiry,
                };
                proof {
                    assert(new_row@ == updated_bso_v(
                        s0[i as int],
                        item.payload,
                        item.sortindex,
                        item.ttl,
                        ts as int,
                    ));
                }
                self.bsos[i] = new_row;
                proof {
                    assert(self.bsos_v() =~= apply_put(s0, u, c, item, ts as int));
                }
            },
            None => {
                let payload = match bso.payload {
                    Some(p) => p,
                    None => String::new(),
                };
                let ttl = match bso.ttl {
                    Some(t) => t,
                    None => DEFAULT_BSO_TTL,
                };
                let new_row = Bso {
                    user_id,
                    collection_id,
                    id: bso.id,
                    sortindex: bso.sortindex,
                    payload,
                    modified: ts,
                    expiry: compute_expiry(ts, ttl),
                };
                proof {
                    assert(new_row@ == new_bso_v(
                        u,
                        c,
                        item.id,
                        item.payload,
                        item.sortindex,
                        item.ttl,
                        ts as int,
                    ));
                }
                self.bsos.push(new_row);
                proof {
                    assert(self.bsos_v() =~= apply_put(s0, u, c, item, ts as int));
                }
            },
        }
        proof {
            let colls0g = old(self).colls();
            let next0g = old(self).next_id();
            lemma_resolved_has_id(colls0g, next0g, item_name);
            assert(has_coll_id(self.colls(), c));
            let t = self.bsos_v();
            assert forall|i: int|
                0 <= i < t.len() implies (#[trigger] t[i]).modified >= 0 && t[i].expiry >= 0
                && has_coll_id(self.colls(), t[i].collection_id) by {
                if !bso_match(t[i], u, c, item.id) {
                    assert(s0.contains(t[i]));
                    let j = choose|j: int| 0 <= j < s0.len() && s0[j] == t[i];
                    let jj = choose|jj: int|
                        0 <= jj < colls0g.len() && colls0g[jj].id == t[i].collection_id;
                    assert(self.colls()[jj].id == t[i].collection_id);
                } else {
                    let i0 = bso_index(t, u, c, item.id);
                    assert(has_bso(t, u, c, item.id));
                    assert(0 <= i0 < t.len() && bso_match(t[i0], u, c, item.id));
                    if i != i0 {
                        assert(bso_key(t[i]) != bso_key(t[i0]));
                        assert(false);
                    }
                    if has_bso(s0, u, c, item.id) {
                        let j0 = bso_index(s0, u, c, item.id);
                        assert(0 <= j0 < s0.len() && bso_match(s0[j0], u, c, item.id));
                        assert(s0[j0].modified >= 0 && s0[j0].expiry >= 0);
                    }
                    assert(t[i].collection_id == c);
                }
            }
        }
        let result = self.touch_collection(user_id, collection_id);
        Ok(result)
    }
}

impl MysqlDb {
    /// A point lookup: the BSO's current fields, if it exists and has not
    /// expired. A missing collection is an error; a missing or expired row
    /// is `None`.
    pub fn get_bso_sync(&mut self, params: params::GetBso) -> (r: Result<
        Option<results::GetBso>,
        DbError,
    >)
        requires
            old(self).wf(),
        ensures
            final(self).wf(),
            Self::same_tables(*old(self), *final(self)),
            final(self).session == old(self).session,
            final(self).snapshot == old(self).snapshot,
            ({
                let u = params.user_id.legacy_id as int;
                let s = old(self).bsos_v();
                if has_coll_name(old(self).colls(), params.collection@) {
                    let cid = coll_id_by_name(old(self).colls(), params.collection@);
                    match r {
                        Ok(opt) => match opt {
                            Some(g) => has_bso(s, u, cid, params.id@) && s[bso_index(
                                s,
                                u,
                                cid,
                                params.id@,
                            )].expiry >= old(self).ts() && g@ == results::returned_bso(
                                s[bso_index(s, u, cid, params.id@)],
                            ),
                            None => !has_bso(s, u, cid, params.id@) || s[bso_index(
                                s,
                                u,
                                cid,
                                params.id@,
                            )].expiry < old(self).ts(),
                        },
                        Err(_) => false,
                    }
                } else {
                    r == Err::<Option<results::GetBso>, DbError>(DbError::CollectionNotFound)
                }
            }),
    {
        let collection_id = match self.get_collection_id(&params.collection) {
            Ok(id) => id,
            Err(e) => {
                return Err(e);
            },
        };
        let user_id = params.user_id.legacy_id;
        let ghost u = user_id as int;
        let ghost c = collection_id as int;
        let ghost s = self.bsos_v();
        match find_bso(&self.bsos, user_id, collection_id, &params.id) {
            Some(i) => {
                proof {
                    assert(forall|j: int|
                        0 <= j < s.len() && bso_match(s[j], u, c, params.id@) ==> j == i as int);
                    assert(bso_index(s, u, c, params.id@) == i as int);
                }
                let row = &self.bsos[i];
                if row.expiry >= self.session.timestamp.as_i64() {
                    Ok(
                        Some(
                            results::GetBso {
                                id: row.id.clone(),
                                modified: SyncTimestamp { millis: row.modified },
                                payload: row.payload.clone(),
                                sortindex: row.sortindex,
                                expiry: row.expiry,
                            },
                        ),
                    )
                } else {
                    Ok(None)
                }
            },
            None => Ok(None),
        }
    }

    /// The maximum `modified` across all of the user's collections; the
    /// zero timestamp when the user has none.
    #[verifier::loop_isolation(false)]
    pub fn get_storage_timestamp_sync(&self, user_id: params::HawkIdentifier) -> (r: Result<
        results::GetStorageTimestamp,
        DbError,
    >)
        requires
            self.wf(),
        ensures
            r matches Ok(t) && t.as_int() == storage_max(self.ucols(), user_id.legacy_id as int)
                && t.valid(),
    {
        let ghost u = user_id.legacy_id as int;
        let ghost s = self.ucols();
        let n = self.user_collections.len();
        let mut acc: i64 = 0;
        let mut k: usize = 0;
        while k < n
            invariant
                n == self.user_collections.len(),
                k <= n,
                s == self.ucols(),
                acc >= 0,
                acc as int == storage_max(s.take(k as int), u),
            decreases n - k,
        {
            let row = &self.user_collections[k];
            proof {
                assert(s.take(k + 1).drop_last() =~= s.take(k as int));
                assert(s.take(k + 1).last() == s[k as int]);
                assert(s[k as int] == self.user_collections@[k as int]@);
                assert(s[k as int].modified >= 0);
            }
            if row.user_id == user_id.legacy_id && row.modified > acc {
                acc = row.modified;
            }
            proof {
                assert(acc as int == storage_max(s.take(k + 1), u));
            }
            k += 1;
        }
        proof {
            assert(s.take(n as int) =~= s);
        }
        Ok(SyncTimestamp { millis: acc })
    }

    /// The collection's last-modified timestamp: the session's lock-seeded
    /// cache first, then the `user_collections` row, else not found.
    pub fn get_collection_timestamp_sync(&mut self, params: params::GetCollectionTimestamp) -> (r:
        Result<results::GetCollectionTimestamp, DbError>)
        requires
            old(self).wf(),
        ensures
            final(self).wf(),
            Self::same_tables(*old(self), *final(self)),
            final(self).session == old(self).session,
            final(self).snapshot == old(self).snapshot,
            ({
                let u = params.user_id.legacy_id as int;
                if has_coll_name(old(self).colls(), params.collection@) {
                    let cid = coll_id_by_name(old(self).colls(), params.collection@);
                    if has_uc(old(self).mod_cache(), u, cid) {
                        r matches Ok(t) && t.as_int() == uc_modified(old(self).mod_cache(), u, cid)
                    } else if has_uc(old(self).ucols(), u, cid) {
                        r matches Ok(t) && t.as_int() == uc_modified(old(self).ucols(), u, cid)
                    } else {
                        r == Err::<results::GetCollectionTimestamp, DbError>(
                            DbError::CollectionNotFound,
                        )
                    }
                } else {
                    r == Err::<results::GetCollectionTimestamp, DbError>(
                        DbError::CollectionNotFound,
                    )
                }
            }),
    {
        let collection_id = match self.get_collection_id(&params.collection) {
            Ok(id) => id,
            Err(e) => {
                return Err(e);
            },
        };
        let user_id = params.user_id.legacy_id;
        let ghost u = user_id as int;
        let ghost c = collection_id as int;
        match find_uc(&self.session.coll_modified_cache, user_id, collection_id) {
            Some(i) => {
                proof {
                    let s = self.mod_cache();
                    assert(forall|j: int|
                        0 <= j < s.len() && uc_match(s[j], u, c) ==> j == i as int);
                    assert(uc_index(s, u, c) == i as int);
                }
                return Ok(SyncTimestamp { millis: self.session.coll_modified_cache[i].modified });
            },
            None => {},
        }
        match find_uc(&self.user_collections, user_id, collection_id) {
            Some(i) => {
                proof {
                    let s = self.ucols();
                    assert(forall|j: int|
                        0 <= j < s.len() && uc_match(s[j], u, c) ==> j == i as int);
                    assert(uc_index(s, u, c) == i as int);
                }
                Ok(SyncTimestamp { millis: self.user_collections[i].modified })
            },
            None => Err(DbError::CollectionNotFound),
        }
    }

    /// The BSO's `modified` timestamp, the zero timestamp when the row
    /// does not exist (deliberately non-failing; expiry is not consulted).
    pub fn get_bso_timestamp_sync(&mut self, params: params::GetBsoTimestamp) -> (r: Result<
        results::GetBsoTimestamp,
        DbError,
    >)
        requires
            old(self).wf(),
        ensures
            final(self).wf(),
            Self::same_tables(*old(self), *final(self)),
            final(self).session == old(self).session,
            final(self).snapshot == old(self).snapshot,
            ({
                let u = params.user_id.legacy_id as int;
                let s = old(self).bsos_v();
                if has_coll_name(old(self).colls(), params.collection@) {
                    let cid = coll_id_by_name(old(self).colls(), params.collection@);
                    r matches Ok(t) && t.as_int() == if has_bso(s, u, cid, params.id@) {
                        s[bso_index(s, u, cid, params.id@)].modified
                    } else {
                        0
                    }
                } else {
                    r == Err::<results::GetBsoTimestamp, DbError>(DbError::CollectionNotFound)
                }
            }),
    {
        let collection_id = match self.get_collection_id(&params.collection) {
            Ok(id) => id,
            Err(e) => {
                return Err(e);
            },
        };
        let user_id = params.user_id.legacy_id;
        let ghost u = user_id as int;
        let ghost c = collection_id as int;
        let ghost s = self.bsos_v();
        match find_bso(&self.bsos, user_id, collection_id, &params.id) {
            Some(i) => {
                proof {
                    assert(forall|j: int|
                        0 <= j < s.len() && bso_match(s[j], u, c, params.id@) ==> j == i as int);
                    assert(bso_index(s, u, c, params.id@) == i as int);
                }
                Ok(SyncTimestamp { millis: self.bsos[i].modified })
            },
            None => Ok(SyncTimestamp { millis: 0 }),
        }
    }

    /// Deletes one BSO, if it exists and has not expired, and touches the
    /// owning collection. A missing or expired row is `BsoNotFound`.
    pub fn delete_bso_sync(&mut self, params: params::DeleteBso) -> (r: Result<
        results::DeleteBso,
        DbError,
    >)
        requires
            old(self).wf(),
        ensures
            final(self).wf(),
            final(self).collections == old(self).collections,
            final(self).next_collection_id == old(self).next_collection_id,
            final(self).session == old(self).session,
            final(self).snapshot == old(self).snapshot,
            ({
                let u = params.user_id.legacy_id as int;
                let s = old(self).bsos_v();
                if has_coll_name(old(self).colls(), params.collection@) {
                    let cid = coll_id_by_name(old(self).colls(), params.collection@);
                    if has_live_bso(s, u, cid, params.id@, old(self).ts()) {
                        &&& r == Ok::<results::DeleteBso, DbError>(old(self).session.timestamp)
                        &&& final(self).bsos_v() == s.remove(bso_index(s, u, cid, params.id@))
                        &&& final(self).ucols() == apply_touch(
                            old(self).ucols(),
                            u,
                            cid,
                            old(self).ts(),
                        )
                    } else {
                        &&& r == Err::<results::DeleteBso, DbError>(DbError::BsoNotFound)
                        &&& final(self).bsos == old(self).bsos
                        &&& final(self).user_collections == old(self).user_collections
                    }
                } else {
                    r == Err::<results::DeleteBso, DbError>(DbError::CollectionNotFound)
                        && final(self).bsos == old(self).bsos && final(self).user_collections
                        == old(self).user_collections
                }
            }),
    {
        let collection_id = match self.get_collection_id(&params.collection) {
            Ok(id) => id,
            Err(e) => {
                return Err(e);
            },
        };
        let user_id = params.user_id.legacy_id;
        let ghost u = user_id as int;
        let ghost c = collection_id as int;
        let ghost s0 = self.bsos_v();
        let i = match find_bso(&self.bsos, user_id, collection_id, &params.id) {
            Some(i) => i,
            None => {
                return Err(DbError::BsoNotFound);
            },
        };
        proof {
            assert(forall|j: int|
                0 <= j < s0.len() && bso_match(s0[j], u, c, params.id@) ==> j == i as int);
            assert(bso_index(s0, u, c, params.id@) == i as int);
        }
        if self.bsos[i].expiry <= self.session.timestamp.as_i64() {
            proof {
                assert(forall|j: int|
                    0 <= j < s0.len() && bso_match(s0[j], u, c, params.id@) && s0[j].expiry
                        > old(self).ts() ==> j == i as int);
            }
            return Err(DbError::BsoNotFound);
        }
        self.bsos.remove(i);
        proof {
            let t = self.bsos_v();
            assert(t =~= s0.remove(i as int));
            assert(forall|k: int|
                0 <= k < t.len() ==> #[trigger] t[k] == (if k < i as int {
                    s0[k]
                } else {
                    s0[k + 1]
                }));
            let key = |b: BsoV| bso_key(b);
            assert forall|p: int, q: int| 0 <= p < q < t.len() implies key(t[p]) != key(
                t[q],
            ) by {
                let p2: int = if p < i as int {
                    p
                } else {
                    p + 1
                };
                let q2: int = if q < i as int {
                    q
                } else {
                    q + 1
                };
                assert(t[p] == s0[p2] && t[q] == s0[q2]);
                assert(bso_key(s0[p2]) != bso_key(s0[q2]));
            }
            assert(bsos_unique(t));
            assert forall|k: int|
                0 <= k < t.len() implies (#[trigger] t[k]).modified >= 0 && t[k].expiry >= 0
                && has_coll_id(self.colls(), t[k].collection_id) by {
                let k2: int = if k < i as int {
                    k
                } else {
                    k + 1
                };
                assert(t[k] == s0[k2]);
            }
        }
        let result = self.touch_collection(user_id, collection_id);
        Ok(result)
    }

    /// Deletes the listed BSOs for the collection (whether or not any
    /// matched — the bulk form does not signal not-found) and touches the
    /// owning collection.
    #[verifier::loop_isolation(false)]
    pub fn delete_bsos_sync(&mut self, params: params::DeleteBsos) -> (r: Result<
        results::DeleteBsos,
        DbError,
    >)
        requires
            old(self).wf(),
        ensures
            final(self).wf(),
            final(self).collections == old(self).collections,
            final(self).next_collection_id == old(self).next_collection_id,
            final(self).session == old(self).session,
            final(self).snapshot == old(self).snapshot,
            ({
                let u = params.user_id.legacy_id as int;
                let ids_v = params.ids@.map_values(|s: String| s@);
                if has_coll_name(old(self).colls(), params.collection@) {
                    let cid = coll_id_by_name(old(self).colls(), params.collection@);
                    &&& r == Ok::<results::DeleteBsos, DbError>(old(self).session.timestamp)
                    &&& final(self).bsos_v() == delete_bsos_v(old(self).bsos_v(), u, cid, ids_v)
                    &&& final(self).ucols() == apply_touch(
                        old(self).ucols(),
                        u,
                        cid,
                        old(self).ts(),
                    )
                } else {
                    r == Err::<results::DeleteBsos, DbError>(DbError::CollectionNotFound)
                        && final(self).bsos == old(self).bsos && final(self).user_collections
                        == old(self).user_collections
                }
            }),
    {
        let collection_id = match self.get_collection_id(&params.collection) {
            Ok(id) => id,
            Err(e) => {
                return Err(e);
            },
        };
        let user_id = params.user_id.legacy_id;
        let ghost u = user_id as int;
        let ghost c = collection_id as int;
        let ghost s0 = self.bsos_v();
        let ghost ids_v = params.ids@.map_values(|s: String| s@);
        let ghost pred = |b: BsoV| !(b.user_id == u && b.collection_id == c && ids_v.contains(
            b.id,
        ));
        let mut out: Vec<Bso> = Vec::new();
        let n = self.bsos.len();
        let mut k: usize = 0;
        while k < n
            invariant
                n == self.bsos.len(),
                k <= n,
                s0 == self.bsos_v(),
                ids_v == params.ids@.map_values(|s: String| s@),
                out@.map_values(|b: Bso| b@) == keep(s0.take(k as int), pred),
            decreases n - k,
        {
            proof {
                assert(s0.take(k + 1).drop_last() =~= s0.take(k as int));
                assert(s0.take(k + 1).last() == s0[k as int]);
            }
            let ghost before = out@.map_values(|b: Bso| b@);
            let row = &self.bsos[k];
            let matched = row.user_id == user_id && row.collection_id == collection_id
                && ids_contain(&params.ids, &row.id);
            proof {
                assert(s0[k as int] == self.bsos@[k as int]@);
                assert(pred(s0[k as int]) == !matched);
            }
            if !matched {
                out.push(self.bsos[k].duplicate());
                proof {
                    assert(out@.map_values(|b: Bso| b@) =~= before.push(s0[k as int]));
                }
            }
            k += 1;
        }
        proof {
            assert(s0.take(n as int) =~= s0);
        }
        self.bsos = out;
        proof {
            lemma_keep_contains(s0, pred);
            lemma_keep_unique_by(s0, pred, |b: BsoV| bso_key(b));
            let t = self.bsos_v();
            assert forall|k2: int|
                0 <= k2 < t.len() implies (#[trigger] t[k2]).modified >= 0 && t[k2].expiry >= 0
                && has_coll_id(self.colls(), t[k2].collection_id) by {
                assert(t.contains(t[k2]));
                assert(s0.contains(t[k2]));
                let j = choose|j: int| 0 <= j < s0.len() && s0[j] == t[k2];
            }
        }
        let result = self.touch_collection(user_id, collection_id);
        Ok(result)
    }

    /// Deletes every BSO and the `user_collections` row of the collection,
    /// failing with not-found when there was nothing to delete, and
    /// returns the user's fresh storage-level timestamp.
    #[verifier::loop_isolation(false)]
    pub fn delete_collection_sync(&mut self, params: params::DeleteCollection) -> (r: Result<
        SyncTimestamp,
        DbError,
    >)
        requires
            old(self).wf(),
        ensures
            final(self).wf(),
            final(self).collections == old(self).collections,
            final(self).next_collection_id == old(self).next_collection_id,
            final(self).session == old(self).session,
            final(self).snapshot == old(self).snapshot,
            ({
                let u = params.user_id.legacy_id as int;
                if has_coll_name(old(self).colls(), params.collection@) {
                    let cid = coll_id_by_name(old(self).colls(), params.collection@);
                    if has_coll_bso(old(self).bsos_v(), u, cid) || has_uc(
                        old(self).ucols(),
                        u,
                        cid,
                    ) {
                        &&& final(self).bsos_v() == delete_coll_bsos(old(self).bsos_v(), u, cid)
                        &&& final(self).ucols() == delete_uc(old(self).ucols(), u, cid)
                        &&& r matches Ok(t) && t.as_int() == storage_max(final(self).ucols(), u)
                    } else {
                        &&& r == Err::<SyncTimestamp, DbError>(DbError::CollectionNotFound)
                        &&& final(self).bsos == old(self).bsos
                        &&& final(self).user_collections == old(self).user_collections
                    }
                } else {
                    r == Err::<SyncTimestamp, DbError>(DbError::CollectionNotFound) && final(self).bsos == old(self).bsos && final(self).user_collections == old(
                        self,
                    ).user_collections
                }
            }),
    {
        let collection_id = match self.get_collection_id(&params.collection) {
            Ok(id) => id,
            Err(e) => {
                return Err(e);
            },
        };
        let user_id = params.user_id.legacy_id;
        let ghost u = user_id as int;
        let ghost c = collection_id as int;
        let ghost s0 = self.bsos_v();
        let ghost us0 = self.ucols();
        let ghost bpred = |b: BsoV| !(b.user_id == u && b.collection_id == c);
        let ghost upred = |x: UserCollectionV| !uc_match(x, u, c);
        let mut out: Vec<Bso> = Vec::new();
        let n = self.bsos.len();
        let mut k: usize = 0;
        while k < n
            invariant
                n == self.bsos.len(),
                k <= n,
                s0 == self.bsos_v(),
                out@.map_values(|b: Bso| b@) == keep(s0.take(k as int), bpred),
            decreases n - k,
        {
            proof {
                assert(s0.take(k + 1).drop_last() =~= s0.take(k as int));
                assert(s0.take(k + 1).last() == s0[k as int]);
            }
            let ghost before = out@.map_values(|b: Bso| b@);
            proof {
                assert(s0[k as int] == self.bsos@[k as int]@);
            }
            if !(self.bsos[k].user_id == user_id && self.bsos[k].collection_id == collection_id) {
                out.push(self.bsos[k].duplicate());
                proof {
                    assert(out@.map_values(|b: Bso| b@) =~= before.push(s0[k as int]));
                }
            } else {
                proof {
                    assert(!bpred(s0[k as int]));
                }
            }
            k += 1;
        }
        proof {
            assert(s0.take(n as int) =~= s0);
        }
        proof {
            crate::rows::lemma_keep_len(s0, bpred);
        }
        let removed_bsos = self.bsos.len() - out.len();
        let mut uout: Vec<UserCollection> = Vec::new();
        let un = self.user_collections.len();
        let mut j: usize = 0;
        while j < un
            invariant
                un == self.user_collections.len(),
                j <= un,
                us0 == self.ucols(),
                uout@.map_values(|x: UserCollection| x@) == keep(us0.take(j as int), upred),
            decreases un - j,
        {
            proof {
                assert(us0.take(j + 1).drop_last() =~= us0.take(j as int));
                assert(us0.take(j + 1).last() == us0[j as int]);
            }
            let ghost before = uout@.map_values(|x: UserCollection| x@);
            proof {
                assert(us0[j as int] == self.user_collections@[j as int]@);
            }
            if !(self.user_collections[j].user_id == user_id && self.user_collections[j]
                .collection_id == collection_id) {
                uout.push(self.user_collections[j]);
                proof {
                    assert(uout@.map_values(|x: UserCollection| x@) =~= before.push(
                        us0[j as int],
                    ));
                }
            } else {
                proof {
                    assert(!upred(us0[j as int]));
                }
            }
            j += 1;
        }
        proof {
            assert(us0.take(un as int) =~= us0);
        }
        proof {
            crate::rows::lemma_keep_len(us0, upred);
        }
        let removed_ucs = self.user_collections.len() - uout.len();
        if removed_bsos == 0 && removed_ucs == 0 {
            proof {
                assert forall|k2: int| 0 <= k2 < s0.len() implies bpred(#[trigger] s0[k2]) by {
                    if !bpred(s0[k2]) {
                        lemma_keep_shorter(s0, bpred, k2);
                    }
                }
                assert forall|k2: int| 0 <= k2 < us0.len() implies upred(#[trigger] us0[k2]) by {
                    if !upred(us0[k2]) {
                        lemma_keep_shorter(us0, upred, k2);
                    }
                }
                assert(!has_coll_bso(s0, u, c));
                assert(!has_uc(us0, u, c));
            }
            return Err(DbError::CollectionNotFound);
        }
        self.bsos = out;
        self.user_collections = uout;
        proof {
            lemma_keep_contains(s0, bpred);
            lemma_keep_unique_by(s0, bpred, |b: BsoV| bso_key(b));
            lemma_keep_contains(us0, upred);
            lemma_keep_unique_by(us0, upred, |x: UserCollectionV| uc_key(x));
            let t = self.bsos_v();
            assert forall|k2: int|
                0 <= k2 < t.len() implies (#[trigger] t[k2]).modified >= 0 && t[k2].expiry >= 0
                && has_coll_id(self.colls(), t[k2].collection_id) by {
                assert(t.contains(t[k2]));
                assert(s0.contains(t[k2]));
                let j2 = choose|j2: int| 0 <= j2 < s0.len() && s0[j2] == t[k2];
            }
            let tu = self.ucols();
            assert forall|k2: int|
                0 <= k2 < tu.len() implies (#[trigger] tu[k2]).modified >= 0 && has_coll_id(
                self.colls(),
                tu[k2].collection_id,
            ) by {
                assert(tu.contains(tu[k2]));
                assert(us0.contains(tu[k2]));
                let j2 = choose|j2: int| 0 <= j2 < us0.len() && us0[j2] == tu[k2];
            }
        }
        proof {
            if !(has_coll_bso(s0, u, c) || has_uc(us0, u, c)) {
                assert(forall|k2: int| 0 <= k2 < s0.len() ==> bpred(#[trigger] s0[k2]));
                lemma_keep_all(s0, bpred);
                assert(forall|k2: int| 0 <= k2 < us0.len() ==> upred(#[trigger] us0[k2]));
                lemma_keep_all(us0, upred);
                assert(false);
            }
        }
        self.get_storage_timestamp_sync(params.user_id)
    }

    /// Wipes every BSO and every `user_collections` row of the user: the
    /// full account reset.
    #[verifier::loop_isolation(false)]
    pub fn delete_storage_sync(&mut self, user_id: params::HawkIdentifier) -> (r: Result<
        (),
        DbError,
    >)
        requires
            old(self).wf(),
        ensures
            final(self).wf(),
            final(self).collections == old(self).collections,
            final(self).next_collection_id == old(self).next_collection_id,
            final(self).session == old(self).session,
            final(self).snapshot == old(self).snapshot,
            r == Ok::<(), DbError>(()),
            final(self).bsos_v() == delete_user_bsos(old(self).bsos_v(), user_id.legacy_id as int),
            final(self).ucols() == delete_user_ucs(old(self).ucols(), user_id.legacy_id as int),
    {
        let uid = user_id.legacy_id;
        let ghost u = uid as int;
        let ghost s0 = self.bsos_v();
        let ghost us0 = self.ucols();
        let ghost bpred = |b: BsoV| b.user_id != u;
        let ghost upred = |x: UserCollectionV| x.user_id != u;
        let mut out: Vec<Bso> = Vec::new();
        let n = self.bsos.len();
        let mut k: usize = 0;
        while k < n
            invariant
                n == self.bsos.len(),
                k <= n,
                s0 == self.bsos_v(),
                out@.map_values(|b: Bso| b@) == keep(s0.take(k as int), bpred),
            decreases n - k,
        {
            proof {
                assert(s0.take(k + 1).drop_last() =~= s0.take(k as int));
                assert(s0.take(k + 1).last() == s0[k as int]);
            }
            let ghost before = out@.map_values(|b: Bso| b@);
            proof {
                assert(s0[k as int] == self.bsos@[k as int]@);
            }
            if self.bsos[k].user_id != uid {
                out.push(self.bsos[k].duplicate());
                proof {
                    assert(out@.map_values(|b: Bso| b@) =~= before.push(s0[k as int]));
                }
            }
            k += 1;
        }
        proof {
            assert(s0.take(n as int) =~= s0);
        }
        self.bsos = out;
        let mut uout: Vec<UserCollection> = Vec::new();
        let un = self.user_collections.len();
        let mut j: usize = 0;
        while j < un
            invariant
                un == self.user_collections.len(),
                j <= un,
                us0 == self.ucols(),
                uout@.map_values(|x: UserCollection| x@) == keep(us0.take(j as int), upred),
            decreases un - j,
        {
            proof {
                assert(us0.take(j + 1).drop_last() =~= us0.take(j as int));
                assert(us0.take(j + 1).last() == us0[j as int]);
            }
            let ghost before = uout@.map_values(|x: UserCollection| x@);
            proof {
                assert(us0[j as int] == self.user_collections@[j as int]@);
            }
            if self.user_collections[j].user_id != uid {
                uout.push(self.user_collections[j]);
                proof {
                    assert(uout@.map_values(|x: UserCollection| x@) =~= before.push(
                        us0[j as int],
                    ));
                }
            }
            j += 1;
        }
        proof {
            assert(us0.take(un as int) =~= us0);
        }
        self.user_collections = uout;
        proof {
            lemma_keep_contains(s0, bpred);
            lemma_keep_unique_by(s0, bpred, |b: BsoV| bso_key(b));
            lemma_keep_contains(us0, upred);
            lemma_keep_unique_by(us0, upred, |x: UserCollectionV| uc_key(x));
            let t = self.bsos_v();
            assert forall|k2: int|
                0 <= k2 < t.len() implies (#[trigger] t[k2]).modified >= 0 && t[k2].expiry >= 0
                && has_coll_id(self.colls(), t[k2].collection_id) by {
                assert(t.contains(t[k2]));
                assert(s0.contains(t[k2]));
                let j2 = choose|j2: int| 0 <= j2 < s0.len() && s0[j2] == t[k2];
            }
            let tu = self.ucols();
            assert forall|k2: int|
                0 <= k2 < tu.len() implies (#[trigger] tu[k2]).modified >= 0 && has_coll_id(
                self.colls(),
                tu[k2].collection_id,
            ) by {
                assert(tu.contains(tu[k2]));
                assert(us0.contains(tu[k2]));
                let j2 = choose|j2: int| 0 <= j2 < us0.len() && us0[j2] == tu[k2];
            }
        }
        Ok(())
    }
}

impl MysqlDb {
    /// A filtered, ordered, paginated page of the collection's live BSOs.
    ///
    /// Rows past their expiry are excluded; `newer`/`older` bound
    /// `modified` exclusively; a non-empty id list is an allow-list. One
    /// more row than `limit` is probed so that `offset` reports where the
    /// next page starts, or nothing at the end of the results.
    #[verifier::loop_isolation(false)]
    pub fn get_bsos_sync(&mut self, params: params::GetBsos) -> (r: Result<
        results::GetBsos,
        DbError,
    >)
        requires
            old(self).wf(),
        ensures
            final(self).wf(),
            Self::same_tables(*old(self), *final(self)),
            final(self).session == old(self).session,
            final(self).snapshot == old(self).snapshot,
            ({
                let u = params.user_id.legacy_id as int;
                if has_coll_name(old(self).colls(), params.collection@) {
                    let cid = coll_id_by_name(old(self).colls(), params.collection@);
                    let q = params.params@;
                    let sorted = sort_bsos(
                        filter_bsos(old(self).bsos_v(), u, cid, q, old(self).ts()),
                        q.sort,
                    );
                    match r {
                        Ok(page) => page.items@.map_values(|g: results::GetBso| g@) == page_of(
                            sorted,
                            q.offset,
                            q.limit,
                        ).map_values(|b: BsoV| results::returned_bso(b)) && page.offset
                            == next_offset_of(sorted.len() as int, q.offset, q.limit),
                        Err(_) => false,
                    }
                } else {
                    r == Err::<results::GetBsos, DbError>(DbError::CollectionNotFound)
                }
            }),
    {
        let collection_id = match self.get_collection_id(&params.collection) {
            Ok(id) => id,
            Err(e) => {
                return Err(e);
            },
        };
        let user_id = params.user_id.legacy_id;
        let ghost u = user_id as int;
        let ghost c = collection_id as int;
        let ghost s0 = self.bsos_v();
        let ghost qv = params.params@;
        let ghost nowv = self.ts();
        let ghost fpred = |b: BsoV| bso_live_match(b, u, c, qv, nowv);
        let ts = self.session.timestamp.as_i64();
        let q = &params.params;
        let mut rows: Vec<Bso> = Vec::new();
        let n = self.bsos.len();
        let mut k: usize = 0;
        while k < n
            invariant
                n == self.bsos.len(),
                k <= n,
                s0 == self.bsos_v(),
                qv == params.params@,
                rows@.map_values(|b: Bso| b@) == keep(s0.take(k as int), fpred),
            decreases n - k,
        {
            proof {
                assert(s0.take(k + 1).drop_last() =~= s0.take(k as int));
                assert(s0.take(k + 1).last() == s0[k as int]);
                assert(s0[k as int] == self.bsos@[k as int]@);
            }
            let ghost before = rows@.map_values(|b: Bso| b@);
            let row = &self.bsos[k];
            let m = row.user_id == user_id && row.collection_id == collection_id && row.expiry
                > ts && (match q.older {
                Some(o) => row.modified < o.as_i64(),
                None => true,
            }) && (match q.newer {
                Some(nw) => row.modified > nw.as_i64(),
                None => true,
            }) && (if q.ids.len() > 0 {
                ids_contain(&q.ids, &row.id)
            } else {
                true
            });
            proof {
                assert(m == bso_live_match(s0[k as int], u, c, qv, nowv));
            }
            if m {
                rows.push(self.bsos[k].duplicate());
                proof {
                    assert(rows@.map_values(|b: Bso| b@) =~= before.push(s0[k as int]));
                }
            }
            k += 1;
        }
        proof {
            assert(s0.take(n as int) =~= s0);
        }
        let rows = crate::sorting::sort_rows(rows, q.sort);
        let ghost sorted = rows@.map_values(|b: Bso| b@);
        let total = rows.len();
        let offset_u64: u64 = match q.offset {
            Some(o) => o,
            None => 0,
        };
        let start: usize = if offset_u64 > total as u64 {
            total
        } else {
            offset_u64 as usize
        };
        let end: usize = match q.limit {
            Some(l) => {
                if (l as u64) < (total - start) as u64 {
                    start + (l as usize)
                } else {
                    total
                }
            },
            None => total,
        };
        proof {
            assert(page_of(sorted, qv.offset, qv.limit) == sorted.subrange(
                start as int,
                end as int,
            ));
        }
        let mut items: Vec<results::GetBso> = Vec::new();
        let mut j: usize = start;
        while j < end
            invariant
                start <= j <= end <= total,
                total == rows.len(),
                sorted == rows@.map_values(|b: Bso| b@),
                items@.map_values(|g: results::GetBso| g@) == sorted.subrange(
                    start as int,
                    j as int,
                ).map_values(|b: BsoV| results::returned_bso(b)),
            decreases end - j,
        {
            let ghost rv = sorted[j as int];
            let row = rows[j].duplicate();
            proof {
                assert(row@ == rows@[j as int]@);
                assert(rv == rows@[j as int]@);
            }
            let ghost before = items@.map_values(|g: results::GetBso| g@);
            let g = results::GetBso {
                id: row.id,
                modified: SyncTimestamp { millis: row.modified },
                payload: row.payload,
                sortindex: row.sortindex,
                expiry: row.expiry,
            };
            proof {
                assert(g@ == results::returned_bso(rv));
            }
            items.push(g);
            proof {
                assert(sorted.subrange(start as int, j + 1).drop_last() =~= sorted.subrange(
                    start as int,
                    j as int,
                ));
                assert(sorted.subrange(start as int, j + 1).last() == rv);
                assert(items@.map_values(|g2: results::GetBso| g2@) =~= before.push(
                    results::returned_bso(rv),
                ));
                assert(items@.map_values(|g2: results::GetBso| g2@) =~= sorted.subrange(
                    start as int,
                    j + 1,
                ).map_values(|b: BsoV| results::returned_bso(b)));
            }
            j += 1;
        }
        let next_offset: Option<u64> = match q.limit {
            Some(l) => {
                if (total as u64) > offset_u64 && ((total as u64) - offset_u64) > (l as u64) {
                    Some(offset_u64 + (l as u64))
                } else {
                    None
                }
            },
            None => None,
        };
        Ok(results::GetBsos { items, offset: next_offset })
    }

    /// The ids of a page of BSOs, with the same filters, ordering and
    /// pagination as the full page.
    #[verifier::loop_isolation(false)]
    pub fn get_bso_ids_sync(&mut self, params: params::GetBsos) -> (r: Result<
        results::GetBsoIds,
        DbError,
    >)
        requires
            old(self).wf(),
        ensures
            final(self).wf(),
            Self::same_tables(*old(self), *final(self)),
            final(self).session == old(self).session,
            final(self).snapshot == old(self).snapshot,
            ({
                let u = params.user_id.legacy_id as int;
                if has_coll_name(old(self).colls(), params.collection@) {
                    let cid = coll_id_by_name(old(self).colls(), params.collection@);
                    let q = params.params@;
                    let sorted = sort_bsos(
                        filter_bsos(old(self).bsos_v(), u, cid, q, old(self).ts()),
                        q.sort,
                    );
                    match r {
                        Ok(page) => page.items@.map_values(|s: String| s@) == page_of(
                            sorted,
                            q.offset,
                            q.limit,
                        ).map_values(|b: BsoV| b.id) && page.offset == next_offset_of(
                            sorted.len() as int,
                            q.offset,
                            q.limit,
                        ),
                        Err(_) => false,
                    }
                } else {
                    r == Err::<results::GetBsoIds, DbError>(DbError::CollectionNotFound)
                }
            }),
    {
        let page = match self.get_bsos_sync(params) {
            Ok(p) => p,
            Err(e) => {
                return Err(e);
            },
        };
        let mut items: Vec<String> = Vec::new();
        let n = page.items.len();
        let mut k: usize = 0;
        while k < n
            invariant
                n == page.items.len(),
                k <= n,
                items@.map_values(|s: String| s@) == page.items@.map_values(
                    |g: results::GetBso| g@,
                ).take(k as int).map_values(|g: results::GetBsoV| g.id),
            decreases n - k,
        {
            let ghost before = items@.map_values(|s: String| s@);
            items.push(page.items[k].id.clone());
            proof {
                let gs = page.items@.map_values(|g: results::GetBso| g@);
                assert(gs[k as int] == page.items@[k as int]@);
                assert(gs.take(k + 1).drop_last() =~= gs.take(k as int));
                assert(gs.take(k + 1).last() == gs[k as int]);
                assert(items@.map_values(|s: String| s@) =~= before.push(gs[k as int].id));
                assert(items@.map_values(|s: String| s@) =~= gs.take(k + 1).map_values(
                    |g: results::GetBsoV| g.id,
                ));
            }
            k += 1;
        }
        proof {
            let gs = page.items@.map_values(|g: results::GetBso| g@);
            assert(gs.take(n as int) =~= gs);
            assert(items@.map_values(|s: String| s@) =~= gs.map_values(
                |g: results::GetBsoV| g.id,
            ));
        }
        Ok(results::GetBsoIds { items, offset: page.offset })
    }

    /// Applies a batch of upserts to one collection, in order, under one
    /// final collection touch. Items the outer layer already rejected ride
    /// along in the failure map; every accepted item is applied.
    #[verifier::loop_isolation(false)]
    pub fn post_bsos_sync(&mut self, input: params::PostBsos) -> (r: Result<
        results::PostBsos,
        DbError,
    >)
        requires
            old(self).wf(),
        ensures
            final(self).wf(),
            ({
                let u = input.user_id.legacy_id as int;
                let name = input.collection@;
                let colls0 = old(self).colls();
                let next0 = old(self).next_id();
                let items = input.bsos@.map_values(|b: params::PostCollectionBso| b@);
                if can_resolve(colls0, next0, name) {
                    let cid = resolved_id(colls0, next0, name);
                    &&& r matches Ok(rep) && rep.modified == old(self).session.timestamp
                        && rep.success@.map_values(|s: String| s@) == items.map_values(
                        |it: PostItemV| it.id,
                    ) && rep.failed == input.failed
                    &&& final(self).colls() == resolved_colls(colls0, next0, name)
                    &&& final(self).next_id() == resolved_next(colls0, next0, name)
                    &&& final(self).bsos_v() == apply_put_all(
                        old(self).bsos_v(),
                        u,
                        cid,
                        items,
                        old(self).ts(),
                    )
                    &&& final(self).ucols() == apply_touch(old(self).ucols(), u, cid, old(self).ts())
                    &&& final(self).session == old(self).session
                    &&& final(self).snapshot == old(self).snapshot
                } else {
                    r == Err::<results::PostBsos, DbError>(DbError::Internal) && *final(self)
                        == *old(self)
                }
            }),
    {
        let ghost name_v = input.collection@;
        let ghost colls0 = old(self).colls();
        let ghost next0 = old(self).next_id();
        let collection_id = match self.get_or_create_collection_id(&input.collection) {
            Ok(id) => id,
            Err(e) => {
                return Err(e);
            },
        };
        let user_id = input.user_id.legacy_id;
        let ghost u = user_id as int;
        let ghost c = collection_id as int;
        let ghost items = input.bsos@.map_values(|b: params::PostCollectionBso| b@);
        let ghost state1 = *self;
        let ghost ts0 = self.ts();
        proof {
            assert(has_coll_name(self.colls(), name_v)) by {
                if !has_coll_name(colls0, name_v) {
                    assert(self.colls().last().name == name_v);
                }
            }
            assert(coll_id_by_name(self.colls(), name_v) == c as int) by {
                let j = choose|j: int|
                    0 <= j < self.colls().len() && self.colls()[j].name == name_v;
                if has_coll_name(colls0, name_v) {
                    let k0 = choose|k0: int|
                        0 <= k0 < colls0.len() && colls0[k0].name == name_v;
                } else {
                    if j < colls0.len() {
                        assert(colls0[j].name == name_v);
                        assert(false);
                    }
                }
            }
        }
        let modified = self.session.timestamp;
        let mut success: Vec<String> = Vec::new();
        let n = input.bsos.len();
        let mut i: usize = 0;
        while i < n
            invariant
                n == input.bsos.len(),
                i <= n,
                self.wf(),
                items == input.bsos@.map_values(|b: params::PostCollectionBso| b@),
                self.colls() == state1.colls(),
                self.next_collection_id == state1.next_collection_id,
                has_coll_name(self.colls(), name_v),
                coll_id_by_name(self.colls(), name_v) == c as int,
                self.bsos_v() == apply_put_all(state1.bsos_v(), u, c, items.take(i as int), ts0),
                self.ucols() == if i == 0 {
                    state1.ucols()
                } else {
                    apply_touch(state1.ucols(), u, c, ts0)
                },
                self.session == state1.session,
                self.snapshot == state1.snapshot,
                self.ts() == ts0,
                success@.map_values(|s: String| s@) == items.take(i as int).map_values(
                    |it: PostItemV| it.id,
                ),
            decreases n - i,
        {
            let ghost pre = *self;
            let id = input.bsos[i].id.clone();
            let payload: Option<String> = match &input.bsos[i].payload {
                Some(p) => Some(p.clone()),
                None => None,
            };
            let put = params::PutBso {
                user_id: input.user_id,
                collection: input.collection.clone(),
                id: input.bsos[i].id.clone(),
                payload,
                sortindex: input.bsos[i].sortindex,
                ttl: input.bsos[i].ttl,
            };
            proof {
                assert(items[i as int] == input.bsos@[i as int]@);
                assert(put.item() == items[i as int]);
                assert(can_resolve(pre.colls(), pre.next_id(), name_v));
                assert(resolved_id(pre.colls(), pre.next_id(), name_v) == c as int);
                assert(resolved_colls(pre.colls(), pre.next_id(), name_v) == pre.colls());
            }
            let put_result = self.put_bso_sync(put);
            proof {
                assert(put_result is Ok);
                assert(items.take(i + 1) =~= items.take(i as int).push(items[i as int]));
                crate::rows::lemma_apply_put_all_snoc(
                    state1.bsos_v(),
                    u,
                    c,
                    items.take(i as int),
                    items[i as int],
                    ts0,
                );
                if i > 0 {
                    crate::rows::lemma_touch_idempotent(state1.ucols(), u, c, ts0);
                }
            }
            match put_result {
                Ok(_) => {
                    let ghost before = success@.map_values(|s: String| s@);
                    success.push(id);
                    proof {
                        assert(id@ == items[i as int].id);
                        assert(items.take(i + 1).drop_last() =~= items.take(i as int));
                        assert(items.take(i + 1).last() == items[i as int]);
                        assert(success@.map_values(|s: String| s@) =~= before.push(
                            items[i as int].id,
                        ));
                        assert(success@.map_values(|s: String| s@) =~= items.take(
                            i + 1,
                        ).map_values(|it: PostItemV| it.id));
                    }
                },
                Err(_) => {},
            }
            i += 1;
        }
        proof {
            assert(items.take(n as int) =~= items);
            lemma_resolved_has_id(colls0, next0, name_v);
        }
        let result_ts = self.touch_collection(user_id, collection_id);
        proof {
            if n == 0 {
            } else {
                crate::rows::lemma_touch_idempotent(state1.ucols(), u, c, ts0);
            }
        }
        Ok(results::PostBsos { modified, success, failed: input.failed })
    }

    /// The total UTF-8 byte length of the user's live payloads, saturated
    /// at the largest representable total.
    #[verifier::loop_isolation(false)]
    pub fn get_storage_usage_sync(&self, user_id: params::HawkIdentifier) -> (r: Result<
        results::GetStorageUsage,
        DbError,
    >)
        requires
            self.wf(),
        ensures
            ({
                let total = live_usage(self.bsos_v(), user_id.legacy_id as int, self.ts());
                r matches Ok(v) && v as int == if total > u64::MAX as int {
                    u64::MAX as int
                } else {
                    total
                }
            }),
    {
        let ghost u = user_id.legacy_id as int;
        let ghost s = self.bsos_v();
        let ghost nowv = self.ts();
        let ts = self.session.timestamp.as_i64();
        let n = self.bsos.len();
        let mut acc: u64 = 0;
        let mut k: usize = 0;
        while k < n
            invariant
                n == self.bsos.len(),
                k <= n,
                s == self.bsos_v(),
                nowv == self.ts(),
                acc as int == ({
                    let part = live_usage(s.take(k as int), u, nowv);
                    if part > u64::MAX as int {
                        u64::MAX as int
                    } else {
                        part
                    }
                }),
            decreases n - k,
        {
            proof {
                assert(s.take(k + 1).drop_last() =~= s.take(k as int));
                assert(s.take(k + 1).last() == s[k as int]);
                assert(s[k as int] == self.bsos@[k as int]@);
                crate::rows::lemma_live_usage_nonneg(s.take(k as int), u, nowv);
            }
            let row = &self.bsos[k];
            proof {
                assert(live_usage(s.take(k + 1), u, nowv) == live_usage(s.take(k as int), u, nowv)
                    + if s[k as int].user_id == u && s[k as int].expiry > nowv {
                    vstd::utf8::encode_utf8(s[k as int].payload).len() as int
                } else {
                    0
                });
            }
            if row.user_id == user_id.legacy_id && row.expiry > ts {
                let rp = row.payload.as_str();
                let len = rp.as_bytes().len();
                proof {
                    assert(rp@ == s[k as int].payload);
                    assert(rp.spec_bytes() == vstd::utf8::encode_utf8(rp@));
                    assert(len as int == vstd::utf8::encode_utf8(s[k as int].payload).len());
                }
                acc = crate::rows::sat_add_u64(acc, len as u64);
            }
            k += 1;
        }
        proof {
            assert(s.take(n as int) =~= s);
        }
        Ok(acc)
    }
}

/// A correct grouped report: one entry per collection that has a live
/// row, named by the collections table, with the exact total (saturated
/// at the largest representable value).
pub open spec fn grouped_report_ok(
    v: Seq<(String, u64)>,
    s: Seq<BsoV>,
    u: int,
    now: int,
    colls: Seq<CollectionV>,
    counting: bool,
) -> bool {
    exists|g: Seq<int>|
        #![trigger g.len()]
        {
            &&& g.len() == v.len()
            &&& (forall|i: int|
                #![trigger g[i]]
                0 <= i < g.len() ==> has_live_coll(s, u, g[i], now) && v[i].0@
                    == coll_name_by_id(colls, g[i]) && v[i].1 as int == ({
                    let total = group_total(s, u, g[i], now, counting);
                    if total > u64::MAX as int {
                        u64::MAX as int
                    } else {
                        total
                    }
                }))
            &&& (forall|cid: int|
                #![trigger has_live_coll(s, u, cid, now)]
                has_live_coll(s, u, cid, now) ==> g.contains(cid))
        }
}

/// The spec-level total a grouping row reports: live-row count, or live
/// payload bytes, for one (user, collection).
pub open spec fn group_total(
    s: Seq<BsoV>,
    user: int,
    coll: int,
    now: int,
    counting: bool,
) -> int {
    if counting {
        live_coll_count(s, user, coll, now)
    } else {
        live_coll_usage(s, user, coll, now)
    }
}

/// Groups the user's live rows by collection id, totalling row counts or
/// payload byte lengths (saturated): one entry per collection that has a
/// live row, each total exact.
#[verifier::loop_isolation(false)]
fn group_live(bsos: &Vec<Bso>, user: u64, now: i64, counting: bool) -> (r: Vec<(i32, u64)>)
    ensures
        ({
            let s = bsos_view(*bsos);
            let u = user as int;
            &&& forall|i: int, j: int| 0 <= i < j < r@.len() ==> r@[i].0 != r@[j].0
            &&& forall|i: int|
                0 <= i < r@.len() ==> has_live_coll(s, u, (#[trigger] r@[i]).0 as int, now as int)
                    && r@[i].1 as int == ({
                    let total = group_total(s, u, r@[i].0 as int, now as int, counting);
                    if total > u64::MAX as int {
                        u64::MAX as int
                    } else {
                        total
                    }
                })
            &&& forall|cid: int|
                #![trigger has_live_coll(s, u, cid, now as int)]
                has_live_coll(s, u, cid, now as int) ==> exists|i: int|
                    #![trigger r@[i]]
                    0 <= i < r@.len() && r@[i].0 == cid
        }),
{
    let ghost s = bsos_view(*bsos);
    let ghost u = user as int;
    let ghost nowv = now as int;
    let mut groups: Vec<(i32, u64)> = Vec::new();
    let n = bsos.len();
    let mut k: usize = 0;
    while k < n
        invariant
            n == bsos.len(),
            k <= n,
            s == bsos_view(*bsos),
            forall|i: int, j: int| 0 <= i < j < groups@.len() ==> groups@[i].0 != groups@[j].0,
            forall|i: int|
                0 <= i < groups@.len() ==> has_live_coll(
                    s.take(k as int),
                    u,
                    (#[trigger] groups@[i]).0 as int,
                    nowv,
                ) && groups@[i].1 as int == ({
                    let total = group_total(s.take(k as int), u, groups@[i].0 as int, nowv,
                        counting);
                    if total > u64::MAX as int {
                        u64::MAX as int
                    } else {
                        total
                    }
                }),
            forall|cid: int|
                #![trigger has_live_coll(s.take(k as int), u, cid, nowv)]
                has_live_coll(s.take(k as int), u, cid, nowv) ==> exists|i: int|
                    #![trigger groups@[i]]
                    0 <= i < groups@.len() && groups@[i].0 == cid,
        decreases n - k,
    {
        proof {
            assert(s.take(k + 1).drop_last() =~= s.take(k as int));
            assert(s.take(k + 1).last() == s[k as int]);
            assert(s[k as int] == bsos@[k as int]@);
        }
        let row = &bsos[k];
        let live = row.user_id == user && row.expiry > now;
        let amount: u64 = if counting {
            1
        } else {
            row.payload.as_str().as_bytes().len() as u64
        };
        proof {
            assert(amount as int == ({
                if counting {
                    1int
                } else {
                    vstd::utf8::encode_utf8(s[k as int].payload).len() as int
                }
            }));
        }
        if live {
            let cid = row.collection_id;
            let gn = groups.len();
            let mut gi: usize = 0;
            while gi < gn && groups[gi].0 != cid
                invariant
                    gn == groups.len(),
                    gi <= gn,
                    forall|i: int| 0 <= i < gi ==> (#[trigger] groups@[i]).0 != cid,
                decreases gn - gi,
            {
                gi += 1;
            }
            let found = gi < gn;
            let ghost before = groups@;
            if found {
                proof {
                    assert(groups@[gi as int].0 == cid);
                }
                let updated = crate::rows::sat_add_u64(groups[gi].1, amount);
                groups[gi] = (cid, updated);
                proof {
                    crate::rows::lemma_live_coll_usage_nonneg(s.take(k as int), u, cid as int,
                        nowv);
                    crate::rows::lemma_live_coll_count_nonneg(s.take(k as int), u, cid as int,
                        nowv);
                    assert forall|i: int|
                        0 <= i < groups@.len() implies has_live_coll(
                        s.take(k + 1),
                        u,
                        (#[trigger] groups@[i]).0 as int,
                        nowv,
                    ) && groups@[i].1 as int == ({
                        let total = group_total(s.take(k + 1), u, groups@[i].0 as int, nowv,
                            counting);
                        if total > u64::MAX as int {
                            u64::MAX as int
                        } else {
                            total
                        }
                    }) by {
                        if i != gi as int {
                            assert(groups@[i] == before[i]);
                            assert(before[i].0 != cid);
                            let tk0 = s.take(k as int);
                            let w = choose|w: int|
                                0 <= w < tk0.len() && (#[trigger] tk0[w]).user_id == u
                                    && tk0[w].collection_id == before[i].0 as int && tk0[w].expiry
                                    > nowv;
                            assert(tk0[w] == s.take(k as int)[w]);
                            assert(s.take(k + 1)[w] == s.take(k as int)[w]);
                        } else {
                            assert(s.take(k + 1)[k as int] == s[k as int]);
                        }
                    }
                    assert forall|cid2: int|
                        #![trigger has_live_coll(s.take(k + 1), u, cid2, nowv)]
                        has_live_coll(s.take(k + 1), u, cid2, nowv) implies exists|i: int|
                        #![trigger groups@[i]]
                        0 <= i < groups@.len() && groups@[i].0 == cid2 by {
                        let tk = s.take(k + 1);
                        let w = choose|w: int|
                            0 <= w < tk.len() && (#[trigger] tk[w]).user_id == u
                                && tk[w].collection_id == cid2 && tk[w].expiry > nowv;
                        assert(tk[w] == s.take(k + 1)[w]);
                        if w < k as int {
                            assert(s.take(k as int)[w] == s.take(k + 1)[w]);
                            assert(has_live_coll(s.take(k as int), u, cid2, nowv));
                            let i0 = choose|i0: int|
                                0 <= i0 < before.len() && (#[trigger] before[i0]).0 == cid2;
                            assert(groups@[i0].0 == cid2);
                        } else {
                            assert(cid2 == cid as int);
                            assert(groups@[gi as int].0 == cid2);
                        }
                    }
                }
            } else {
                proof {
                    assert(forall|i: int| 0 <= i < before.len() ==> (#[trigger] before[i]).0 != cid);
                    assert(!has_live_coll(s.take(k as int), u, cid as int, nowv)) by {
                        if has_live_coll(s.take(k as int), u, cid as int, nowv) {
                            let i0 = choose|i0: int|
                                0 <= i0 < before.len() && (#[trigger] before[i0]).0 == cid;
                        }
                    }
                    crate::rows::lemma_no_live_zero(s.take(k as int), u, cid as int, nowv);
                }
                groups.push((cid, amount));
                proof {
                    assert forall|i: int|
                        0 <= i < groups@.len() implies has_live_coll(
                        s.take(k + 1),
                        u,
                        (#[trigger] groups@[i]).0 as int,
                        nowv,
                    ) && groups@[i].1 as int == ({
                        let total = group_total(s.take(k + 1), u, groups@[i].0 as int, nowv,
                            counting);
                        if total > u64::MAX as int {
                            u64::MAX as int
                        } else {
                            total
                        }
                    }) by {
                        if i < before.len() {
                            assert(groups@[i] == before[i]);
                            assert(before[i].0 != cid);
                            let tk0 = s.take(k as int);
                            let w = choose|w: int|
                                0 <= w < tk0.len() && (#[trigger] tk0[w]).user_id == u
                                    && tk0[w].collection_id == before[i].0 as int && tk0[w].expiry
                                    > nowv;
                            assert(tk0[w] == s.take(k as int)[w]);
                            assert(s.take(k + 1)[w] == s.take(k as int)[w]);
                        } else {
                            assert(groups@[i] == (cid, amount));
                            assert(s.take(k + 1)[k as int] == s[k as int]);
                        }
                    }
                    assert forall|cid2: int|
                        #![trigger has_live_coll(s.take(k + 1), u, cid2, nowv)]
                        has_live_coll(s.take(k + 1), u, cid2, nowv) implies exists|i: int|
                        #![trigger groups@[i]]
                        0 <= i < groups@.len() && groups@[i].0 == cid2 by {
                        let tk = s.take(k + 1);
                        let w = choose|w: int|
                            0 <= w < tk.len() && (#[trigger] tk[w]).user_id == u
                                && tk[w].collection_id == cid2 && tk[w].expiry > nowv;
                        assert(tk[w] == s.take(k + 1)[w]);
                        if w < k as int {
                            assert(s.take(k as int)[w] == s.take(k + 1)[w]);
                            assert(has_live_coll(s.take(k as int), u, cid2, nowv));
                            let i0 = choose|i0: int|
                                0 <= i0 < before.len() && (#[trigger] before[i0]).0 == cid2;
                            assert(groups@[i0].0 == cid2);
                        } else {
                            assert(cid2 == cid as int);
                            assert(groups@[before.len() as int].0 == cid2);
                        }
                    }
                }
            }
        } else {
            proof {
                assert forall|i: int|
                    0 <= i < groups@.len() implies has_live_coll(
                    s.take(k + 1),
                    u,
                    (#[trigger] groups@[i]).0 as int,
                    nowv,
                ) && groups@[i].1 as int == ({
                    let total = group_total(s.take(k + 1), u, groups@[i].0 as int, nowv, counting);
                    if total > u64::MAX as int {
                        u64::MAX as int
                    } else {
                        total
                    }
                }) by {
                    let tk0 = s.take(k as int);
                    let w = choose|w: int|
                        0 <= w < tk0.len() && (#[trigger] tk0[w]).user_id == u
                            && tk0[w].collection_id == groups@[i].0 as int && tk0[w].expiry > nowv;
                    assert(tk0[w] == s.take(k as int)[w]);
                    assert(s.take(k + 1)[w] == s.take(k as int)[w]);
                }
                assert forall|cid2: int|
                    #![trigger has_live_coll(s.take(k + 1), u, cid2, nowv)]
                    has_live_coll(s.take(k + 1), u, cid2, nowv) implies exists|i: int|
                    0 <= i < groups@.len() && (#[trigger] groups@[i]).0 == cid2 by {
                    let tk = s.take(k + 1);
                    let w = choose|w: int|
                        0 <= w < tk.len() && (#[trigger] tk[w]).user_id == u && tk[w].collection_id
                            == cid2 && tk[w].expiry > nowv;
                    assert(tk[w] == s.take(k + 1)[w]);
                    assert(w < k as int);
                    assert(s.take(k as int)[w] == s.take(k + 1)[w]);
                    assert(has_live_coll(s.take(k as int), u, cid2, nowv));
                }
            }
        }
        k += 1;
    }
    proof {
        assert(s.take(n as int) =~= s);
    }
    groups
}

impl MysqlDb {
    /// Resolves each group's collection id back to its name, keeping order
    /// and totals. Every id must exist; a miss would mean the aggregation
    /// returned an id the resolver cannot explain.
    #[verifier::loop_isolation(false)]
    fn map_group_names(&mut self, groups: Vec<(i32, u64)>) -> (r: Result<
        Vec<(String, u64)>,
        DbError,
    >)
        requires
            old(self).wf(),
            forall|i: int|
                0 <= i < groups@.len() ==> has_coll_id(
                    old(self).colls(),
                    (#[trigger] groups@[i]).0 as int,
                ),
        ensures
            final(self).wf(),
            Self::same_tables(*old(self), *final(self)),
            final(self).session == old(self).session,
            final(self).snapshot == old(self).snapshot,
            r matches Ok(v) && v@.len() == groups@.len() && forall|i: int|
                0 <= i < groups@.len() ==> (#[trigger] v@[i]).0@ == coll_name_by_id(
                    old(self).colls(),
                    groups@[i].0 as int,
                ) && v@[i].1 == groups@[i].1,
    {
        let mut out: Vec<(String, u64)> = Vec::new();
        let n = groups.len();
        let mut k: usize = 0;
        while k < n
            invariant
                n == groups.len(),
                k <= n,
                self.wf(),
                Self::same_tables(*old(self), *self),
                self.session == old(self).session,
                self.snapshot == old(self).snapshot,
                out@.len() == k,
                forall|i: int|
                    0 <= i < k ==> (#[trigger] out@[i]).0@ == coll_name_by_id(
                        old(self).colls(),
                        groups@[i].0 as int,
                    ) && out@[i].1 == groups@[i].1,
            decreases n - k,
        {
            let name = match self.get_collection_name(groups[k].0) {
                Ok(nm) => nm,
                Err(_) => {
                    proof {
                        assert(has_coll_id(self.colls(), groups@[k as int].0 as int));
                        assert(false);
                    }
                    return Err(DbError::Internal);
                },
            };
            out.push((name, groups[k].1));
            k += 1;
        }
        Ok(out)
    }

    /// Live payload byte totals for the user, grouped by collection name:
    /// one entry per collection with a live row, each total exact
    /// (saturated at the largest representable total).
    pub fn get_collection_usage_sync(&mut self, user_id: params::HawkIdentifier) -> (r: Result<
        results::GetCollectionUsage,
        DbError,
    >)
        requires
            old(self).wf(),
        ensures
            final(self).wf(),
            Self::same_tables(*old(self), *final(self)),
            final(self).session == old(self).session,
            final(self).snapshot == old(self).snapshot,
            r matches Ok(v) && grouped_report_ok(
                v@,
                old(self).bsos_v(),
                user_id.legacy_id as int,
                old(self).ts(),
                old(self).colls(),
                false,
            ),
    {
        let ts = self.session.timestamp.as_i64();
        let groups = group_live(&self.bsos, user_id.legacy_id, ts, false);
        proof {
            assert forall|i: int|
                0 <= i < groups@.len() implies has_coll_id(
                self.colls(),
                (#[trigger] groups@[i]).0 as int,
            ) by {
                let s = self.bsos_v();
                let w = choose|w: int|
                    0 <= w < s.len() && (#[trigger] s[w]).user_id == user_id.legacy_id as int
                        && s[w].collection_id == groups@[i].0 as int && s[w].expiry > self.ts();
            }
        }
        let v = match self.map_group_names(groups) {
            Ok(v) => v,
            Err(e) => {
                proof {
                    assert(false);
                }
                return Err(e);
            },
        };
        proof {
            let u = user_id.legacy_id as int;
            let s = old(self).bsos_v();
            let now = old(self).ts();
            let colls = old(self).colls();
            let vv = v@;
            let g = Seq::new(groups@.len() as nat, |i: int| groups@[i].0 as int);
            assert(g.len() == vv.len());
            assert forall|i: int| #![trigger g[i]] 0 <= i < g.len() implies has_live_coll(
                s,
                u,
                g[i],
                now,
            ) && vv[i].0@ == coll_name_by_id(colls, g[i]) && vv[i].1 as int == ({
                let total = group_total(s, u, g[i], now, false);
                if total > u64::MAX as int {
                    u64::MAX as int
                } else {
                    total
                }
            }) by {
                assert(g[i] == groups@[i].0 as int);
                assert(has_live_coll(s, u, g[i], now));
                assert(vv[i].0@ == coll_name_by_id(colls, g[i]));
                assert(vv[i].1 == groups@[i].1);
                assert(groups@[i].1 as int == ({
                    let total = group_total(s, u, g[i], now, false);
                    if total > u64::MAX as int {
                        u64::MAX as int
                    } else {
                        total
                    }
                }));
            }
            assert forall|cid: int|
                #![trigger has_live_coll(s, u, cid, now)]
                has_live_coll(s, u, cid, now) implies g.contains(cid) by {
                let gi = choose|gi: int|
                    #![trigger groups@[gi]]
                    0 <= gi < groups@.len() && groups@[gi].0 == cid;
                assert(g[gi] == cid);
            }
            assert(grouped_report_ok(v@, s, u, now, colls, false));
        }
        Ok(v)
    }

    /// Live row counts for the user, grouped by collection name: one entry
    /// per collection with a live row, each count exact.
    pub fn get_collection_counts_sync(&mut self, user_id: params::HawkIdentifier) -> (r: Result<
        results::GetCollectionCounts,
        DbError,
    >)
        requires
            old(self).wf(),
        ensures
            final(self).wf(),
            Self::same_tables(*old(self), *final(self)),
            final(self).session == old(self).session,
            final(self).snapshot == old(self).snapshot,
            r matches Ok(v) && grouped_report_ok(
                v@,
                old(self).bsos_v(),
                user_id.legacy_id as int,
                old(self).ts(),
                old(self).colls(),
                true,
            ),
    {
        let ts = self.session.timestamp.as_i64();
        let groups = group_live(&self.bsos, user_id.legacy_id, ts, true);
        proof {
            assert forall|i: int|
                0 <= i < groups@.len() implies has_coll_id(
                self.colls(),
                (#[trigger] groups@[i]).0 as int,
            ) by {
                let s = self.bsos_v();
                let w = choose|w: int|
                    0 <= w < s.len() && (#[trigger] s[w]).user_id == user_id.legacy_id as int
                        && s[w].collection_id == groups@[i].0 as int && s[w].expiry > self.ts();
            }
        }
        let v = match self.map_group_names(groups) {
            Ok(v) => v,
            Err(e) => {
                proof {
                    assert(false);
                }
                return Err(e);
            },
        };
        proof {
            let u = user_id.legacy_id as int;
            let s = old(self).bsos_v();
            let now = old(self).ts();
            let colls = old(self).colls();
            let vv = v@;
            let g = Seq::new(groups@.len() as nat, |i: int| groups@[i].0 as int);
            assert(g.len() == vv.len());
            assert forall|i: int| #![trigger g[i]] 0 <= i < g.len() implies has_live_coll(
                s,
                u,
                g[i],
                now,
            ) && vv[i].0@ == coll_name_by_id(colls, g[i]) && vv[i].1 as int == ({
                let total = group_total(s, u, g[i], now, true);
                if total > u64::MAX as int {
                    u64::MAX as int
                } else {
                    total
                }
            }) by {
                assert(g[i] == groups@[i].0 as int);
                assert(has_live_coll(s, u, g[i], now));
                assert(vv[i].0@ == coll_name_by_id(colls, g[i]));
                assert(vv[i].1 == groups@[i].1);
                assert(groups@[i].1 as int == ({
                    let total = group_total(s, u, g[i], now, true);
                    if total > u64::MAX as int {
                        u64::MAX as int
                    } else {
                        total
                    }
                }));
            }
            assert forall|cid: int|
                #![trigger has_live_coll(s, u, cid, now)]
                has_live_coll(s, u, cid, now) implies g.contains(cid) by {
                let gi = choose|gi: int|
                    #![trigger groups@[gi]]
                    0 <= gi < groups@.len() && groups@[gi].0 == cid;
                assert(g[gi] == cid);
            }
            assert(grouped_report_ok(v@, s, u, now, colls, true));
        }
        Ok(v)
    }

    /// Each of the user's collections, by name, with its last-modified
    /// timestamp, in table order.
    #[verifier::loop_isolation(false)]
    pub fn get_collection_timestamps_sync(&mut self, user_id: params::HawkIdentifier) -> (r:
        Result<results::GetCollectionTimestamps, DbError>)
        requires
            old(self).wf(),
        ensures
            final(self).wf(),
            Self::same_tables(*old(self), *final(self)),
            final(self).session == old(self).session,
            final(self).snapshot == old(self).snapshot,
            ({
                let u = user_id.legacy_id as int;
                let rows = user_ucs(old(self).ucols(), u);
                r matches Ok(v) && v@.len() == rows.len() && forall|i: int|
                    0 <= i < rows.len() ==> (#[trigger] v@[i]).0@ == coll_name_by_id(
                        old(self).colls(),
                        rows[i].collection_id,
                    ) && v@[i].1.as_int() == rows[i].modified
            }),
    {
        let uid = user_id.legacy_id;
        let ghost u = uid as int;
        let ghost us0 = self.ucols();
        let ghost upred = |x: UserCollectionV| x.user_id == u;
        let mut picked: Vec<UserCollection> = Vec::new();
        let n = self.user_collections.len();
        let mut k: usize = 0;
        while k < n
            invariant
                n == self.user_collections.len(),
                k <= n,
                us0 == self.ucols(),
                picked@.map_values(|x: UserCollection| x@) == keep(us0.take(k as int), upred),
            decreases n - k,
        {
            proof {
                assert(us0.take(k + 1).drop_last() =~= us0.take(k as int));
                assert(us0.take(k + 1).last() == us0[k as int]);
                assert(us0[k as int] == self.user_collections@[k as int]@);
            }
            let ghost before = picked@.map_values(|x: UserCollection| x@);
            if self.user_collections[k].user_id == uid {
                picked.push(self.user_collections[k]);
                proof {
                    assert(picked@.map_values(|x: UserCollection| x@) =~= before.push(
                        us0[k as int],
                    ));
                }
            }
            k += 1;
        }
        proof {
            assert(us0.take(n as int) =~= us0);
            lemma_keep_contains(us0, upred);
        }
        let ghost rows = user_ucs(us0, u);
        proof {
            assert forall|i: int|
                0 <= i < rows.len() implies old(self).ucols().contains(#[trigger] rows[i]) by {
                assert(rows.contains(rows[i]));
            }
        }
        let mut out: Vec<(String, SyncTimestamp)> = Vec::new();
        let pn = picked.len();
        let mut j: usize = 0;
        while j < pn
            invariant
                pn == picked.len(),
                j <= pn,
                self.wf(),
                Self::same_tables(*old(self), *self),
                self.session == old(self).session,
                self.snapshot == old(self).snapshot,
                rows == picked@.map_values(|x: UserCollection| x@),
                rows == user_ucs(old(self).ucols(), u),
                forall|i: int|
                    0 <= i < rows.len() ==> old(self).ucols().contains(#[trigger] rows[i]),
                out@.len() == j,
                forall|i: int|
                    0 <= i < j ==> (#[trigger] out@[i]).0@ == coll_name_by_id(
                        old(self).colls(),
                        rows[i].collection_id,
                    ) && out@[i].1.as_int() == rows[i].modified,
            decreases pn - j,
        {
            proof {
                assert(rows[j as int] == picked@[j as int]@);
                assert(old(self).ucols().contains(rows[j as int]));
                let w = choose|w: int|
                    0 <= w < old(self).ucols().len() && old(self).ucols()[w] == rows[j as int];
                assert(has_coll_id(self.colls(), rows[j as int].collection_id));
            }
            let name = match self.get_collection_name(picked[j].collection_id) {
                Ok(nm) => nm,
                Err(_) => {
                    proof {
                        assert(false);
                    }
                    return Err(DbError::Internal);
                },
            };
            let modified = picked[j].modified;
            proof {
                let rj = rows[j as int];
                assert(rj.modified >= 0) by {
                    let w = choose|w: int|
                        0 <= w < old(self).ucols().len() && old(self).ucols()[w] == rj;
                }
            }
            out.push((name, SyncTimestamp { millis: modified }));
            j += 1;
        }
        Ok(out)
    }
}

} // verus!
