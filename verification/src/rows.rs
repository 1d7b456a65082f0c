//! The rows of the store's three tables, their ghost views, and the
//! spec-level model of every operation on them.
//!
//! The tables are modelled as sequences of row values:
//! `collections` (id, name — names and ids unique), `user_collections`
//! (one row per (user, collection) the user has written to, holding the
//! authoritative last-write timestamp), and `bso` (keyed by
//! (user, collection, id)). Every executable operation of the engine is
//! specified as a function over these sequences.

use vstd::prelude::*;
use vstd::utf8::encode_utf8;

use crate::params::{PostItemV, QueryV, Sorting};

verus! {

/// One row of the `collections` table.
pub struct Collection {
    pub id: i32,
    pub name: String,
}

/// Ghost value of a `collections` row.
pub ghost struct CollectionV {
    pub id: int,
    pub name: Seq<char>,
}

impl View for Collection {
    type V = CollectionV;

    open spec fn view(&self) -> CollectionV {
        CollectionV { id: self.id as int, name: self.name@ }
    }
}

impl Collection {
    /// An equal copy of the row.
    pub fn duplicate(&self) -> (r: Collection)
        ensures
            r == *self,
    {
        Collection { id: self.id, name: self.name.clone() }
    }
}

/// One row of the `user_collections` table.
#[derive(Clone, Copy)]
pub struct UserCollection {
    pub user_id: u64,
    pub collection_id: i32,
    pub modified: i64,
}

/// Ghost value of a `user_collections` row.
pub ghost struct UserCollectionV {
    pub user_id: int,
    pub collection_id: int,
    pub modified: int,
}

impl View for UserCollection {
    type V = UserCollectionV;

    open spec fn view(&self) -> UserCollectionV {
        UserCollectionV {
            user_id: self.user_id as int,
            collection_id: self.collection_id as int,
            modified: self.modified as int,
        }
    }
}

/// One row of the `bso` table.
pub struct Bso {
    pub user_id: u64,
    pub collection_id: i32,
    pub id: String,
    pub sortindex: Option<i32>,
    pub payload: String,
    pub modified: i64,
    pub expiry: i64,
}

/// Ghost value of a `bso` row.
pub ghost struct BsoV {
    pub user_id: int,
    pub collection_id: int,
    pub id: Seq<char>,
    pub sortindex: Option<i32>,
    pub payload: Seq<char>,
    pub modified: int,
    pub expiry: int,
}

impl View for Bso {
    type V = BsoV;

    open spec fn view(&self) -> BsoV {
        BsoV {
            user_id: self.user_id as int,
            collection_id: self.collection_id as int,
            id: self.id@,
            sortindex: self.sortindex,
            payload: self.payload@,
            modified: self.modified as int,
            expiry: self.expiry as int,
        }
    }
}

impl Bso {
    /// An equal copy of the row.
    pub fn duplicate(&self) -> (r: Bso)
        ensures
            r == *self,
    {
        Bso {
            user_id: self.user_id,
            collection_id: self.collection_id,
            id: self.id.clone(),
            sortindex: self.sortindex,
            payload: self.payload.clone(),
            modified: self.modified,
            expiry: self.expiry,
        }
    }
}

// ------------------------------------------------------------------
// Sequences with unique keys.
// ------------------------------------------------------------------

/// The subsequence of elements satisfying `p`, in order.
pub open spec fn keep<T>(s: Seq<T>, p: spec_fn(T) -> bool) -> Seq<T>
    decreases s.len(),
{
    if s.len() == 0 {
        Seq::empty()
    } else if p(s.last()) {
        keep(s.drop_last(), p).push(s.last())
    } else {
        keep(s.drop_last(), p)
    }
}

/// No two elements share a key.
pub open spec fn unique_by<T, K>(s: Seq<T>, key: spec_fn(T) -> K) -> bool {
    forall|i: int, j: int| 0 <= i < j < s.len() ==> key(s[i]) != key(s[j])
}

/// `keep` returns exactly the elements that satisfy the predicate.
pub proof fn lemma_keep_contains<T>(s: Seq<T>, p: spec_fn(T) -> bool)
    ensures
        forall|x: T| #[trigger] keep(s, p).contains(x) <==> s.contains(x) && p(x),
    decreases s.len(),
{
    if s.len() == 0 {
    } else {
        lemma_keep_contains(s.drop_last(), p);
        assert forall|x: T| #[trigger] keep(s, p).contains(x) implies s.contains(x) && p(x) by {
            if keep(s.drop_last(), p).contains(x) {
                let i = choose|i: int|
                    0 <= i < s.drop_last().len() && s.drop_last()[i] == x;
                assert(s[i] == x);
            }
        }
        assert forall|x: T| s.contains(x) && p(x) implies #[trigger] keep(s, p).contains(x) by {
            let i = choose|i: int| 0 <= i < s.len() && s[i] == x;
            if i < s.len() - 1 {
                assert(s.drop_last()[i] == x);
                assert(keep(s.drop_last(), p).contains(x));
                if p(s.last()) {
                    let j = choose|j: int|
                        0 <= j < keep(s.drop_last(), p).len() && keep(s.drop_last(), p)[j] == x;
                    assert(keep(s, p)[j] == x);
                }
            } else {
                assert(x == s.last());
                assert(keep(s, p).last() == x);
            }
        }
    }
}

/// `keep` never lengthens a sequence.
pub proof fn lemma_keep_len<T>(s: Seq<T>, p: spec_fn(T) -> bool)
    ensures
        keep(s, p).len() <= s.len(),
    decreases s.len(),
{
    if s.len() == 0 {
    } else {
        lemma_keep_len(s.drop_last(), p);
    }
}

/// If every element satisfies the predicate, `keep` is the identity.
pub proof fn lemma_keep_all<T>(s: Seq<T>, p: spec_fn(T) -> bool)
    requires
        forall|i: int| 0 <= i < s.len() ==> p(#[trigger] s[i]),
    ensures
        keep(s, p) == s,
    decreases s.len(),
{
    if s.len() == 0 {
        assert(keep(s, p) =~= s);
    } else {
        assert(forall|i: int|
            0 <= i < s.drop_last().len() ==> #[trigger] s.drop_last()[i] == s[i]);
        lemma_keep_all(s.drop_last(), p);
        assert(keep(s, p) =~= s);
    }
}

/// If some element fails the predicate, `keep` is strictly shorter.
pub proof fn lemma_keep_shorter<T>(s: Seq<T>, p: spec_fn(T) -> bool, i: int)
    requires
        0 <= i < s.len(),
        !p(s[i]),
    ensures
        keep(s, p).len() < s.len(),
    decreases s.len(),
{
    lemma_keep_len(s.drop_last(), p);
    if i == s.len() - 1 {
    } else {
        assert(s.drop_last()[i] == s[i]);
        lemma_keep_shorter(s.drop_last(), p, i);
    }
}

/// `keep` preserves key uniqueness.
pub proof fn lemma_keep_unique_by<T, K>(s: Seq<T>, p: spec_fn(T) -> bool, key: spec_fn(T) -> K)
    requires
        unique_by(s, key),
    ensures
        unique_by(keep(s, p), key),
    decreases s.len(),
{
    if s.len() == 0 {
    } else {
        assert(unique_by(s.drop_last(), key)) by {
            assert(forall|i: int|
                0 <= i < s.drop_last().len() ==> s.drop_last()[i] == s[i]);
        }
        lemma_keep_unique_by(s.drop_last(), p, key);
        lemma_keep_contains(s.drop_last(), p);
        if p(s.last()) {
            let t = keep(s.drop_last(), p).push(s.last());
            assert forall|i: int, j: int| 0 <= i < j < t.len() implies key(t[i]) != key(t[j]) by {
                if j == t.len() - 1 {
                    assert(keep(s.drop_last(), p).contains(t[i]));
                    let k = choose|k: int|
                        0 <= k < s.drop_last().len() && s.drop_last()[k] == t[i];
                    assert(s[k] == t[i]);
                    assert(key(s[k]) != key(s[s.len() - 1]));
                }
            }
        }
    }
}

// ------------------------------------------------------------------
// The collections table.
// ------------------------------------------------------------------

/// Some collection row carries this name.
pub open spec fn has_coll_name(s: Seq<CollectionV>, name: Seq<char>) -> bool {
    exists|i: int| 0 <= i < s.len() && s[i].name == name
}

/// The id of the collection with the given name.
pub open spec fn coll_id_by_name(s: Seq<CollectionV>, name: Seq<char>) -> int {
    let i = choose|i: int| 0 <= i < s.len() && s[i].name == name;
    s[i].id
}

/// Some collection row carries this id.
pub open spec fn has_coll_id(s: Seq<CollectionV>, id: int) -> bool {
    exists|i: int| 0 <= i < s.len() && s[i].id == id
}

/// The name of the collection with the given id.
pub open spec fn coll_name_by_id(s: Seq<CollectionV>, id: int) -> Seq<char> {
    let i = choose|i: int| 0 <= i < s.len() && s[i].id == id;
    s[i].name
}

/// Well-formed collections table: ids and names unique, ids positive and
/// below the generator.
pub open spec fn colls_wf(s: Seq<CollectionV>, next_id: int) -> bool {
    &&& forall|i: int, j: int|
        0 <= i < j < s.len() ==> s[i].id != s[j].id && s[i].name != s[j].name
    &&& forall|i: int| 0 <= i < s.len() ==> 1 <= #[trigger] s[i].id < next_id
}

// ------------------------------------------------------------------
// The user_collections table.
// ------------------------------------------------------------------

/// The row belongs to this (user, collection) pair.
pub open spec fn uc_match(r: UserCollectionV, user: int, coll: int) -> bool {
    r.user_id == user && r.collection_id == coll
}

/// A row for this (user, collection) pair exists.
pub open spec fn has_uc(s: Seq<UserCollectionV>, user: int, coll: int) -> bool {
    exists|i: int| 0 <= i < s.len() && uc_match(s[i], user, coll)
}

/// The position of the row for this (user, collection) pair.
pub open spec fn uc_index(s: Seq<UserCollectionV>, user: int, coll: int) -> int {
    choose|i: int| 0 <= i < s.len() && uc_match(s[i], user, coll)
}

/// The last-write timestamp recorded for this (user, collection) pair.
pub open spec fn uc_modified(s: Seq<UserCollectionV>, user: int, coll: int) -> int {
    s[uc_index(s, user, coll)].modified
}

/// The key of a `user_collections` row.
pub open spec fn uc_key(r: UserCollectionV) -> (int, int) {
    (r.user_id, r.collection_id)
}

/// At most one row per (user, collection) pair.
pub open spec fn ucs_unique(s: Seq<UserCollectionV>) -> bool {
    unique_by(s, |r: UserCollectionV| uc_key(r))
}

/// The table after a "touch": the pair's `modified` is set to `ts`,
/// the row being created if absent.
pub open spec fn apply_touch(s: Seq<UserCollectionV>, user: int, coll: int, ts: int) -> Seq<
    UserCollectionV,
> {
    let row = UserCollectionV { user_id: user, collection_id: coll, modified: ts };
    if has_uc(s, user, coll) {
        s.update(uc_index(s, user, coll), row)
    } else {
        s.push(row)
    }
}

/// The table after deleting the row of one (user, collection) pair.
pub open spec fn delete_uc(s: Seq<UserCollectionV>, user: int, coll: int) -> Seq<
    UserCollectionV,
> {
    keep(s, |r: UserCollectionV| !uc_match(r, user, coll))
}

/// The table after deleting every row of one user.
pub open spec fn delete_user_ucs(s: Seq<UserCollectionV>, user: int) -> Seq<UserCollectionV> {
    keep(s, |r: UserCollectionV| r.user_id != user)
}

/// The rows of one user, in table order.
pub open spec fn user_ucs(s: Seq<UserCollectionV>, user: int) -> Seq<UserCollectionV> {
    keep(s, |r: UserCollectionV| r.user_id == user)
}

/// The maximum `modified` across a user's collections, `0` when the user
/// has none.
pub open spec fn storage_max(s: Seq<UserCollectionV>, user: int) -> int
    decreases s.len(),
{
    if s.len() == 0 {
        0
    } else {
        let rest = storage_max(s.drop_last(), user);
        if s.last().user_id == user && s.last().modified > rest {
            s.last().modified
        } else {
            rest
        }
    }
}

// ------------------------------------------------------------------
// The bso table: keys and upserts.
// ------------------------------------------------------------------

/// The row carries this (user, collection, id) key.
pub open spec fn bso_match(b: BsoV, user: int, coll: int, id: Seq<char>) -> bool {
    b.user_id == user && b.collection_id == coll && b.id == id
}

/// A row with this key exists.
pub open spec fn has_bso(s: Seq<BsoV>, user: int, coll: int, id: Seq<char>) -> bool {
    exists|i: int| 0 <= i < s.len() && bso_match(s[i], user, coll, id)
}

/// The position of the row with this key.
pub open spec fn bso_index(s: Seq<BsoV>, user: int, coll: int, id: Seq<char>) -> int {
    choose|i: int| 0 <= i < s.len() && bso_match(s[i], user, coll, id)
}

/// The key of a `bso` row.
pub open spec fn bso_key(b: BsoV) -> (int, int, Seq<char>) {
    (b.user_id, b.collection_id, b.id)
}

/// At most one row per key.
pub open spec fn bsos_unique(s: Seq<BsoV>) -> bool {
    unique_by(s, |b: BsoV| bso_key(b))
}

/// The ttl given to rows that are never supposed to expire (in seconds).
pub const DEFAULT_BSO_TTL: u32 = 2_100_000_000;

/// An absolute expiry: `ts` plus the ttl in milliseconds, saturated at the
/// largest representable timestamp.
pub open spec fn expiry_of(ts: int, ttl: u32) -> int {
    if ts + (ttl as int) * 1000 > i64::MAX {
        i64::MAX as int
    } else {
        ts + (ttl as int) * 1000
    }
}

/// A freshly inserted row: absent fields take their defaults (empty
/// payload, no sort index, practically-infinite ttl).
pub open spec fn new_bso_v(
    user: int,
    coll: int,
    id: Seq<char>,
    payload: Option<Seq<char>>,
    sortindex: Option<i32>,
    ttl: Option<u32>,
    ts: int,
) -> BsoV {
    BsoV {
        user_id: user,
        collection_id: coll,
        id: id,
        sortindex: sortindex,
        payload: match payload {
            Some(p) => p,
            None => Seq::empty(),
        },
        modified: ts,
        expiry: expiry_of(
            ts,
            match ttl {
                Some(t) => t,
                None => DEFAULT_BSO_TTL,
            },
        ),
    }
}

/// An updated row: only supplied fields change; `modified` is bumped
/// exactly when payload or sortindex is supplied; a ttl alone recomputes
/// `expiry` without clock churn.
pub open spec fn updated_bso_v(
    b: BsoV,
    payload: Option<Seq<char>>,
    sortindex: Option<i32>,
    ttl: Option<u32>,
    ts: int,
) -> BsoV {
    BsoV {
        payload: match payload {
            Some(p) => p,
            None => b.payload,
        },
        sortindex: match sortindex {
            Some(x) => Some(x),
            None => b.sortindex,
        },
        expiry: match ttl {
            Some(t) => expiry_of(ts, t),
            None => b.expiry,
        },
        modified: if payload is Some || sortindex is Some {
            ts
        } else {
            b.modified
        },
        ..b
    }
}

/// The table after one upsert.
pub open spec fn apply_put(
    s: Seq<BsoV>,
    user: int,
    coll: int,
    item: PostItemV,
    ts: int,
) -> Seq<BsoV> {
    if has_bso(s, user, coll, item.id) {
        let i = bso_index(s, user, coll, item.id);
        s.update(i, updated_bso_v(s[i], item.payload, item.sortindex, item.ttl, ts))
    } else {
        s.push(new_bso_v(user, coll, item.id, item.payload, item.sortindex, item.ttl, ts))
    }
}

/// The table after a batch of upserts, applied in order.
pub open spec fn apply_put_all(
    s: Seq<BsoV>,
    user: int,
    coll: int,
    items: Seq<PostItemV>,
    ts: int,
) -> Seq<BsoV>
    decreases items.len(),
{
    if items.len() == 0 {
        s
    } else {
        apply_put_all(apply_put(s, user, coll, items[0], ts), user, coll, items.drop_first(), ts)
    }
}

/// What one "touch" does to a well-formed table: the pair's row now reads
/// `ts`, every other row is untouched.
pub proof fn lemma_apply_touch(s: Seq<UserCollectionV>, user: int, coll: int, ts: int)
    requires
        ucs_unique(s),
    ensures
        ({
            let t = apply_touch(s, user, coll, ts);
            &&& ucs_unique(t)
            &&& has_uc(t, user, coll)
            &&& uc_modified(t, user, coll) == ts
            &&& t.len() == if has_uc(s, user, coll) {
                s.len()
            } else {
                s.len() + 1
            }
            &&& forall|i: int|
                0 <= i < t.len() ==> #[trigger] t[i] == (UserCollectionV {
                    user_id: user,
                    collection_id: coll,
                    modified: ts,
                }) || (s.contains(t[i]) && !uc_match(t[i], user, coll))
            &&& forall|uu: int, cc: int|
                #![trigger has_uc(t, uu, cc)]
                #![trigger has_uc(s, uu, cc)]
                !(uu == user && cc == coll) ==> (has_uc(t, uu, cc) <==> has_uc(s, uu, cc))
            &&& forall|uu: int, cc: int|
                #![trigger uc_modified(t, uu, cc)]
                #![trigger uc_modified(s, uu, cc)]
                #![trigger has_uc(s, uu, cc)]
                !(uu == user && cc == coll) && has_uc(s, uu, cc) ==> uc_modified(t, uu, cc)
                    == uc_modified(s, uu, cc)
        }),
{
    let row = UserCollectionV { user_id: user, collection_id: coll, modified: ts };
    let t = apply_touch(s, user, coll, ts);
    if has_uc(s, user, coll) {
        let i0 = uc_index(s, user, coll);
        assert(0 <= i0 < s.len() && uc_match(s[i0], user, coll));
        assert(forall|j: int|
            0 <= j < s.len() && uc_match(s[j], user, coll) ==> j == i0);
        assert(t[i0] == row);
        assert(has_uc(t, user, coll));
        assert(forall|j: int|
            0 <= j < t.len() && uc_match(t[j], user, coll) ==> j == i0);
        assert(uc_index(t, user, coll) == i0);
        assert(uc_modified(t, user, coll) == ts);
        assert forall|i: int, j: int| 0 <= i < j < t.len() implies uc_key(t[i]) != uc_key(t[j]) by {
            assert(uc_key(t[i]) == uc_key(s[i]));
            assert(uc_key(t[j]) == uc_key(s[j]));
        }
        assert(ucs_unique(t));
        assert(forall|i: int|
            0 <= i < t.len() && i != i0 ==> #[trigger] t[i] == s[i] && s.contains(s[i]));
        assert forall|uu: int, cc: int|
            #![trigger has_uc(s, uu, cc)]
            !(uu == user && cc == coll) && has_uc(s, uu, cc) implies has_uc(t, uu, cc)
            && uc_modified(t, uu, cc) == uc_modified(s, uu, cc) by {
            let k = uc_index(s, uu, cc);
            assert(k != i0);
            assert(uc_match(t[k], uu, cc));
            let k2 = uc_index(t, uu, cc);
            assert(uc_match(t[k2], uu, cc));
            assert(k2 != i0);
            assert(uc_match(s[k2], uu, cc));
            assert(k2 == k);
        }
        assert forall|uu: int, cc: int|
            #![trigger has_uc(t, uu, cc)]
            !(uu == user && cc == coll) && has_uc(t, uu, cc) implies has_uc(s, uu, cc) by {
            let k = uc_index(t, uu, cc);
            assert(k != i0);
            assert(uc_match(s[k], uu, cc));
        }
    } else {
        assert(t == s.push(row));
        assert(forall|i: int| 0 <= i < s.len() ==> #[trigger] t[i] == s[i]);
        assert(t[s.len() as int] == row);
        assert(forall|j: int|
            0 <= j < s.len() ==> !uc_match(s[j], user, coll));
        assert(forall|j: int|
            0 <= j < t.len() && uc_match(t[j], user, coll) ==> j == s.len());
        assert(uc_index(t, user, coll) == s.len());
        assert(uc_modified(t, user, coll) == ts);
        assert forall|i: int, j: int| 0 <= i < j < t.len() implies uc_key(t[i]) != uc_key(t[j]) by {
            if j == s.len() {
                assert(!uc_match(s[i], user, coll));
                assert(uc_key(t[j]) == (user, coll));
            } else {
                assert(uc_key(t[i]) == uc_key(s[i]));
                assert(uc_key(t[j]) == uc_key(s[j]));
            }
        }
        assert(ucs_unique(t));
        assert(forall|i: int|
            0 <= i < s.len() ==> s.contains(s[i]));
        assert forall|uu: int, cc: int|
            #![trigger has_uc(s, uu, cc)]
            !(uu == user && cc == coll) && has_uc(s, uu, cc) implies has_uc(t, uu, cc)
            && uc_modified(t, uu, cc) == uc_modified(s, uu, cc) by {
            let k = uc_index(s, uu, cc);
            assert(uc_match(t[k], uu, cc));
            let k2 = uc_index(t, uu, cc);
            assert(uc_match(t[k2], uu, cc));
            assert(k2 != s.len());
            assert(uc_match(s[k2], uu, cc));
            assert(k2 == k);
        }
        assert forall|uu: int, cc: int|
            #![trigger has_uc(t, uu, cc)]
            !(uu == user && cc == coll) && has_uc(t, uu, cc) implies has_uc(s, uu, cc) by {
            let k = uc_index(t, uu, cc);
            assert(k != s.len());
            assert(uc_match(s[k], uu, cc));
        }
    }
}

/// Touching twice with the same timestamp is the same as touching once.
pub proof fn lemma_touch_idempotent(s: Seq<UserCollectionV>, user: int, coll: int, ts: int)
    requires
        ucs_unique(s),
    ensures
        apply_touch(apply_touch(s, user, coll, ts), user, coll, ts) == apply_touch(
            s,
            user,
            coll,
            ts,
        ),
{
    lemma_apply_touch(s, user, coll, ts);
    let t = apply_touch(s, user, coll, ts);
    let i = uc_index(t, user, coll);
    assert(uc_match(t[i], user, coll));
    assert(t[i].modified == ts);
    assert(t[i] == UserCollectionV { user_id: user, collection_id: coll, modified: ts });
    assert(apply_touch(t, user, coll, ts) =~= t);
}

/// What one upsert does to a well-formed table: the key's row is updated
/// or created, every other row is untouched.
pub proof fn lemma_apply_put(s: Seq<BsoV>, user: int, coll: int, item: PostItemV, ts: int)
    requires
        bsos_unique(s),
    ensures
        ({
            let t = apply_put(s, user, coll, item, ts);
            &&& bsos_unique(t)
            &&& has_bso(t, user, coll, item.id)
            &&& t.len() == if has_bso(s, user, coll, item.id) {
                s.len()
            } else {
                s.len() + 1
            }
            &&& t[bso_index(t, user, coll, item.id)] == if has_bso(s, user, coll, item.id) {
                updated_bso_v(
                    s[bso_index(s, user, coll, item.id)],
                    item.payload,
                    item.sortindex,
                    item.ttl,
                    ts,
                )
            } else {
                new_bso_v(user, coll, item.id, item.payload, item.sortindex, item.ttl, ts)
            }
            &&& forall|i: int|
                0 <= i < t.len() ==> #[trigger] bso_match(t[i], user, coll, item.id) || (
                s.contains(t[i]) && !bso_match(t[i], user, coll, item.id))
            &&& forall|uu: int, cc: int, idd: Seq<char>|
                #![trigger has_bso(t, uu, cc, idd)]
                #![trigger has_bso(s, uu, cc, idd)]
                !(uu == user && cc == coll && idd == item.id) ==> (has_bso(t, uu, cc, idd)
                    <==> has_bso(s, uu, cc, idd))
            &&& forall|uu: int, cc: int, idd: Seq<char>|
                #![trigger bso_index(t, uu, cc, idd)]
                #![trigger bso_index(s, uu, cc, idd)]
                #![trigger has_bso(s, uu, cc, idd)]
                !(uu == user && cc == coll && idd == item.id) && has_bso(s, uu, cc, idd)
                    ==> t[bso_index(t, uu, cc, idd)] == s[bso_index(s, uu, cc, idd)]
        }),
{
    let t = apply_put(s, user, coll, item, ts);
    if has_bso(s, user, coll, item.id) {
        let i0 = bso_index(s, user, coll, item.id);
        assert(0 <= i0 < s.len() && bso_match(s[i0], user, coll, item.id));
        assert(forall|j: int|
            0 <= j < s.len() && bso_match(s[j], user, coll, item.id) ==> j == i0);
        assert(bso_match(t[i0], user, coll, item.id));
        assert(forall|j: int|
            0 <= j < t.len() && bso_match(t[j], user, coll, item.id) ==> j == i0);
        assert(bso_index(t, user, coll, item.id) == i0);
        assert forall|i: int, j: int| 0 <= i < j < t.len() implies bso_key(t[i]) != bso_key(
            t[j],
        ) by {
            assert(bso_key(t[i]) == bso_key(s[i]));
            assert(bso_key(t[j]) == bso_key(s[j]));
        }
        assert(bsos_unique(t));
        assert(forall|i: int|
            0 <= i < t.len() && i != i0 ==> #[trigger] t[i] == s[i] && s.contains(s[i]));
        assert forall|uu: int, cc: int, idd: Seq<char>|
            #![trigger has_bso(s, uu, cc, idd)]
            !(uu == user && cc == coll && idd == item.id) && has_bso(s, uu, cc, idd) implies
            has_bso(t, uu, cc, idd) && t[bso_index(t, uu, cc, idd)] == s[bso_index(
            s,
            uu,
            cc,
            idd,
        )] && bso_index(t, uu, cc, idd) == bso_index(s, uu, cc, idd) by {
            let k = bso_index(s, uu, cc, idd);
            assert(k != i0);
            assert(bso_match(t[k], uu, cc, idd));
            let k2 = bso_index(t, uu, cc, idd);
            assert(bso_match(t[k2], uu, cc, idd));
            assert(k2 != i0);
            assert(bso_match(s[k2], uu, cc, idd));
            assert(k2 == k);
        }
        assert forall|uu: int, cc: int, idd: Seq<char>|
            #![trigger has_bso(t, uu, cc, idd)]
            !(uu == user && cc == coll && idd == item.id) && has_bso(t, uu, cc, idd) implies
            has_bso(s, uu, cc, idd) by {
            let k = bso_index(t, uu, cc, idd);
            assert(k != i0);
            assert(bso_match(s[k], uu, cc, idd));
        }
    } else {
        let row = new_bso_v(user, coll, item.id, item.payload, item.sortindex, item.ttl, ts);
        assert(t == s.push(row));
        assert(forall|i: int| 0 <= i < s.len() ==> #[trigger] t[i] == s[i]);
        assert(t[s.len() as int] == row);
        assert(bso_match(row, user, coll, item.id));
        assert(forall|j: int|
            0 <= j < s.len() ==> !bso_match(s[j], user, coll, item.id));
        assert(forall|j: int|
            0 <= j < t.len() && bso_match(t[j], user, coll, item.id) ==> j == s.len());
        assert(bso_index(t, user, coll, item.id) == s.len());
        assert forall|i: int, j: int| 0 <= i < j < t.len() implies bso_key(t[i]) != bso_key(
            t[j],
        ) by {
            if j == s.len() {
                assert(!bso_match(s[i], user, coll, item.id));
                assert(bso_key(t[j]) == (user, coll, item.id));
            } else {
                assert(bso_key(t[i]) == bso_key(s[i]));
                assert(bso_key(t[j]) == bso_key(s[j]));
            }
        }
        assert(bsos_unique(t));
        assert(forall|i: int|
            0 <= i < s.len() ==> s.contains(s[i]));
        assert forall|uu: int, cc: int, idd: Seq<char>|
            #![trigger has_bso(s, uu, cc, idd)]
            !(uu == user && cc == coll && idd == item.id) && has_bso(s, uu, cc, idd) implies
            has_bso(t, uu, cc, idd) && t[bso_index(t, uu, cc, idd)] == s[bso_index(
            s,
            uu,
            cc,
            idd,
        )] && bso_index(t, uu, cc, idd) == bso_index(s, uu, cc, idd) by {
            let k = bso_index(s, uu, cc, idd);
            assert(bso_match(t[k], uu, cc, idd));
            let k2 = bso_index(t, uu, cc, idd);
            assert(bso_match(t[k2], uu, cc, idd));
            assert(k2 != s.len());
            assert(bso_match(s[k2], uu, cc, idd));
            assert(k2 == k);
        }
        assert forall|uu: int, cc: int, idd: Seq<char>|
            #![trigger has_bso(t, uu, cc, idd)]
            !(uu == user && cc == coll && idd == item.id) && has_bso(t, uu, cc, idd) implies
            has_bso(s, uu, cc, idd) by {
            let k = bso_index(t, uu, cc, idd);
            assert(k != s.len());
            assert(bso_match(s[k], uu, cc, idd));
        }
    }
}

/// A batch extended by one item is the batch, then that item.
pub proof fn lemma_apply_put_all_snoc(
    s: Seq<BsoV>,
    user: int,
    coll: int,
    items: Seq<PostItemV>,
    x: PostItemV,
    ts: int,
)
    ensures
        apply_put_all(s, user, coll, items.push(x), ts) == apply_put(
            apply_put_all(s, user, coll, items, ts),
            user,
            coll,
            x,
            ts,
        ),
    decreases items.len(),
{
    let snoc = items.push(x);
    if items.len() == 0 {
        assert(snoc[0] == x);
        assert(snoc.drop_first() =~= Seq::<PostItemV>::empty());
        let t1 = apply_put(s, user, coll, x, ts);
        assert(apply_put_all(s, user, coll, snoc, ts) == apply_put_all(
            t1,
            user,
            coll,
            snoc.drop_first(),
            ts,
        ));
        assert(apply_put_all(t1, user, coll, snoc.drop_first(), ts) == t1);
        assert(apply_put_all(s, user, coll, items, ts) == s);
    } else {
        assert(snoc[0] == items[0]);
        assert(snoc.drop_first() =~= items.drop_first().push(x));
        let t1 = apply_put(s, user, coll, items[0], ts);
        assert(apply_put_all(s, user, coll, snoc, ts) == apply_put_all(
            t1,
            user,
            coll,
            items.drop_first().push(x),
            ts,
        ));
        lemma_apply_put_all_snoc(t1, user, coll, items.drop_first(), x, ts);
        assert(apply_put_all(s, user, coll, items, ts) == apply_put_all(
            t1,
            user,
            coll,
            items.drop_first(),
            ts,
        ));
    }
}

// ------------------------------------------------------------------
// The bso table: deletes.
// ------------------------------------------------------------------

/// A live (not yet expired) row with this key exists.
pub open spec fn has_live_bso(s: Seq<BsoV>, user: int, coll: int, id: Seq<char>, now: int) -> bool {
    exists|i: int| 0 <= i < s.len() && bso_match(s[i], user, coll, id) && s[i].expiry > now
}

/// The table after a bulk delete by id list (expiry is not consulted).
pub open spec fn delete_bsos_v(s: Seq<BsoV>, user: int, coll: int, ids: Seq<Seq<char>>) -> Seq<
    BsoV,
> {
    keep(s, |b: BsoV| !(b.user_id == user && b.collection_id == coll && ids.contains(b.id)))
}

/// The table after deleting every row of one (user, collection) pair.
pub open spec fn delete_coll_bsos(s: Seq<BsoV>, user: int, coll: int) -> Seq<BsoV> {
    keep(s, |b: BsoV| !(b.user_id == user && b.collection_id == coll))
}

/// The table after deleting every row of one user.
pub open spec fn delete_user_bsos(s: Seq<BsoV>, user: int) -> Seq<BsoV> {
    keep(s, |b: BsoV| b.user_id != user)
}

/// Any row of this (user, collection) pair exists (expiry not consulted).
pub open spec fn has_coll_bso(s: Seq<BsoV>, user: int, coll: int) -> bool {
    exists|i: int| 0 <= i < s.len() && s[i].user_id == user && s[i].collection_id == coll
}

// ------------------------------------------------------------------
// The bso table: queries and accounting.
// ------------------------------------------------------------------

/// The row is live and satisfies every filter of the query.
pub open spec fn bso_live_match(b: BsoV, user: int, coll: int, q: QueryV, now: int) -> bool {
    &&& b.user_id == user
    &&& b.collection_id == coll
    &&& b.expiry > now
    &&& match q.older {
        Some(o) => b.modified < o,
        None => true,
    }
    &&& match q.newer {
        Some(n) => b.modified > n,
        None => true,
    }
    &&& (q.ids.len() > 0 ==> q.ids.contains(b.id))
}

/// The rows a query selects, in table order.
pub open spec fn filter_bsos(s: Seq<BsoV>, user: int, coll: int, q: QueryV, now: int) -> Seq<
    BsoV,
> {
    keep(s, |b: BsoV| bso_live_match(b, user, coll, q, now))
}

/// The total payload length of a user's live rows.
pub open spec fn live_usage(s: Seq<BsoV>, user: int, now: int) -> int
    decreases s.len(),
{
    if s.len() == 0 {
        0
    } else {
        live_usage(s.drop_last(), user, now) + if s.last().user_id == user && s.last().expiry
            > now {
            encode_utf8(s.last().payload).len() as int
        } else {
            0
        }
    }
}

/// The total payload length of one (user, collection)'s live rows.
pub open spec fn live_coll_usage(s: Seq<BsoV>, user: int, coll: int, now: int) -> int
    decreases s.len(),
{
    if s.len() == 0 {
        0
    } else {
        live_coll_usage(s.drop_last(), user, coll, now) + if s.last().user_id == user
            && s.last().collection_id == coll && s.last().expiry > now {
            encode_utf8(s.last().payload).len() as int
        } else {
            0
        }
    }
}

/// How many live rows one (user, collection) has.
pub open spec fn live_coll_count(s: Seq<BsoV>, user: int, coll: int, now: int) -> int
    decreases s.len(),
{
    if s.len() == 0 {
        0
    } else {
        live_coll_count(s.drop_last(), user, coll, now) + if s.last().user_id == user
            && s.last().collection_id == coll && s.last().expiry > now {
            1int
        } else {
            0int
        }
    }
}

/// A payload total is never negative.
pub proof fn lemma_live_usage_nonneg(s: Seq<BsoV>, user: int, now: int)
    ensures
        live_usage(s, user, now) >= 0,
    decreases s.len(),
{
    if s.len() > 0 {
        lemma_live_usage_nonneg(s.drop_last(), user, now);
    }
}

/// A per-collection payload total is never negative.
pub proof fn lemma_live_coll_usage_nonneg(s: Seq<BsoV>, user: int, coll: int, now: int)
    ensures
        live_coll_usage(s, user, coll, now) >= 0,
    decreases s.len(),
{
    if s.len() > 0 {
        lemma_live_coll_usage_nonneg(s.drop_last(), user, coll, now);
    }
}

/// A live-row count is never negative.
pub proof fn lemma_live_coll_count_nonneg(s: Seq<BsoV>, user: int, coll: int, now: int)
    ensures
        live_coll_count(s, user, coll, now) >= 0,
    decreases s.len(),
{
    if s.len() > 0 {
        lemma_live_coll_count_nonneg(s.drop_last(), user, coll, now);
    }
}

/// The (user, collection) has at least one live row.
pub open spec fn has_live_coll(s: Seq<BsoV>, user: int, coll: int, now: int) -> bool {
    exists|i: int|
        0 <= i < s.len() && s[i].user_id == user && s[i].collection_id == coll && s[i].expiry > now
}

/// Without a live row, the pair's payload total and count are zero.
pub proof fn lemma_no_live_zero(s: Seq<BsoV>, user: int, coll: int, now: int)
    requires
        !has_live_coll(s, user, coll, now),
    ensures
        live_coll_usage(s, user, coll, now) == 0,
        live_coll_count(s, user, coll, now) == 0,
    decreases s.len(),
{
    if s.len() > 0 {
        assert(!has_live_coll(s.drop_last(), user, coll, now)) by {
            if has_live_coll(s.drop_last(), user, coll, now) {
                let i = choose|i: int|
                    0 <= i < s.drop_last().len() && s.drop_last()[i].user_id == user
                        && s.drop_last()[i].collection_id == coll && s.drop_last()[i].expiry > now;
                assert(s[i] == s.drop_last()[i]);
            }
        }
        lemma_no_live_zero(s.drop_last(), user, coll, now);
        assert(!(s.last().user_id == user && s.last().collection_id == coll && s.last().expiry
            > now)) by {
            if s.last().user_id == user && s.last().collection_id == coll && s.last().expiry
                > now {
                assert(s[s.len() - 1] == s.last());
            }
        }
    }
}

// ------------------------------------------------------------------
// Ordering and pagination.
// ------------------------------------------------------------------

/// The sort key used by `Sorting::Index`: rows without a `sortindex` come
/// after every row that has one.
pub open spec fn index_key(b: BsoV) -> int {
    match b.sortindex {
        Some(x) => x as int,
        None => (i32::MIN as int) - 1,
    }
}

/// `a` must be placed strictly before `b` under the given ordering.
pub open spec fn sort_before(a: BsoV, b: BsoV, sort: Sorting) -> bool {
    match sort {
        Sorting::Unsorted => false,
        Sorting::Index => index_key(a) > index_key(b),
        Sorting::Newest => a.modified > b.modified,
        Sorting::Oldest => a.modified < b.modified,
    }
}

/// No later element must come strictly before an earlier one.
pub open spec fn sorted_by(s: Seq<BsoV>, sort: Sorting) -> bool {
    forall|i: int, j: int| 0 <= i < j < s.len() ==> !sort_before(s[j], s[i], sort)
}

/// Stable insertion into a sorted sequence: `x` goes before the first
/// element it must precede, hence after every earlier equal.
pub open spec fn insert_sorted(s: Seq<BsoV>, x: BsoV, sort: Sorting) -> Seq<BsoV>
    decreases s.len(),
{
    if s.len() == 0 {
        seq![x]
    } else if sort_before(x, s[0], sort) {
        seq![x] + s
    } else {
        seq![s[0]] + insert_sorted(s.drop_first(), x, sort)
    }
}

/// Stable insertion sort of the whole sequence.
pub open spec fn sort_bsos(s: Seq<BsoV>, sort: Sorting) -> Seq<BsoV>
    decreases s.len(),
{
    if s.len() == 0 {
        s
    } else {
        insert_sorted(sort_bsos(s.drop_last(), sort), s.last(), sort)
    }
}

/// The page a query returns: `offset` rows of the ordered result are
/// skipped, then at most `limit` rows are taken.
pub open spec fn page_of(s: Seq<BsoV>, offset: int, limit: Option<u32>) -> Seq<BsoV> {
    let start = if offset > s.len() {
        s.len() as int
    } else {
        offset
    };
    let end = match limit {
        Some(l) => {
            if start + l < s.len() {
                start + l
            } else {
                s.len() as int
            }
        },
        None => s.len() as int,
    };
    s.subrange(start, end)
}

/// The offset a caller passes to fetch the next page, when rows remain
/// past this one.
pub open spec fn next_offset_of(total: int, offset: int, limit: Option<u32>) -> Option<u64> {
    match limit {
        Some(l) => {
            if total > offset + l {
                Some((offset + l) as u64)
            } else {
                None
            }
        },
        None => None,
    }
}

// ------------------------------------------------------------------
// Executable arithmetic helpers.
// ------------------------------------------------------------------

/// The absolute expiry for a write stamped `ts` with this ttl.
pub fn compute_expiry(ts: i64, ttl: u32) -> (r: i64)
    requires
        ts >= 0,
    ensures
        r == expiry_of(ts as int, ttl),
        r >= 0,
{
    let add: i64 = (ttl as i64) * 1000;
    if ts > i64::MAX - add {
        i64::MAX
    } else {
        ts + add
    }
}

/// Addition on `u64`, saturated at the maximum.
pub fn sat_add_u64(a: u64, b: u64) -> (r: u64)
    ensures
        r as int == if a + b > u64::MAX {
            u64::MAX as int
        } else {
            a + b
        },
{
    if a > u64::MAX - b {
        u64::MAX
    } else {
        a + b
    }
}

} // verus!
