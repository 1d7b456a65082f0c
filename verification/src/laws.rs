//! Laws of the storage model, stated and proved over the same spec
//! functions the engine's contracts use.

use vstd::prelude::*;

use crate::params::{PostItemV, QueryV, Sorting};
use crate::rows::{
    apply_put, apply_touch, bso_index, bso_live_match, bsos_unique, delete_bsos_v, filter_bsos,
    has_bso, has_live_coll, has_uc, keep, lemma_apply_put, lemma_apply_touch, lemma_keep_all,
    lemma_keep_contains, lemma_no_live_zero, live_coll_count, live_coll_usage, new_bso_v,
    next_offset_of, page_of, sort_bsos, uc_modified, ucs_unique, updated_bso_v, BsoV,
    UserCollectionV,
};
use crate::sorting::lemma_sort_bsos_props;

verus! {

/// The latest of two writes to one key wins: after both upserts, the row
/// carries the second write's payload and timestamp.
pub proof fn law_latest_write_wins(
    s: Seq<BsoV>,
    user: int,
    coll: int,
    i1: PostItemV,
    i2: PostItemV,
    ts1: int,
    ts2: int,
)
    requires
        bsos_unique(s),
        i1.id == i2.id,
        i2.payload is Some,
    ensures
        ({
            let t = apply_put(apply_put(s, user, coll, i1, ts1), user, coll, i2, ts2);
            &&& has_bso(t, user, coll, i2.id)
            &&& (i2.payload matches Some(p) ==> t[bso_index(t, user, coll, i2.id)].payload == p)
            &&& t[bso_index(t, user, coll, i2.id)].modified == ts2
        }),
{
    lemma_apply_put(s, user, coll, i1, ts1);
    let t1 = apply_put(s, user, coll, i1, ts1);
    lemma_apply_put(t1, user, coll, i2, ts2);
}

/// A touch stamped by a clock at least as new as the row's timestamp
/// never moves that timestamp backwards, and lands exactly on the clock.
pub proof fn law_touch_monotonic(us: Seq<UserCollectionV>, user: int, coll: int, ts: int)
    requires
        ucs_unique(us),
        has_uc(us, user, coll) ==> uc_modified(us, user, coll) <= ts,
    ensures
        has_uc(apply_touch(us, user, coll, ts), user, coll),
        uc_modified(apply_touch(us, user, coll, ts), user, coll) == ts,
        has_uc(us, user, coll) ==> uc_modified(apply_touch(us, user, coll, ts), user, coll)
            >= uc_modified(us, user, coll),
{
    lemma_apply_touch(us, user, coll, ts);
}

/// A write admitted by the lock's conflict check (the row strictly older
/// than the session clock) advances the collection's clock.
pub proof fn law_admitted_write_advances_clock(
    us: Seq<UserCollectionV>,
    user: int,
    coll: int,
    ts: int,
)
    requires
        ucs_unique(us),
        has_uc(us, user, coll),
        uc_modified(us, user, coll) < ts,
    ensures
        uc_modified(apply_touch(us, user, coll, ts), user, coll) == ts,
        uc_modified(apply_touch(us, user, coll, ts), user, coll) > uc_modified(us, user, coll),
{
    lemma_apply_touch(us, user, coll, ts);
}

/// Pagination: over `n` ordered rows with page size `l < n <= 2 l`, the
/// first page holds exactly `l` rows and reports next offset `l`; the
/// page starting at `l` holds the remaining rows and reports no offset.
pub proof fn law_pagination(sorted: Seq<BsoV>, l: u32)
    requires
        0 < l < sorted.len() <= 2 * (l as int),
    ensures
        page_of(sorted, 0, Some(l)) == sorted.subrange(0, l as int),
        page_of(sorted, 0, Some(l)).len() == l as int,
        next_offset_of(sorted.len() as int, 0, Some(l)) == Some(l as u64),
        page_of(sorted, l as int, Some(l)) == sorted.subrange(l as int, sorted.len() as int),
        next_offset_of(sorted.len() as int, l as int, Some(l)) is None,
{
}

/// Deleting an empty id set deletes nothing, yet the operation's touch
/// still stamps the collection's timestamp with the session clock.
pub proof fn law_delete_bsos_empty(
    s: Seq<BsoV>,
    us: Seq<UserCollectionV>,
    user: int,
    coll: int,
    ts: int,
)
    requires
        ucs_unique(us),
    ensures
        delete_bsos_v(s, user, coll, Seq::<Seq<char>>::empty()) == s,
        uc_modified(apply_touch(us, user, coll, ts), user, coll) == ts,
{
    let ids = Seq::<Seq<char>>::empty();
    let pred = |b: BsoV| !(b.user_id == user && b.collection_id == coll && ids.contains(b.id));
    assert forall|i: int| 0 <= i < s.len() implies pred(#[trigger] s[i]) by {
        if ids.contains(s[i].id) {
            let w = choose|w: int| 0 <= w < ids.len() && ids[w] == s[i].id;
        }
    }
    lemma_keep_all(s, pred);
    lemma_apply_touch(us, user, coll, ts);
}

/// A row past its expiry is invisible to queries: no filtered set, no
/// ordered set, and no page of them contains it.
pub proof fn law_expired_excluded(
    s: Seq<BsoV>,
    user: int,
    coll: int,
    q: QueryV,
    now: int,
    b: BsoV,
    offset: int,
    limit: Option<u32>,
)
    requires
        b.expiry <= now,
        0 <= offset,
    ensures
        !filter_bsos(s, user, coll, q, now).contains(b),
        !sort_bsos(filter_bsos(s, user, coll, q, now), q.sort).contains(b),
        !page_of(sort_bsos(filter_bsos(s, user, coll, q, now), q.sort), offset, limit).contains(
            b,
        ),
{
    let filtered = filter_bsos(s, user, coll, q, now);
    let sorted = sort_bsos(filtered, q.sort);
    lemma_keep_contains(s, |x: BsoV| bso_live_match(x, user, coll, q, now));
    assert(!filtered.contains(b));
    lemma_sort_bsos_props(filtered, q.sort);
    assert(!sorted.contains(b));
    let page = page_of(sorted, offset, limit);
    assert forall|i: int| 0 <= i < page.len() implies page[i] != b by {
        assert(sorted.contains(page[i]));
    }
    if page.contains(b) {
        let w = choose|w: int| 0 <= w < page.len() && page[w] == b;
    }
}

/// A collection whose every row has expired reports nothing: no live
/// rows, a zero byte total, and a zero count.
pub proof fn law_expired_not_counted(s: Seq<BsoV>, user: int, coll: int, now: int)
    requires
        forall|i: int|
            0 <= i < s.len() && (#[trigger] s[i]).user_id == user && s[i].collection_id == coll
                ==> s[i].expiry <= now,
    ensures
        !has_live_coll(s, user, coll, now),
        live_coll_usage(s, user, coll, now) == 0,
        live_coll_count(s, user, coll, now) == 0,
{
    lemma_no_live_zero(s, user, coll, now);
}

} // verus!
