//! The ordering of query results: a stable insertion sort, verified
//! against the spec-level `sort_bsos`.

use vstd::prelude::*;

use crate::params::Sorting;
use crate::rows::{index_key, insert_sorted, sort_before, sort_bsos, sorted_by, Bso, BsoV};

verus! {

/// What `insert_sorted` does: one element longer, same contents plus the
/// new one, and sortedness is preserved.
pub proof fn lemma_insert_sorted_props(s: Seq<BsoV>, x: BsoV, m: Sorting)
    ensures
        insert_sorted(s, x, m).len() == s.len() + 1,
        forall|y: BsoV| #[trigger] insert_sorted(s, x, m).contains(y) <==> s.contains(y) || y
            == x,
        sorted_by(s, m) ==> sorted_by(insert_sorted(s, x, m), m),
    decreases s.len(),
{
    let t = insert_sorted(s, x, m);
    if s.len() == 0 {
        assert(t =~= seq![x]);
        assert forall|y: BsoV| #[trigger] t.contains(y) <==> s.contains(y) || y == x by {
            if y == x {
                assert(t[0] == y);
            }
        }
    } else if sort_before(x, s[0], m) {
        assert(t == seq![x] + s);
        assert forall|y: BsoV| #[trigger] t.contains(y) implies s.contains(y) || y == x by {
            let i = choose|i: int| 0 <= i < t.len() && t[i] == y;
            if i > 0 {
                assert(s[i - 1] == y);
            }
        }
        assert forall|y: BsoV| s.contains(y) || y == x implies #[trigger] t.contains(y) by {
            if s.contains(y) {
                let i = choose|i: int| 0 <= i < s.len() && s[i] == y;
                assert(t[i + 1] == y);
            } else {
                assert(t[0] == y);
            }
        }
        if sorted_by(s, m) {
            assert forall|i: int, j: int| 0 <= i < j < t.len() implies !sort_before(
                t[j],
                t[i],
                m,
            ) by {
                if i == 0 {
                    assert(t[j] == s[j - 1]);
                    if j - 1 > 0 {
                        assert(!sort_before(s[j - 1], s[0], m));
                    }
                } else {
                    assert(t[i] == s[i - 1] && t[j] == s[j - 1]);
                }
            }
        }
    } else {
        lemma_insert_sorted_props(s.drop_first(), x, m);
        let t2 = insert_sorted(s.drop_first(), x, m);
        assert(t == seq![s[0]] + t2);
        assert(forall|k: int|
            0 <= k < s.drop_first().len() ==> s.drop_first()[k] == s[k + 1]);
        assert forall|y: BsoV| #[trigger] t.contains(y) implies s.contains(y) || y == x by {
            let i = choose|i: int| 0 <= i < t.len() && t[i] == y;
            if i == 0 {
                assert(s[0] == y);
            } else {
                assert(t2[i - 1] == y);
                assert(t2.contains(y));
                if s.drop_first().contains(y) {
                    let k = choose|k: int|
                        0 <= k < s.drop_first().len() && s.drop_first()[k] == y;
                    assert(s[k + 1] == y);
                }
            }
        }
        assert forall|y: BsoV| s.contains(y) || y == x implies #[trigger] t.contains(y) by {
            if s.contains(y) {
                let i = choose|i: int| 0 <= i < s.len() && s[i] == y;
                if i == 0 {
                    assert(t[0] == y);
                } else {
                    assert(s.drop_first()[i - 1] == y);
                    assert(s.drop_first().contains(y));
                    assert(t2.contains(y));
                    let k = choose|k: int| 0 <= k < t2.len() && t2[k] == y;
                    assert(t[k + 1] == y);
                }
            } else {
                assert(t2.contains(y));
                let k = choose|k: int| 0 <= k < t2.len() && t2[k] == y;
                assert(t[k + 1] == y);
            }
        }
        if sorted_by(s, m) {
            assert(sorted_by(s.drop_first(), m));
            assert(sorted_by(t2, m));
            assert forall|i: int, j: int| 0 <= i < j < t.len() implies !sort_before(
                t[j],
                t[i],
                m,
            ) by {
                if i == 0 {
                    assert(t[j] == t2[j - 1]);
                    assert(t2.contains(t2[j - 1]));
                    if s.drop_first().contains(t2[j - 1]) {
                        let k = choose|k: int|
                            0 <= k < s.drop_first().len() && s.drop_first()[k] == t2[j - 1];
                        assert(s[k + 1] == t2[j - 1]);
                        assert(!sort_before(s[k + 1], s[0], m));
                    }
                } else {
                    assert(t[i] == t2[i - 1] && t[j] == t2[j - 1]);
                }
            }
        }
    }
}

/// What `sort_bsos` does: a permutation-by-contents of the input, sorted.
pub proof fn lemma_sort_bsos_props(s: Seq<BsoV>, m: Sorting)
    ensures
        sort_bsos(s, m).len() == s.len(),
        forall|y: BsoV| #[trigger] sort_bsos(s, m).contains(y) <==> s.contains(y),
        sorted_by(sort_bsos(s, m), m),
    decreases s.len(),
{
    if s.len() == 0 {
    } else {
        lemma_sort_bsos_props(s.drop_last(), m);
        lemma_insert_sorted_props(sort_bsos(s.drop_last(), m), s.last(), m);
        assert forall|y: BsoV| #[trigger] sort_bsos(s, m).contains(y) implies s.contains(y) by {
            if sort_bsos(s.drop_last(), m).contains(y) {
                assert(s.drop_last().contains(y));
                let i = choose|i: int|
                    0 <= i < s.drop_last().len() && s.drop_last()[i] == y;
                assert(s[i] == y);
            } else {
                assert(s[s.len() - 1] == y);
            }
        }
        assert forall|y: BsoV| s.contains(y) implies #[trigger] sort_bsos(s, m).contains(y) by {
            let i = choose|i: int| 0 <= i < s.len() && s[i] == y;
            if i < s.len() - 1 {
                assert(s.drop_last()[i] == y);
                assert(s.drop_last().contains(y));
            }
        }
    }
}

/// Inserting at the first position whose element the new one must precede
/// is exactly `insert_sorted`.
pub proof fn lemma_insert_sorted_at(s: Seq<BsoV>, x: BsoV, m: Sorting, pos: int)
    requires
        0 <= pos <= s.len(),
        forall|j: int| 0 <= j < pos ==> !sort_before(x, s[j], m),
        pos < s.len() ==> sort_before(x, s[pos], m),
    ensures
        insert_sorted(s, x, m) == s.insert(pos, x),
    decreases s.len(),
{
    if s.len() == 0 {
        assert(insert_sorted(s, x, m) =~= s.insert(0, x));
    } else if sort_before(x, s[0], m) {
        assert(pos == 0);
        assert(insert_sorted(s, x, m) =~= s.insert(0, x));
    } else {
        assert(pos >= 1);
        assert(forall|k: int|
            0 <= k < s.drop_first().len() ==> s.drop_first()[k] == s[k + 1]);
        lemma_insert_sorted_at(s.drop_first(), x, m, pos - 1);
        assert(insert_sorted(s, x, m) =~= s.insert(pos, x));
    }
}

/// The executable sort key of `Sorting::Index`.
fn idx_key(b: &Bso) -> (k: i64)
    ensures
        k as int == index_key(b@),
{
    match b.sortindex {
        Some(x) => x as i64,
        None => (i32::MIN as i64) - 1,
    }
}

/// Whether `a` must be placed strictly before `b`.
fn before_cmp(a: &Bso, b: &Bso, m: Sorting) -> (r: bool)
    ensures
        r == sort_before(a@, b@, m),
{
    match m {
        Sorting::Unsorted => false,
        Sorting::Index => idx_key(a) > idx_key(b),
        Sorting::Newest => a.modified > b.modified,
        Sorting::Oldest => a.modified < b.modified,
    }
}

/// Sorts the rows per the requested ordering; equal keys keep their order.
#[verifier::loop_isolation(false)]
pub fn sort_rows(rows: Vec<Bso>, m: Sorting) -> (r: Vec<Bso>)
    ensures
        r@.map_values(|b: Bso| b@) == sort_bsos(rows@.map_values(|b: Bso| b@), m),
{
    let ghost sv = rows@.map_values(|b: Bso| b@);
    let mut out: Vec<Bso> = Vec::new();
    let mut i: usize = 0;
    proof {
        assert(out@.map_values(|b: Bso| b@) =~= sort_bsos(sv.take(0), m));
    }
    while i < rows.len()
        invariant
            i <= rows.len(),
            sv == rows@.map_values(|b: Bso| b@),
            out@.map_values(|b: Bso| b@) == sort_bsos(sv.take(i as int), m),
        decreases rows.len() - i,
    {
        let x = rows[i].duplicate();
        let ghost ov = out@.map_values(|b: Bso| b@);
        let mut p: usize = 0;
        while p < out.len() && !before_cmp(&x, &out[p], m)
            invariant
                p <= out.len(),
                ov == out@.map_values(|b: Bso| b@),
                x@ == sv[i as int],
                forall|j: int| 0 <= j < p ==> !sort_before(x@, ov[j], m),
            decreases out.len() - p,
        {
            p += 1;
        }
        proof {
            lemma_insert_sorted_at(ov, x@, m, p as int);
            assert(sv.take(i + 1).drop_last() =~= sv.take(i as int));
            assert(sv.take(i + 1).last() == sv[i as int]);
            assert(sort_bsos(sv.take(i + 1), m) == insert_sorted(ov, x@, m));
        }
        out.insert(p, x);
        proof {
            assert(out@.map_values(|b: Bso| b@) =~= ov.insert(p as int, x@));
        }
        i += 1;
    }
    proof {
        assert(sv.take(rows@.len() as int) =~= sv);
    }
    out
}

} // verus!
