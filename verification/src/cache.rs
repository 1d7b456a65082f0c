//! The collection name/id cache.
//!
//! A bidirectional name-to-id cache consulted before the collections table,
//! filled on miss and never invalidated: from the engine's point of view it
//! only grows. The engine keeps it consistent with the table (see the
//! store's well-formedness invariant).

use vstd::prelude::*;

use crate::rows::{Collection, CollectionV};

verus! {

/// Read-through cache of collection ids and their names.
pub struct CollectionCache {
    pub entries: Vec<Collection>,
}

impl View for CollectionCache {
    type V = Seq<CollectionV>;

    open spec fn view(&self) -> Seq<CollectionV> {
        self.entries@.map_values(|c: Collection| c@)
    }
}

impl CollectionCache {
    /// An empty cache.
    pub fn new() -> (r: CollectionCache)
        ensures
            r@ == Seq::<CollectionV>::empty(),
    {
        let r = CollectionCache { entries: Vec::new() };
        proof {
            assert(r@ =~= Seq::<CollectionV>::empty());
        }
        r
    }

    /// The id cached for a name, if any.
    #[verifier::loop_isolation(false)]
    pub fn get_id(&self, name: &String) -> (r: Option<i32>)
        ensures
            match r {
                Some(id) => exists|i: int|
                    0 <= i < self@.len() && self@[i].name == name@ && self@[i].id == id,
                None => !crate::rows::has_coll_name(self@, name@),
            },
    {
        let n = self.entries.len();
        let mut k: usize = 0;
        while k < n
            invariant
                n == self.entries.len(),
                0 <= k <= n,
                forall|i: int| 0 <= i < k ==> self@[i].name != name@,
            decreases n - k,
        {
            if self.entries[k].name == *name {
                proof {
                    assert(self@[k as int].name == name@ && self@[k as int].id == self.entries[
                        k as int
                    ].id as int);
                }
                return Some(self.entries[k].id);
            }
            k += 1;
        }
        None
    }

    /// The name cached for an id, if any.
    #[verifier::loop_isolation(false)]
    pub fn get_name(&self, id: i32) -> (r: Option<String>)
        ensures
            match r {
                Some(name) => exists|i: int|
                    0 <= i < self@.len() && self@[i].name == name@ && self@[i].id == id,
                None => !crate::rows::has_coll_id(self@, id as int),
            },
    {
        let n = self.entries.len();
        let mut k: usize = 0;
        while k < n
            invariant
                n == self.entries.len(),
                0 <= k <= n,
                forall|i: int| 0 <= i < k ==> self@[i].id != id,
            decreases n - k,
        {
            if self.entries[k].id == id {
                proof {
                    assert(self@[k as int].id == id as int && self@[k as int].name
                        == self.entries[k as int].name@);
                }
                return Some(self.entries[k].name.clone());
            }
            k += 1;
        }
        None
    }

    /// An equal copy of the cache.
    #[verifier::loop_isolation(false)]
    pub fn duplicate(&self) -> (r: CollectionCache)
        ensures
            r@ == self@,
    {
        let mut entries: Vec<Collection> = Vec::new();
        let n = self.entries.len();
        let mut k: usize = 0;
        while k < n
            invariant
                n == self.entries.len(),
                k <= n,
                entries@ == self.entries@.take(k as int),
            decreases n - k,
        {
            entries.push(self.entries[k].duplicate());
            proof {
                assert(entries@ =~= self.entries@.take(k + 1));
            }
            k += 1;
        }
        proof {
            assert(self.entries@.take(n as int) =~= self.entries@);
        }
        CollectionCache { entries }
    }

    /// Adds an entry. The engine only calls this after a miss, with a pair
    /// confirmed by the collections table.
    pub fn put(&mut self, id: i32, name: String)
        ensures
            final(self)@ == old(self)@.push(CollectionV { id: id as int, name: name@ }),
    {
        let ghost before = self@;
        self.entries.push(Collection { id, name });
        proof {
            assert(self@ =~= before.push(CollectionV { id: id as int, name: name@ }));
        }
    }
}

} // verus!
