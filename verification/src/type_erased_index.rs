//! A completely type-erased index: entries are keyed by content digest and
//! store only the digest and the entity set, so one index can serve values
//! of any hashable type.  The caller is responsible for keying one index
//! with digests of one type only.

use crate::hash128::{digest128, one_shot_128, ContentHash};
use crate::table::{placement_key, table_items, table_placed, DigestTable};
use crate::typed_index::{dedup_ids, distinct_ids, IndexError};
use crate::EntityId;
use vstd::prelude::*;

verus! {

/// One entry: the stored digest and the entities filed under it.
struct Entry {
    digest: u128,
    ids: Vec<EntityId>,
}

/// Mutable access to the entity vector at a valid slot, leaving every
/// other entry and the slot's digest unchanged.
fn ids_at_mut(entries: &mut Vec<Entry>, slot: usize) -> (ids: &mut Vec<EntityId>)
    requires
        slot < old(entries)@.len(),
    ensures
        *ids == old(entries)@[slot as int].ids,
        final(entries)@.len() == old(entries)@.len(),
        forall|i: int|
            0 <= i < old(entries)@.len() && i != slot ==> final(entries)@[i] == old(entries)@[i],
        final(entries)@[slot as int].digest == old(entries)@[slot as int].digest,
        final(entries)@[slot as int].ids == *final(ids),
{
    &mut entries[slot].ids
}

/// The completely type-erased index.
pub struct Index {
    table: DigestTable,
    entries: Vec<Entry>,
}

/// Whether some entry of `es` stores the digest `d`.
spec fn has_digest(es: Seq<Entry>, d: u128) -> bool {
    exists|i: int| 0 <= i < es.len() && es[i].digest == d
}

/// The slot whose entry stores the digest `d`.
spec fn slot_of(es: Seq<Entry>, d: u128) -> int {
    choose|i: int| 0 <= i < es.len() && es[i].digest == d
}

impl View for Index {
    type V = Map<u128, Set<EntityId>>;

    /// The index, seen as a map from content digests to entity sets.
    closed spec fn view(&self) -> Map<u128, Set<EntityId>> {
        Map::new(
            |d: u128| has_digest(self.entries@, d),
            |d: u128| self.entries@[slot_of(self.entries@, d)].ids@.to_set(),
        )
    }
}

impl Index {
    /// Internal coherence: the table maps exactly the stored digests to
    /// their slots, no digest is stored twice, and no entity set holds an
    /// identifier twice.
    pub closed spec fn wf(&self) -> bool {
        &&& table_placed(self.table)
        &&& forall|d: u128, s: usize| #[trigger]
            table_items(self.table).contains((d, s)) ==> s < self.entries@.len()
                && self.entries@[s as int].digest == d
        &&& forall|i: int|
            0 <= i < self.entries@.len() ==> #[trigger] table_items(self.table).contains(
                (self.entries@[i].digest, i as usize),
            )
        &&& forall|i: int, j: int|
            0 <= i < j < self.entries@.len() ==> self.entries@[i].digest
                != self.entries@[j].digest
        &&& forall|i: int|
            0 <= i < self.entries@.len() ==> distinct_ids(#[trigger] self.entries@[i].ids@)
    }

    /// The digest stored at a valid slot is mapped, at that slot.
    proof fn lemma_slot(&self, i: int)
        requires
            0 <= i < self.entries@.len(),
            forall|a: int, b: int|
                0 <= a < b < self.entries@.len() ==> self.entries@[a].digest
                    != self.entries@[b].digest,
        ensures
            has_digest(self.entries@, self.entries@[i].digest),
            slot_of(self.entries@, self.entries@[i].digest) == i,
            self@.contains_key(self.entries@[i].digest),
            self@[self.entries@[i].digest] == self.entries@[i].ids@.to_set(),
    {
        let d = self.entries@[i].digest;
        assert(has_digest(self.entries@, d));
        let j = slot_of(self.entries@, d);
        assert(0 <= j < self.entries@.len() && self.entries@[j].digest == d);
    }

    /// A digest that the table maps to no slot is stored nowhere and is
    /// absent from the map.
    proof fn lemma_no_slot(&self, d: u128)
        requires
            self.wf(),
            forall|s: usize| !table_items(self.table).contains((d, s)),
        ensures
            !self@.contains_key(d),
            forall|i: int| 0 <= i < self.entries@.len() ==> self.entries@[i].digest != d,
    {
        assert forall|i: int| 0 <= i < self.entries@.len() implies self.entries@[i].digest
            != d by {
            assert(table_items(self.table).contains((self.entries@[i].digest, i as usize)));
            assert(!table_items(self.table).contains((d, i as usize)));
        }
    }

    /// Create an empty index.
    pub fn new() -> (r: Self)
        ensures
            r.wf(),
            r@ == Map::<u128, Set<EntityId>>::empty(),
    {
        let r = Index { table: DigestTable::new(), entries: Vec::new() };
        proof {
            assert(r@ =~= Map::<u128, Set<EntityId>>::empty());
        }
        r
    }

    /// Store a complete entity set for a digest as a new entry.  The
    /// digest must be previously unseen: an existing entry is reported as
    /// `DuplicateKey` and left untouched.
    pub fn insert_with_hash(&mut self, hash: u128, ids: Vec<EntityId>) -> (r: Result<
        (),
        IndexError,
    >)
        requires
            old(self).wf(),
        ensures
            final(self).wf(),
            match r {
                Ok(_) => !old(self)@.contains_key(hash) && final(self)@ == old(self)@.insert(
                    hash,
                    ids@.to_set(),
                ),
                Err(e) => e == IndexError::DuplicateKey && old(self)@.contains_key(hash)
                    && final(self)@ == old(self)@,
            },
    {
        let key64 = placement_key(hash);
        match self.table.find(key64, hash) {
            Some(e) => {
                proof {
                    old(self).lemma_slot(e.1 as int);
                }
                Err(IndexError::DuplicateKey)
            },
            None => {
                proof {
                    old(self).lemma_no_slot(hash);
                }
                let slot = self.entries.len();
                let stored = dedup_ids(&ids);
                self.entries.push(Entry { digest: hash, ids: stored });
                self.table.insert(key64, (hash, slot));
                proof {
                    Self::lemma_view_after_new_entry(*old(self), *self, hash, slot);
                }
                Ok(())
            },
        }
    }

    /// Store a complete entity set for a key of any hashable type, keyed
    /// by the key's digest.
    pub fn insert<T: ContentHash>(&mut self, key: &T, ids: Vec<EntityId>) -> (r: Result<
        (),
        IndexError,
    >)
        requires
            old(self).wf(),
        ensures
            final(self).wf(),
            match r {
                Ok(_) => !old(self)@.contains_key(digest128(*key)) && final(self)@ == old(
                    self,
                )@.insert(digest128(*key), ids@.to_set()),
                Err(e) => e == IndexError::DuplicateKey && old(self)@.contains_key(
                    digest128(*key),
                ) && final(self)@ == old(self)@,
            },
    {
        let hash = one_shot_128(key);
        self.insert_with_hash(hash, ids)
    }

    /// The entity set stored for a digest, when it has an entry.
    pub fn get_with_hash(&self, hash: u128) -> (r: Option<&Vec<EntityId>>)
        requires
            self.wf(),
        ensures
            match r {
                Some(ids) => self@.contains_key(hash) && ids@.to_set() == self@[hash]
                    && distinct_ids(ids@),
                None => !self@.contains_key(hash),
            },
    {
        let key64 = placement_key(hash);
        match self.table.find(key64, hash) {
            Some(e) => {
                proof {
                    self.lemma_slot(e.1 as int);
                }
                Some(&self.entries[e.1].ids)
            },
            None => {
                proof {
                    self.lemma_no_slot(hash);
                }
                None
            },
        }
    }

    /// Mutable access to the entity set stored for a digest, when it has
    /// an entry.  The map afterwards holds, at that digest, whatever the
    /// caller leaves behind the reference; the index stays coherent as
    /// long as the caller leaves no identifier twice.
    #[verifier::rlimit(50)]
    #[verifier::spinoff_prover]
    pub fn get_with_hash_mut(&mut self, hash: u128) -> (r: Option<&mut Vec<EntityId>>)
        requires
            old(self).wf(),
        ensures
            match r {
                Some(ids) => old(self)@.contains_key(hash) && (*ids)@.to_set() == old(self)@[hash]
                    && distinct_ids((*ids)@) && final(self)@ == old(self)@.insert(
                    hash,
                    (*final(ids))@.to_set(),
                ) && (distinct_ids((*final(ids))@) ==> final(self).wf()),
                None => !old(self)@.contains_key(hash) && final(self)@ == old(self)@
                    && final(self).wf(),
            },
    {
        let key64 = placement_key(hash);
        match self.table.find(key64, hash) {
            Some(e) => {
                let slot = e.1;
                proof {
                    old(self).lemma_slot(slot as int);
                }
                proof {
                    let pre = *self;
                    assert forall|post: Self|
                        #![trigger post.view()]
                        (post.table == pre.table && post.entries@.len() == pre.entries@.len() && (
                        forall|i: int|
                            0 <= i < pre.entries@.len() && i != slot ==> post.entries@[i]
                                == pre.entries@[i]) && post.entries@[slot as int].digest
                            == pre.entries@[slot as int].digest) implies (post@ == pre@.insert(
                        hash,
                        post.entries@[slot as int].ids@.to_set(),
                    ) && (distinct_ids(post.entries@[slot as int].ids@) ==> post.wf())) by {
                        Self::lemma_view_after_ids_replace(pre, post, slot as int);
                    }
                }
                let ids = ids_at_mut(&mut self.entries, slot);
                Some(ids)
            },
            None => {
                proof {
                    self.lemma_no_slot(hash);
                }
                None
            },
        }
    }

    /// The entity set stored for a key of any hashable type, keyed by the
    /// key's digest.
    pub fn get<T: ContentHash>(&self, key: &T) -> (r: Option<&Vec<EntityId>>)
        requires
            self.wf(),
        ensures
            match r {
                Some(ids) => self@.contains_key(digest128(*key)) && ids@.to_set() == self@[
                    digest128(*key)
                ] && distinct_ids(ids@),
                None => !self@.contains_key(digest128(*key)),
            },
    {
        let hash = one_shot_128(key);
        self.get_with_hash(hash)
    }

    /// Mutable access to the entity set stored for a key of any hashable
    /// type, keyed by the key's digest.
    pub fn get_mut<T: ContentHash>(&mut self, key: &T) -> (r: Option<&mut Vec<EntityId>>)
        requires
            old(self).wf(),
        ensures
            match r {
                Some(ids) => old(self)@.contains_key(digest128(*key)) && (*ids)@.to_set() == old(
                    self,
                )@[digest128(*key)] && distinct_ids((*ids)@) && final(self)@ == old(self)@.insert(
                    digest128(*key),
                    (*final(ids))@.to_set(),
                ) && (distinct_ids((*final(ids))@) ==> final(self).wf()),
                None => !old(self)@.contains_key(digest128(*key)) && final(self)@ == old(self)@
                    && final(self).wf(),
            },
    {
        let hash = one_shot_128(key);
        self.get_with_hash_mut(hash)
    }

    /// After the entity vector at a valid slot is replaced by an arbitrary
    /// vector, the map holds that vector's set at that slot's digest, and
    /// the index is coherent as long as the vector has no duplicates.
    proof fn lemma_view_after_ids_replace(pre: Self, post: Self, slot: int)
        requires
            pre.wf(),
            0 <= slot < pre.entries@.len(),
            post.table == pre.table,
            post.entries@.len() == pre.entries@.len(),
            forall|i: int|
                0 <= i < pre.entries@.len() && i != slot ==> post.entries@[i] == pre.entries@[i],
            post.entries@[slot].digest == pre.entries@[slot].digest,
        ensures
            post@ == pre@.insert(pre.entries@[slot].digest, post.entries@[slot].ids@.to_set()),
            distinct_ids(post.entries@[slot].ids@) ==> post.wf(),
    {
        let d = pre.entries@[slot].digest;
        assert forall|i: int| 0 <= i < post.entries@.len() implies #[trigger] table_items(
            post.table,
        ).contains((post.entries@[i].digest, i as usize)) by {
            assert(post.entries@[i].digest == pre.entries@[i].digest);
        }
        if distinct_ids(post.entries@[slot].ids@) {
            assert forall|i: int| 0 <= i < post.entries@.len() implies distinct_ids(
                #[trigger] post.entries@[i].ids@,
            ) by {
                if i != slot {
                    assert(post.entries@[i] == pre.entries@[i]);
                    assert(distinct_ids(pre.entries@[i].ids@));
                }
            }
            assert forall|d2: u128, s: usize| #[trigger]
                table_items(post.table).contains((d2, s)) implies s < post.entries@.len()
                && post.entries@[s as int].digest == d2 by {
                assert(table_items(pre.table).contains((d2, s)));
                assert(post.entries@[s as int].digest == pre.entries@[s as int].digest);
            }
            assert(post.wf());
        }
        pre.lemma_slot(slot);
        assert forall|x: u128| has_digest(post.entries@, x) == has_digest(pre.entries@, x) by {
            assert forall|i: int| 0 <= i < pre.entries@.len() implies post.entries@[i].digest
                == pre.entries@[i].digest by {}
        }
        assert forall|x: u128| #[trigger] pre@.insert(
            d,
            post.entries@[slot].ids@.to_set(),
        ).contains_key(x) implies post@[x] == pre@.insert(
            d,
            post.entries@[slot].ids@.to_set(),
        )[x] by {
            if x == d {
                post.lemma_slot(slot);
            } else {
                let i = slot_of(pre.entries@, x);
                pre.lemma_slot(i);
                assert(post.entries@[i].digest == x);
                post.lemma_slot(i);
            }
        }
        assert(post@ =~= pre@.insert(d, post.entries@[slot].ids@.to_set()));
    }

    /// After an entry for a previously-unseen digest is appended and its
    /// pair is added to the table, the index stays coherent and its map
    /// gains exactly that entry.
    proof fn lemma_view_after_new_entry(pre: Self, post: Self, digest: u128, slot: usize)
        requires
            pre.wf(),
            slot == pre.entries@.len(),
            forall|i: int| 0 <= i < pre.entries@.len() ==> pre.entries@[i].digest != digest,
            post.entries@.len() == pre.entries@.len() + 1,
            forall|i: int| 0 <= i < pre.entries@.len() ==> post.entries@[i] == pre.entries@[i],
            post.entries@.last().digest == digest,
            distinct_ids(post.entries@.last().ids@),
            table_placed(post.table),
            table_items(post.table) == table_items(pre.table).insert((digest, slot)),
        ensures
            post.wf(),
            post@ == pre@.insert(digest, post.entries@.last().ids@.to_set()),
    {
        broadcast use vstd::multiset::group_multiset_axioms;

        let n = pre.entries@.len();
        assert forall|d: u128, s: usize| #[trigger]
            table_items(post.table).contains((d, s)) implies s < post.entries@.len()
            && post.entries@[s as int].digest == d by {
            if !(d == digest && s == slot) {
                assert(table_items(pre.table).contains((d, s)));
            }
        }
        assert forall|i: int| 0 <= i < post.entries@.len() implies #[trigger] table_items(
            post.table,
        ).contains((post.entries@[i].digest, i as usize)) by {
            if i < n {
                assert(table_items(pre.table).contains((pre.entries@[i].digest, i as usize)));
            }
        }
        assert forall|i: int| 0 <= i < post.entries@.len() implies distinct_ids(
            #[trigger] post.entries@[i].ids@,
        ) by {
            if i < n {
                assert(post.entries@[i] == pre.entries@[i]);
                assert(distinct_ids(pre.entries@[i].ids@));
            }
        }
        assert(post.wf());
        assert forall|x: u128| #[trigger] pre@.insert(digest, post.entries@.last().ids@.to_set())
            .contains_key(x) implies post@.contains_key(x) && post@[x] == pre@.insert(
            digest,
            post.entries@.last().ids@.to_set(),
        )[x] by {
            if x == digest {
                assert(post.entries@[n as int].digest == digest);
                post.lemma_slot(n as int);
            } else {
                let i = slot_of(pre.entries@, x);
                pre.lemma_slot(i);
                assert(post.entries@[i].digest == x);
                post.lemma_slot(i);
            }
        }
        assert forall|x: u128| #[trigger] post@.contains_key(x) implies pre@.insert(
            digest,
            post.entries@.last().ids@.to_set(),
        ).contains_key(x) by {
            let i = slot_of(post.entries@, x);
            assert(0 <= i < post.entries@.len() && post.entries@[i].digest == x);
            if i < n {
                assert(pre.entries@[i].digest == x);
                assert(has_digest(pre.entries@, x));
            }
        }
        assert(post@ =~= pre@.insert(digest, post.entries@.last().ids@.to_set()));
    }
}

} // verus!
