//! The typed index: for one property type, a table keyed by content digest,
//! holding for each distinct digest a canonical copy of the value and the
//! set of entities that currently hold it.  The type-erased interface that
//! every typed index satisfies is declared here as well.

use crate::hash128::{digest128, one_shot_128, ContentHash};
use crate::table::{placement_key, table_items, table_placed, DigestTable};
use crate::EntityId;
use vstd::prelude::*;

verus! {

/// Why an index operation could not be carried out.
#[derive(Clone, Copy, Debug, PartialEq, Eq, Structural)]
pub enum IndexError {
    /// A digest-keyed insertion found no entry to insert into.
    NoSuchEntry,
    /// A whole-entry insertion found its key already present.
    DuplicateKey,
}

/// The set of entities that a digest maps to, empty when the digest has no
/// entry.
pub open spec fn entities_at(m: Map<u128, Set<EntityId>>, d: u128) -> Set<EntityId> {
    if m.contains_key(d) {
        m[d]
    } else {
        Set::empty()
    }
}

/// Whether a sequence of entity identifiers holds no identifier twice.
pub open spec fn distinct_ids(ids: Seq<EntityId>) -> bool {
    forall|i: int, j: int| 0 <= i < j < ids.len() ==> ids[i] != ids[j]
}

/// Pushing a fresh identifier adds exactly it to the sequence's set.
pub(crate) proof fn lemma_push_to_set(s: Seq<EntityId>, x: EntityId)
    ensures
        s.push(x).to_set() == s.to_set().insert(x),
{
    assert forall|y: EntityId| #[trigger]
        s.push(x).to_set().contains(y) implies s.to_set().insert(x).contains(y) by {
        let i = choose|i: int| 0 <= i < s.push(x).len() && s.push(x)[i] == y;
        if i < s.len() {
            assert(s.contains(y));
        }
    }
    assert forall|y: EntityId| #[trigger]
        s.to_set().insert(x).contains(y) implies s.push(x).to_set().contains(y) by {
        if s.contains(y) {
            let i = choose|i: int| 0 <= i < s.len() && s[i] == y;
            assert(s.push(x)[i] == y);
        } else {
            assert(s.push(x)[s.len() as int] == x);
        }
        assert(s.push(x).contains(y));
    }
    assert(s.push(x).to_set() =~= s.to_set().insert(x));
}

/// The set of a one-identifier sequence is the one-identifier set.
pub(crate) proof fn lemma_singleton_to_set(x: EntityId)
    ensures
        seq![x].to_set() == Set::empty().insert(x),
{
    assert(seq![x][0] == x);
    assert(seq![x].contains(x));
    assert forall|y: EntityId| #[trigger] seq![x].to_set().contains(y) implies y == x by {
        let i = choose|i: int| 0 <= i < seq![x].len() && seq![x][i] == y;
        assert(i == 0);
    }
    assert(seq![x].to_set() =~= Set::empty().insert(x));
}

/// Insertion is idempotent.  `insert_entity` turns the map `m` into
/// `m.insert(d, entities_at(m, d).insert(id))` and reports the identifier
/// as new exactly when it was absent; this law adds that after one such
/// insertion the identifier is present — so a second, identical insertion
/// reports it as already present — and that the second insertion leaves
/// the map, and with it the entity set and its size, unchanged.
pub proof fn lemma_insert_entity_idempotent(m: Map<u128, Set<EntityId>>, d: u128, id: EntityId)
    ensures
        entities_at(m.insert(d, entities_at(m, d).insert(id)), d).contains(id),
        m.insert(d, entities_at(m, d).insert(id)).insert(
            d,
            entities_at(m.insert(d, entities_at(m, d).insert(id)), d).insert(id),
        ) == m.insert(d, entities_at(m, d).insert(id)),
{
    let s1 = entities_at(m, d).insert(id);
    let m1 = m.insert(d, s1);
    assert(entities_at(m1, d) == s1);
    assert(s1.insert(id) =~= s1);
    assert(m1.insert(d, s1.insert(id)) =~= m1);
}

/// The typed and the type-erased interface agree.  A typed index and its
/// erased face share one map — `hash_view` is `view` by definition — so
/// after a successful typed `insert_entity` of `(key, id)`, the erased
/// `get_with_hash` at `digest128(key)` finds an entry whose set holds
/// `id`.
pub proof fn lemma_typed_erased_consistent(m: Map<u128, Set<EntityId>>, d: u128, id: EntityId)
    ensures
        m.insert(d, entities_at(m, d).insert(id)).contains_key(d),
        m.insert(d, entities_at(m, d).insert(id))[d].contains(id),
{
}

/// One entry: the stored digest, a canonical copy of the value, and the
/// entities that currently hold the value.
struct Entry<T> {
    digest: u128,
    value: T,
    ids: Vec<EntityId>,
}

/// The typed index for one property type.
pub struct Index<T: ContentHash> {
    table: DigestTable,
    entries: Vec<Entry<T>>,
}

/// Whether some entry of `es` stores the digest `d`.
spec fn has_digest<T>(es: Seq<Entry<T>>, d: u128) -> bool {
    exists|i: int| 0 <= i < es.len() && es[i].digest == d
}

/// The slot whose entry stores the digest `d`.
spec fn slot_of<T>(es: Seq<Entry<T>>, d: u128) -> int {
    choose|i: int| 0 <= i < es.len() && es[i].digest == d
}

impl<T: ContentHash> View for Index<T> {
    type V = Map<u128, Set<EntityId>>;

    /// The index, seen as a map from content digests to entity sets.
    closed spec fn view(&self) -> Map<u128, Set<EntityId>> {
        Map::new(
            |d: u128| has_digest(self.entries@, d),
            |d: u128| self.entries@[slot_of(self.entries@, d)].ids@.to_set(),
        )
    }
}

impl<T: ContentHash> Index<T> {
    /// Internal coherence: the table maps exactly the stored digests to
    /// their slots, no digest is stored twice, every stored value still has
    /// the digest it was stored under, and no entity set holds an
    /// identifier twice.
    pub closed spec fn wf(&self) -> bool {
        &&& table_placed(self.table)
        &&& forall|d: u128, s: usize| #[trigger]
            table_items(self.table).contains((d, s)) ==> s < self.entries@.len()
                && self.entries@[s as int].digest == d
        &&& forall|i: int|
            0 <= i < self.entries@.len() ==> #[trigger] table_items(self.table).contains(
                (self.entries@[i].digest, i as usize),
            )
        &&& forall|i: int, j: int|
            0 <= i < j < self.entries@.len() ==> self.entries@[i].digest
                != self.entries@[j].digest
        &&& forall|i: int|
            0 <= i < self.entries@.len() ==> digest128(#[trigger] self.entries@[i].value)
                == self.entries@[i].digest
        &&& forall|i: int|
            0 <= i < self.entries@.len() ==> distinct_ids(#[trigger] self.entries@[i].ids@)
    }

    /// The digest stored at a valid slot is mapped, at that slot.
    proof fn lemma_slot(&self, i: int)
        requires
            self.wf(),
            0 <= i < self.entries@.len(),
        ensures
            has_digest(self.entries@, self.entries@[i].digest),
            slot_of(self.entries@, self.entries@[i].digest) == i,
            self@.contains_key(self.entries@[i].digest),
            self@[self.entries@[i].digest] == self.entries@[i].ids@.to_set(),
    {
        let d = self.entries@[i].digest;
        assert(has_digest(self.entries@, d));
        let j = slot_of(self.entries@, d);
        assert(0 <= j < self.entries@.len() && self.entries@[j].digest == d);
    }

    /// A digest that the table maps to no slot is stored nowhere and is
    /// absent from the map.
    proof fn lemma_no_slot(&self, d: u128)
        requires
            self.wf(),
            forall|s: usize| !table_items(self.table).contains((d, s)),
        ensures
            !self@.contains_key(d),
            forall|i: int| 0 <= i < self.entries@.len() ==> self.entries@[i].digest != d,
    {
        assert forall|i: int| 0 <= i < self.entries@.len() implies self.entries@[i].digest
            != d by {
            assert(table_items(self.table).contains((self.entries@[i].digest, i as usize)));
            assert(!table_items(self.table).contains((d, i as usize)));
        }
    }

    /// Create an empty index.
    pub fn new() -> (r: Self)
        ensures
            r.wf(),
            r@ == Map::<u128, Set<EntityId>>::empty(),
    {
        let r = Index { table: DigestTable::new(), entries: Vec::new() };
        proof {
            assert(r@ =~= Map::<u128, Set<EntityId>>::empty());
        }
        r
    }

    /// Add `entity_id` to the entry for `key`, creating the entry when the
    /// key's digest has none yet; this is the one operation that creates
    /// entries.  Returns whether the identifier was newly added.
    pub fn insert_entity(&mut self, key: &T, entity_id: EntityId) -> (added: bool)
        requires
            old(self).wf(),
        ensures
            final(self).wf(),
            final(self)@ == old(self)@.insert(
                digest128(*key),
                entities_at(old(self)@, digest128(*key)).insert(entity_id),
            ),
            added == !entities_at(old(self)@, digest128(*key)).contains(entity_id),
    {
        let digest = one_shot_128(key);
        let key64 = placement_key(digest);
        match self.table.find(key64, digest) {
            Some(e) => {
                let slot = e.1;
                proof {
                    old(self).lemma_slot(slot as int);
                }
                let present = id_vec_contains(&self.entries[slot].ids, entity_id);
                if present {
                    proof {
                        assert(entities_at(old(self)@, digest).insert(entity_id)
                            =~= old(self)@[digest]);
                        assert(self@ =~= old(self)@.insert(
                            digest,
                            entities_at(old(self)@, digest).insert(entity_id),
                        ));
                    }
                    false
                } else {
                    push_id_at(&mut self.entries, slot, entity_id);
                    proof {
                        Self::lemma_view_after_set_update(
                            *old(self),
                            *self,
                            slot as int,
                            entity_id,
                        );
                        lemma_push_to_set(old(self).entries@[slot as int].ids@, entity_id);
                    }
                    true
                }
            },
            None => {
                proof {
                    old(self).lemma_no_slot(digest);
                }
                let slot = self.entries.len();
                let mut ids: Vec<EntityId> = Vec::new();
                ids.push(entity_id);
                let value = key.duplicate();
                self.entries.push(Entry { digest, value, ids });
                self.table.insert(key64, (digest, slot));
                proof {
                    assert(self.entries@.last().ids@ =~= seq![entity_id]);
                    lemma_singleton_to_set(entity_id);
                    Self::lemma_view_after_new_entry(*old(self), *self, digest, slot);
                }
                true
            },
        }
    }

    /// After a fresh identifier is pushed onto the entity vector at a valid
    /// slot, the index stays coherent and its map gains exactly that
    /// identifier at that slot's digest.
    proof fn lemma_view_after_set_update(pre: Self, post: Self, slot: int, entity_id: EntityId)
        requires
            pre.wf(),
            0 <= slot < pre.entries@.len(),
            !pre.entries@[slot].ids@.contains(entity_id),
            post.table == pre.table,
            post.entries@.len() == pre.entries@.len(),
            forall|i: int|
                0 <= i < pre.entries@.len() && i != slot ==> post.entries@[i] == pre.entries@[i],
            post.entries@[slot].digest == pre.entries@[slot].digest,
            post.entries@[slot].value == pre.entries@[slot].value,
            post.entries@[slot].ids@ == pre.entries@[slot].ids@.push(entity_id),
        ensures
            post.wf(),
            post@ == pre@.insert(
                pre.entries@[slot].digest,
                pre.entries@[slot].ids@.push(entity_id).to_set(),
            ),
    {
        let d = pre.entries@[slot].digest;
        assert forall|i: int| 0 <= i < post.entries@.len() implies digest128(
            #[trigger] post.entries@[i].value,
        ) == post.entries@[i].digest && distinct_ids(post.entries@[i].ids@) by {
            if i == slot {
                assert(distinct_ids(pre.entries@[slot].ids@));
                let s = post.entries@[slot].ids@;
                assert forall|a: int, b: int| 0 <= a < b < s.len() implies s[a] != s[b] by {
                    if b == s.len() - 1 {
                        assert(pre.entries@[slot].ids@.contains(s[a])) by {
                            assert(pre.entries@[slot].ids@[a] == s[a]);
                        }
                    }
                }
            }
        }
        assert forall|i: int| 0 <= i < post.entries@.len() implies #[trigger] table_items(
            post.table,
        ).contains((post.entries@[i].digest, i as usize)) by {
            assert(post.entries@[i].digest == pre.entries@[i].digest);
        }
        pre.lemma_slot(slot);
        assert forall|x: u128| has_digest(post.entries@, x) == has_digest(pre.entries@, x) by {
            assert forall|i: int| 0 <= i < pre.entries@.len() implies post.entries@[i].digest
                == pre.entries@[i].digest by {}
        }
        assert forall|x: u128| #[trigger] pre@.insert(d, post.entries@[slot].ids@.to_set()).contains_key(x)
            implies post@[x] == pre@.insert(d, post.entries@[slot].ids@.to_set())[x] by {
            if x == d {
                post.lemma_slot(slot);
            } else {
                let i = slot_of(pre.entries@, x);
                pre.lemma_slot(i);
                assert(post.entries@[i].digest == x);
                post.lemma_slot(i);
            }
        }
        assert(post@ =~= pre@.insert(d, pre.entries@[slot].ids@.push(entity_id).to_set()));
    }

    /// After the entity vector at a valid slot is replaced by an arbitrary
    /// vector, the map holds that vector's set at that slot's digest, and
    /// the index is coherent as long as the vector has no duplicates.
    proof fn lemma_view_after_ids_replace(pre: Self, post: Self, slot: int)
        requires
            pre.wf(),
            0 <= slot < pre.entries@.len(),
            post.table == pre.table,
            post.entries@.len() == pre.entries@.len(),
            forall|i: int|
                0 <= i < pre.entries@.len() && i != slot ==> post.entries@[i] == pre.entries@[i],
            post.entries@[slot].digest == pre.entries@[slot].digest,
            post.entries@[slot].value == pre.entries@[slot].value,
        ensures
            post@ == pre@.insert(pre.entries@[slot].digest, post.entries@[slot].ids@.to_set()),
            distinct_ids(post.entries@[slot].ids@) ==> post.wf(),
    {
        let d = pre.entries@[slot].digest;
        assert forall|i: int| 0 <= i < post.entries@.len() implies #[trigger] table_items(
            post.table,
        ).contains((post.entries@[i].digest, i as usize)) by {
            assert(post.entries@[i].digest == pre.entries@[i].digest);
        }
        pre.lemma_slot(slot);
        assert forall|x: u128| has_digest(post.entries@, x) == has_digest(pre.entries@, x) by {
            assert forall|i: int| 0 <= i < pre.entries@.len() implies post.entries@[i].digest
                == pre.entries@[i].digest by {}
        }
        assert forall|x: u128| #[trigger] pre@.insert(
            d,
            post.entries@[slot].ids@.to_set(),
        ).contains_key(x) implies post@[x] == pre@.insert(
            d,
            post.entries@[slot].ids@.to_set(),
        )[x] by {
            if x == d {
                post.lemma_slot_weak(slot);
            } else {
                let i = slot_of(pre.entries@, x);
                pre.lemma_slot(i);
                assert(post.entries@[i].digest == x);
                post.lemma_slot_weak(i);
            }
        }
        assert(post@ =~= pre@.insert(d, post.entries@[slot].ids@.to_set()));
    }

    /// As `lemma_slot`, but needing only distinctness of the stored
    /// digests, not full coherence.
    proof fn lemma_slot_weak(&self, i: int)
        requires
            0 <= i < self.entries@.len(),
            forall|a: int, b: int|
                0 <= a < b < self.entries@.len() ==> self.entries@[a].digest
                    != self.entries@[b].digest,
        ensures
            has_digest(self.entries@, self.entries@[i].digest),
            slot_of(self.entries@, self.entries@[i].digest) == i,
            self@.contains_key(self.entries@[i].digest),
            self@[self.entries@[i].digest] == self.entries@[i].ids@.to_set(),
    {
        let d = self.entries@[i].digest;
        assert(has_digest(self.entries@, d));
        let j = slot_of(self.entries@, d);
        assert(0 <= j < self.entries@.len() && self.entries@[j].digest == d);
    }

    /// After an entry for a previously-unseen digest is appended and its
    /// pair is added to the table, the index stays coherent and its map
    /// gains exactly that entry.
    proof fn lemma_view_after_new_entry(pre: Self, post: Self, digest: u128, slot: usize)
        requires
            pre.wf(),
            slot == pre.entries@.len(),
            forall|i: int| 0 <= i < pre.entries@.len() ==> pre.entries@[i].digest != digest,
            post.entries@.len() == pre.entries@.len() + 1,
            forall|i: int|
                0 <= i < pre.entries@.len() ==> post.entries@[i] == pre.entries@[i],
            post.entries@.last().digest == digest,
            digest128(post.entries@.last().value) == digest,
            distinct_ids(post.entries@.last().ids@),
            table_placed(post.table),
            table_items(post.table) == table_items(pre.table).insert((digest, slot)),
        ensures
            post.wf(),
            post@ == pre@.insert(digest, post.entries@.last().ids@.to_set()),
    {
        broadcast use vstd::multiset::group_multiset_axioms;

        let n = pre.entries@.len();
        assert forall|d: u128, s: usize| #[trigger]
            table_items(post.table).contains((d, s)) implies s < post.entries@.len()
            && post.entries@[s as int].digest == d by {
            if !(d == digest && s == slot) {
                assert(table_items(pre.table).contains((d, s)));
            }
        }
        assert forall|i: int| 0 <= i < post.entries@.len() implies #[trigger] table_items(
            post.table,
        ).contains((post.entries@[i].digest, i as usize)) by {
            if i < n {
                assert(table_items(pre.table).contains((pre.entries@[i].digest, i as usize)));
            }
        }
        assert(post.wf());
        assert forall|x: u128| #[trigger] pre@.insert(digest, post.entries@.last().ids@.to_set())
            .contains_key(x) implies post@.contains_key(x) && post@[x] == pre@.insert(
            digest,
            post.entries@.last().ids@.to_set(),
        )[x] by {
            if x == digest {
                assert(post.entries@[n as int].digest == digest);
                post.lemma_slot(n as int);
            } else {
                let i = slot_of(pre.entries@, x);
                pre.lemma_slot(i);
                assert(post.entries@[i].digest == x);
                post.lemma_slot(i);
            }
        }
        assert forall|x: u128| #[trigger] post@.contains_key(x) implies pre@.insert(
            digest,
            post.entries@.last().ids@.to_set(),
        ).contains_key(x) by {
            let i = slot_of(post.entries@, x);
            assert(0 <= i < post.entries@.len() && post.entries@[i].digest == x);
            if i < n {
                assert(pre.entries@[i].digest == x);
                assert(has_digest(pre.entries@, x));
            }
        }
        assert(post@ =~= pre@.insert(digest, post.entries@.last().ids@.to_set()));
    }
}

impl<T: ContentHash> Index<T> {
    /// Store a complete entity set for `key` as a new entry.  The key's
    /// digest must be previously unseen: an existing entry is reported as
    /// `DuplicateKey` and left untouched.
    pub fn insert_value(&mut self, key: T, ids: Vec<EntityId>) -> (r: Result<(), IndexError>)
        requires
            old(self).wf(),
        ensures
            final(self).wf(),
            match r {
                Ok(_) => !old(self)@.contains_key(digest128(key)) && final(self)@ == old(
                    self,
                )@.insert(digest128(key), ids@.to_set()),
                Err(e) => e == IndexError::DuplicateKey && old(self)@.contains_key(
                    digest128(key),
                ) && final(self)@ == old(self)@,
            },
    {
        let digest = one_shot_128(&key);
        let key64 = placement_key(digest);
        match self.table.find(key64, digest) {
            Some(e) => {
                proof {
                    old(self).lemma_slot(e.1 as int);
                }
                Err(IndexError::DuplicateKey)
            },
            None => {
                proof {
                    old(self).lemma_no_slot(digest);
                }
                let slot = self.entries.len();
                let stored = dedup_ids(&ids);
                self.entries.push(Entry { digest, value: key, ids: stored });
                self.table.insert(key64, (digest, slot));
                proof {
                    Self::lemma_view_after_new_entry(*old(self), *self, digest, slot);
                }
                Ok(())
            },
        }
    }

    /// The entity set stored for `key`, when its digest has an entry.
    /// Absence is a normal outcome, not an error.
    pub fn get(&self, key: &T) -> (r: Option<&Vec<EntityId>>)
        requires
            self.wf(),
        ensures
            match r {
                Some(ids) => self@.contains_key(digest128(*key)) && ids@.to_set() == self@[
                    digest128(*key)
                ] && distinct_ids(ids@),
                None => !self@.contains_key(digest128(*key)),
            },
    {
        let digest = one_shot_128(key);
        self.get_with_hash(digest)
    }

    /// Whether `key`'s digest has an entry.
    pub fn has_key(&self, key: &T) -> (r: bool)
        requires
            self.wf(),
        ensures
            r == self@.contains_key(digest128(*key)),
    {
        let digest = one_shot_128(key);
        self.get_with_hash(digest).is_some()
    }

    /// Mutable access to the entity set stored for `key`, when its digest
    /// has an entry.  The map afterwards holds, at that digest, whatever
    /// the caller leaves behind the reference; the index stays coherent as
    /// long as the caller leaves no identifier twice.
    pub fn get_mut(&mut self, key: &T) -> (r: Option<&mut Vec<EntityId>>)
        requires
            old(self).wf(),
        ensures
            match r {
                Some(ids) => old(self)@.contains_key(digest128(*key)) && (*ids)@.to_set() == old(
                    self,
                )@[digest128(*key)] && distinct_ids((*ids)@) && final(self)@ == old(self)@.insert(
                    digest128(*key),
                    (*final(ids))@.to_set(),
                ) && (distinct_ids((*final(ids))@) ==> final(self).wf()),
                None => !old(self)@.contains_key(digest128(*key)) && final(self)@ == old(self)@
                    && final(self).wf(),
            },
    {
        let digest = one_shot_128(key);
        self.get_with_hash_mut(digest)
    }
}

/// The capability set that every typed index offers once its property type
/// is erased: all operations are keyed by content digest alone.  A caller
/// holding no value cannot originate an entry, so the digest-keyed
/// insertion only extends existing entries.
pub trait TypeErasedIndex {
    /// The index as a map from content digests to entity sets.
    spec fn hash_view(&self) -> Map<u128, Set<EntityId>>;

    /// Coherence of the underlying representation.
    spec fn hash_wf(&self) -> bool;

    /// Add `entity_id` to the existing entry for `hash`; an absent entry is
    /// reported as `NoSuchEntry`, and the index is then left unchanged.
    /// `Ok` returns whether the identifier was newly added.
    fn insert_entity_with_hash(&mut self, hash: u128, entity_id: EntityId) -> (r: Result<
        bool,
        IndexError,
    >)
        requires
            old(self).hash_wf(),
        ensures
            final(self).hash_wf(),
            match r {
                Ok(added) => old(self).hash_view().contains_key(hash) && final(self).hash_view()
                    == old(self).hash_view().insert(
                    hash,
                    old(self).hash_view()[hash].insert(entity_id),
                ) && added == !old(self).hash_view()[hash].contains(entity_id),
                Err(e) => e == IndexError::NoSuchEntry && !old(self).hash_view().contains_key(hash)
                    && final(self).hash_view() == old(self).hash_view(),
            },
    ;

    /// The entity set stored for `hash`, when it has an entry.
    fn get_with_hash(&self, hash: u128) -> (r: Option<&Vec<EntityId>>)
        requires
            self.hash_wf(),
        ensures
            match r {
                Some(ids) => self.hash_view().contains_key(hash) && ids@.to_set()
                    == self.hash_view()[hash] && distinct_ids(ids@),
                None => !self.hash_view().contains_key(hash),
            },
    ;

    /// Mutable access to the entity set stored for `hash`, when it has an
    /// entry.  The map afterwards holds, at that digest, whatever the
    /// caller leaves behind the reference; the representation stays
    /// coherent as long as the caller leaves no identifier twice.
    fn get_with_hash_mut(&mut self, hash: u128) -> (r: Option<&mut Vec<EntityId>>)
        requires
            old(self).hash_wf(),
        ensures
            match r {
                Some(ids) => old(self).hash_view().contains_key(hash) && (*ids)@.to_set() == old(
                    self,
                ).hash_view()[hash] && distinct_ids((*ids)@) && final(self).hash_view() == old(
                    self,
                ).hash_view().insert(hash, (*final(ids))@.to_set()) && (distinct_ids(
                    (*final(ids))@,
                ) ==> final(self).hash_wf()),
                None => !old(self).hash_view().contains_key(hash) && final(self).hash_view()
                    == old(self).hash_view() && final(self).hash_wf(),
            },
    ;

    /// Whether `hash` has an entry.
    fn has_hash(&self, hash: u128) -> (r: bool)
        requires
            self.hash_wf(),
        ensures
            r == self.hash_view().contains_key(hash),
    ;
}

impl<T: ContentHash> TypeErasedIndex for Index<T> {
    /// The erased view is the typed view: both speak of digests.
    open spec fn hash_view(&self) -> Map<u128, Set<EntityId>> {
        self.view()
    }

    open spec fn hash_wf(&self) -> bool {
        self.wf()
    }

    fn insert_entity_with_hash(&mut self, hash: u128, entity_id: EntityId) -> (r: Result<
        bool,
        IndexError,
    >) {
        let key64 = placement_key(hash);
        match self.table.find(key64, hash) {
            Some(e) => {
                let slot = e.1;
                proof {
                    old(self).lemma_slot(slot as int);
                }
                let present = id_vec_contains(&self.entries[slot].ids, entity_id);
                if present {
                    proof {
                        assert(old(self)@[hash].insert(entity_id) =~= old(self)@[hash]);
                        assert(self@ =~= old(self)@.insert(
                            hash,
                            old(self)@[hash].insert(entity_id),
                        ));
                    }
                    Ok(false)
                } else {
                    push_id_at(&mut self.entries, slot, entity_id);
                    proof {
                        Self::lemma_view_after_set_update(
                            *old(self),
                            *self,
                            slot as int,
                            entity_id,
                        );
                        lemma_push_to_set(old(self).entries@[slot as int].ids@, entity_id);
                    }
                    Ok(true)
                }
            },
            None => {
                proof {
                    old(self).lemma_no_slot(hash);
                }
                Err(IndexError::NoSuchEntry)
            },
        }
    }

    fn get_with_hash(&self, hash: u128) -> (r: Option<&Vec<EntityId>>) {
        let key64 = placement_key(hash);
        match self.table.find(key64, hash) {
            Some(e) => {
                proof {
                    self.lemma_slot(e.1 as int);
                }
                Some(&self.entries[e.1].ids)
            },
            None => {
                proof {
                    self.lemma_no_slot(hash);
                }
                None
            },
        }
    }

    fn get_with_hash_mut(&mut self, hash: u128) -> (r: Option<&mut Vec<EntityId>>) {
        let key64 = placement_key(hash);
        match self.table.find(key64, hash) {
            Some(e) => {
                let slot = e.1;
                proof {
                    old(self).lemma_slot(slot as int);
                }
                proof {
                    let pre = *self;
                    assert forall|post: Self|
                        #![trigger post.view()]
                        (post.table == pre.table && post.entries@.len() == pre.entries@.len() && (
                        forall|i: int|
                            0 <= i < pre.entries@.len() && i != slot ==> post.entries@[i]
                                == pre.entries@[i]) && post.entries@[slot as int].digest
                            == pre.entries@[slot as int].digest && post.entries@[slot as int].value
                            == pre.entries@[slot as int].value) implies (post@ == pre@.insert(
                        hash,
                        post.entries@[slot as int].ids@.to_set(),
                    ) && (distinct_ids(post.entries@[slot as int].ids@) ==> post.wf())) by {
                        Self::lemma_view_after_ids_replace(pre, post, slot as int);
                    }
                }
                let entry = &mut self.entries[slot];
                let ids = &mut entry.ids;
                Some(ids)
            },
            None => {
                proof {
                    self.lemma_no_slot(hash);
                }
                None
            },
        }
    }

    fn has_hash(&self, hash: u128) -> (r: bool) {
        self.get_with_hash(hash).is_some()
    }
}

/// Copy the identifiers, keeping each only once.
pub(crate) fn dedup_ids(ids: &Vec<EntityId>) -> (r: Vec<EntityId>)
    ensures
        r@.to_set() == ids@.to_set(),
        distinct_ids(r@),
{
    let n = ids.len();
    let mut out: Vec<EntityId> = Vec::new();
    let mut i: usize = 0;
    while i < n
        invariant
            i <= n,
            n == ids@.len(),
            distinct_ids(out@),
            out@.to_set() == ids@.take(i as int).to_set(),
        decreases n - i,
    {
        let id = ids[i];
        let present = id_vec_contains(&out, id);
        proof {
            assert(ids@.take(i + 1) =~= ids@.take(i as int).push(ids@[i as int]));
            lemma_push_to_set(ids@.take(i as int), ids@[i as int]);
        }
        if !present {
            let ghost before = out@;
            proof {
                lemma_push_to_set(out@, id);
            }
            out.push(id);
            proof {
                assert(distinct_ids(out@)) by {
                    let s = out@;
                    assert forall|a: int, b: int| 0 <= a < b < s.len() implies s[a] != s[b] by {
                        if b == s.len() - 1 {
                            assert(before.contains(s[a])) by {
                                assert(before[a] == s[a]);
                            }
                        }
                    }
                }
            }
        } else {
            proof {
                assert(out@.to_set().contains(id)) by {
                    assert(out@.contains(id));
                }
                assert(out@.to_set() =~= out@.to_set().insert(id));
            }
        }
        i += 1;
    }
    proof {
        assert(ids@.take(n as int) =~= ids@);
    }
    out
}

/// Push an identifier onto the entity vector stored at the given slot,
/// leaving every other entry and the slot's other fields unchanged.
fn push_id_at<T: ContentHash>(entries: &mut Vec<Entry<T>>, slot: usize, id: EntityId)
    requires
        slot < old(entries)@.len(),
    ensures
        final(entries)@.len() == old(entries)@.len(),
        forall|i: int|
            0 <= i < old(entries)@.len() && i != slot ==> final(entries)@[i] == old(entries)@[i],
        final(entries)@[slot as int].digest == old(entries)@[slot as int].digest,
        final(entries)@[slot as int].value == old(entries)@[slot as int].value,
        final(entries)@[slot as int].ids@ == old(entries)@[slot as int].ids@.push(id),
{
    let entry = &mut entries[slot];
    entry.ids.push(id);
}

/// Whether the identifier occurs in the vector.
pub(crate) fn id_vec_contains(ids: &Vec<EntityId>, id: EntityId) -> (r: bool)
    ensures
        r == ids@.contains(id),
{
    let n = ids.len();
    let mut i: usize = 0;
    while i < n
        invariant
            0 <= i <= n,
            n == ids@.len(),
            forall|j: int| 0 <= j < i ==> ids@[j] != id,
        decreases n - i,
    {
        if ids[i] == id {
            return true;
        }
        i += 1;
    }
    false
}

} // verus!
