//! The bucketed table underneath every index: (digest, slot) pairs placed
//! by the low 64 bits of the digest and confirmed by full-digest equality.
//! A resize relocates pairs by rehashing the stored digest, never a value.

use vstd::multiset::Multiset;
use vstd::prelude::*;

verus! {

/// A table of (digest, slot) pairs, backed by hashbrown's raw hash table.
#[verifier::external_body]
pub struct DigestTable {
    table: hashbrown::HashTable<(u128, usize)>,
}

/// What the table holds: the multiset of (digest, slot) pairs in it.
pub uninterp spec fn table_items(t: DigestTable) -> Multiset<(u128, usize)>;

/// Whether every pair in the table was placed under the low 64 bits of its
/// digest, so that probing by that placement key finds it.
pub uninterp spec fn table_placed(t: DigestTable) -> bool;

/// The 64-bit placement key derived from a 128-bit digest.
pub open spec fn low64(d: u128) -> u64 {
    d as u64
}

/// Compute the placement key of a digest.
pub(crate) fn placement_key(d: u128) -> (r: u64)
    ensures
        r == low64(d),
{
    #[verifier::truncate] (d as u64)
}

/// The placement key of a stored pair, from the stored digest alone.
fn slot_hash(e: &(u128, usize)) -> (r: u64)
    ensures
        r == low64(e.0),
{
    #[verifier::truncate] (e.0 as u64)
}

/// Whether a stored pair carries the given full digest.
fn digest_matches(e: &(u128, usize), d: u128) -> (r: bool)
    ensures
        r == (e.0 == d),
{
    e.0 == d
}

impl DigestTable {
    /// Relies on `hashbrown::HashTable::new`: the new table is empty.
    #[verifier::external_body]
    pub(crate) fn new() -> (t: DigestTable)
        ensures
            table_items(t) == Multiset::<(u128, usize)>::empty(),
            table_placed(t),
    {
        DigestTable { table: hashbrown::HashTable::new() }
    }

    /// Relies on `hashbrown::HashTable::find`: it returns a stored entry that
    /// the predicate accepts, probing those placed under the given key, and
    /// returns `None` only when the predicate accepts none of them.
    #[verifier::external_body]
    pub(crate) fn find(&self, key: u64, digest: u128) -> (r: Option<(u128, usize)>)
        requires
            key == low64(digest),
            table_placed(*self),
        ensures
            match r {
                Some(e) => table_items(*self).contains(e) && e.0 == digest,
                None => forall|s: usize| !table_items(*self).contains((digest, s)),
            },
    {
        self.table.find(key, |e: &(u128, usize)| digest_matches(e, digest)).copied()
    }

    /// Relies on `hashbrown::HashTable::insert_unique`: the pair is added to
    /// the table under the given placement key, and entries moved during a
    /// resize keep the key that the hasher computes from their stored digest.
    #[verifier::external_body]
    pub(crate) fn insert(&mut self, key: u64, item: (u128, usize))
        requires
            key == low64(item.0),
            table_placed(*old(self)),
        ensures
            table_items(*final(self)) == table_items(*old(self)).insert(item),
            table_placed(*final(self)),
    {
        self.table.insert_unique(key, item, |e: &(u128, usize)| slot_hash(e));
    }
}

} // verus!
