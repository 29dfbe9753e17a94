//! Secondary indexing keyed by content hashes.
//!
//! A property value is reduced to a 128-bit content digest; a typed index
//! maps digests to sets of entity identifiers, and a type-erased interface
//! lets heterogeneous indices be driven by digests alone.  A canonical
//! ordering protocol makes composite indices independent of the order in
//! which their component properties are named.

use vstd::prelude::*;

pub mod hash128;
pub mod multi_index;
mod table;
pub mod type_erased_index;
pub mod typed_index;

verus! {

/// Identifier of an entity, allocated and owned outside this crate; the
/// indices only track membership of such identifiers.
pub type EntityId = u64;

} // verus!
