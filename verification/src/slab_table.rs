//! What the index assumes of `slab::Slab`, the slot table that owns the leaves.
//!
//! Nothing in this file is proved. Each item states what the `slab` crate
//! does, over the map from occupied key to stored record.

use slab::Slab;
use vstd::prelude::*;
use crate::handle_table::Leaf;

verus! {

/// `slab::Slab`, made known as a type whose inside is not looked into.
#[verifier::external_type_specification]
#[verifier::external_body]
#[verifier::reject_recursive_types(T)]
pub struct ExSlab<T>(Slab<T>);

/// The occupied keys of a slab, each with the record stored under it.
pub uninterp spec fn slab_entries(s: Slab<Leaf>) -> Map<usize, Leaf>;

/// `Slab::new`: a slab with no occupied key.
#[verifier::external_body]
pub(crate) fn slab_new() -> (slab: Slab<Leaf>)
    ensures
        slab_entries(slab) == (Map::<usize, Leaf>::empty()),
{
    Slab::new()
}

/// `Slab::insert`: stores the record under a key that was vacant and returns
/// that key; every other key keeps what it had. Like `Vec::push`, on which
/// it rests, it gives up only where the vector below it cannot grow.
#[verifier::external_body]
pub(crate) fn slab_insert(s: &mut Slab<Leaf>, leaf: Leaf) -> (key: usize)
    ensures
        !slab_entries(*old(s)).contains_key(key),
        slab_entries(*final(s)) == slab_entries(*old(s)).insert(key, leaf),
{
    s.insert(leaf)
}

/// `Slab::get`: the record under `key`, or `None` when the key is vacant or
/// beyond the slab.
#[verifier::external_body]
pub(crate) fn slab_get(s: &Slab<Leaf>, key: usize) -> (r: Option<Leaf>)
    ensures
        r == (if slab_entries(*s).contains_key(key) {
            Some(slab_entries(*s)[key])
        } else {
            None
        }),
{
    s.get(key).copied()
}

/// `Slab::index_mut`, as `slab[key] = ..`: overwrites the record under an
/// occupied key; every other key keeps what it had. On a vacant key the slab
/// panics, so the key has to be occupied.
#[verifier::external_body]
pub(crate) fn slab_set(s: &mut Slab<Leaf>, key: usize, leaf: Leaf)
    requires
        slab_entries(*old(s)).contains_key(key),
    ensures
        slab_entries(*final(s)) == slab_entries(*old(s)).insert(key, leaf),
{
    s[key] = leaf;
}

/// `Slab::try_remove`: frees an occupied key and returns what it held; a
/// vacant key gives `None` and changes nothing.
#[verifier::external_body]
pub(crate) fn slab_remove(s: &mut Slab<Leaf>, key: usize) -> (r: Option<Leaf>)
    ensures
        r == (if slab_entries(*old(s)).contains_key(key) {
            Some(slab_entries(*old(s))[key])
        } else {
            None
        }),
        slab_entries(*final(s)) == slab_entries(*old(s)).remove(key),
{
    s.try_remove(key)
}

} // verus!
