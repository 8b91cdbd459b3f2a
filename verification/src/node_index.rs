//! The insertion-ordered set of node keys that backs the node registry.
//!
//! The set is an `indexmap::IndexSet` keyed by `u64` and hashed with
//! `rustc_hash::FxHasher`. Verus does not look inside it: what it holds is
//! named by [`node_order`], and each operation below states, without proof,
//! what the corresponding `IndexSet` method does to that sequence.

use indexmap::IndexSet;
use rustc_hash::FxHasher;
use std::hash::BuildHasherDefault;
use vstd::prelude::*;

verus! {

/// `indexmap::IndexSet`, taken as it is: nothing inside it is visible to
/// the proofs.
#[verifier::external_type_specification]
#[verifier::external_body]
#[verifier::reject_recursive_types(T)]
#[verifier::reject_recursive_types(S)]
pub struct ExIndexSet<T, S>(IndexSet<T, S>);

/// `rustc_hash::FxHasher`, taken as it is.
#[verifier::external_type_specification]
#[verifier::external_body]
pub struct ExFxHasher(FxHasher);

/// `std::hash::BuildHasherDefault`, taken as it is.
#[verifier::external_type_specification]
#[verifier::external_body]
#[verifier::reject_recursive_types(H)]
pub struct ExBuildHasherDefault<H>(BuildHasherDefault<H>);

/// The hashing strategy of the node index.
pub type NodeHasher = BuildHasherDefault<FxHasher>;

/// An insertion-ordered set of node keys.
pub type NodeIndex = IndexSet<u64, BuildHasherDefault<FxHasher>>;

/// The node keys that an index set holds, in the order of their insertion.
pub uninterp spec fn node_order(set: IndexSet<u64, BuildHasherDefault<FxHasher>>) -> Seq<u64>;

/// `BuildHasherDefault::<FxHasher>::default()`: the hashing strategy that the
/// searches use when the caller names none. Nothing is claimed of it.
#[verifier::external_body]
pub(crate) fn fx_build_hasher() -> (hasher: BuildHasherDefault<FxHasher>) {
    BuildHasherDefault::<FxHasher>::default()
}

/// `Clone::clone` of the hashing strategy, for a search that keeps two
/// registries. Nothing is claimed of it.
#[verifier::external_body]
pub(crate) fn clone_hasher(hasher: &BuildHasherDefault<FxHasher>) -> (copy: BuildHasherDefault<FxHasher>) {
    hasher.clone()
}

/// `IndexSet::with_hasher`: the new set holds no key.
#[verifier::external_body]
pub(crate) fn index_with_hasher(hasher: BuildHasherDefault<FxHasher>) -> (set: IndexSet<
    u64,
    BuildHasherDefault<FxHasher>,
>)
    ensures
        node_order(set) == Seq::<u64>::empty(),
{
    IndexSet::with_hasher(hasher)
}

/// `IndexSet::len`: the number of keys held.
#[verifier::external_body]
pub(crate) fn index_len(set: &IndexSet<u64, BuildHasherDefault<FxHasher>>) -> (n: usize)
    ensures
        n == node_order(*set).len(),
{
    set.len()
}

/// `IndexSet::get_index`: the key at position `i` of the insertion order, or
/// `None` when `i` is not a position of the set.
#[verifier::external_body]
pub(crate) fn index_get(set: &IndexSet<u64, BuildHasherDefault<FxHasher>>, i: usize) -> (key:
    Option<u64>)
    ensures
        i < node_order(*set).len() ==> key == Some(node_order(*set)[i as int]),
        i >= node_order(*set).len() ==> key.is_none(),
{
    set.get_index(i).copied()
}

/// `IndexSet::get_index_of`: a position at which `key` is held, or `None`
/// when the set does not hold it.
#[verifier::external_body]
pub(crate) fn index_find(set: &IndexSet<u64, BuildHasherDefault<FxHasher>>, key: u64) -> (at:
    Option<usize>)
    ensures
        match at {
            Some(i) => i < node_order(*set).len() && node_order(*set)[i as int] == key,
            None => !node_order(*set).contains(key),
        },
{
    set.get_index_of(&key)
}

/// `IndexSet::insert_full`: a key that the set already holds leaves the set
/// as it is, and its position comes back with `false`; a new key goes to the
/// end of the order, and its position comes back with `true`. The number of
/// keys held is one that `IndexSet::len` can return, so it fits a `usize`.
#[verifier::external_body]
pub(crate) fn index_insert(set: &mut IndexSet<u64, BuildHasherDefault<FxHasher>>, key: u64) -> (at:
    (usize, bool))
    ensures
        node_order(*final(set)).len() <= usize::MAX,
        at.1 == !node_order(*old(set)).contains(key),
        at.1 ==> node_order(*final(set)) == node_order(*old(set)).push(key) && at.0 == node_order(
            *old(set),
        ).len(),
        !at.1 ==> node_order(*final(set)) == node_order(*old(set)) && at.0 < node_order(
            *old(set),
        ).len() && node_order(*old(set))[at.0 as int] == key,
{
    set.insert_full(key)
}

} // verus!
