//! The index of the table of paths: an insertion-ordered hash map that
//! finds the position of a descriptor by its key.
//!
//! The map is `indexmap::IndexMap`. Nothing in this file is proved: each
//! item states what the source of `indexmap` shows, and the builder is
//! proved against these statements.

use vstd::prelude::*;
use indexmap::IndexMap;
use rustc_hash::FxBuildHasher;

verus! {

/// `indexmap::IndexMap`, declared so that a builder can hold one. What is
/// in a map is known only through `table_keys`.
#[verifier::external_type_specification]
#[verifier::external_body]
#[verifier::reject_recursive_types(K)]
#[verifier::reject_recursive_types(V)]
#[verifier::reject_recursive_types(S)]
pub struct ExIndexMap<K, V, S>(IndexMap<K, V, S>);

/// `rustc_hash::FxBuildHasher`, the hasher that the index is made with. It
/// is a unit struct; nothing is stated of it.
#[verifier::external_type_specification]
#[verifier::external_body]
pub struct ExFxBuildHasher(FxBuildHasher);

/// The keys of an `IndexMap`, in the order of its entries. For a map that
/// has only been inserted into, that is the order in which the keys were
/// first inserted; the hasher has no part in it.
pub uninterp spec fn table_keys(table: IndexMap<(u8, usize, usize), (), FxBuildHasher>) -> Seq<
    (u8, usize, usize),
>;

/// `IndexMap::default`: a map without entries.
#[verifier::external_body]
pub(crate) fn new_table() -> (table: IndexMap<(u8, usize, usize), (), FxBuildHasher>)
    ensures
        table_keys(table) == Seq::<(u8, usize, usize)>::empty(),
{
    IndexMap::default()
}

/// `IndexMap::insert_full` with the unit value. If the map has an entry
/// with an equal key, its entries stay as they are and the call returns
/// the position of that entry and `Some`. If it has none, the key becomes
/// the last entry and the call returns its position, which is the number
/// of entries before the call, and `None`.
#[verifier::external_body]
pub(crate) fn insert_full(
    table: &mut IndexMap<(u8, usize, usize), (), FxBuildHasher>,
    key: (u8, usize, usize),
) -> (r: (usize, Option<()>))
    ensures
        table_keys(*old(table)).contains(key) ==> {
            &&& table_keys(*final(table)) == table_keys(*old(table))
            &&& r.1 is Some
            &&& r.0 < table_keys(*old(table)).len()
            &&& table_keys(*old(table))[r.0 as int] == key
        },
        !table_keys(*old(table)).contains(key) ==> {
            &&& table_keys(*final(table)) == table_keys(*old(table)).push(key)
            &&& r.1 is None
            &&& r.0 == table_keys(*old(table)).len()
        },
{
    table.insert_full(key, ())
}

} // verus!
