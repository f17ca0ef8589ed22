//! The hash table in which the loader records the read counts of each locus
//! and cell, and the sort that brings what it holds into order.
//!
//! The table is `hashbrown::HashMap`. Nothing in this file is proved: each
//! function states what the table's or the standard library's documentation
//! says of the call it makes.

use hashbrown::HashMap;
use vstd::prelude::*;

verus! {

#[verifier::external_type_specification]
#[verifier::external_body]
pub struct ExDefaultHashBuilder(hashbrown::hash_map::DefaultHashBuilder);

#[verifier::external_type_specification]
#[verifier::external_body]
#[verifier::reject_recursive_types(K)]
#[verifier::reject_recursive_types(V)]
#[verifier::reject_recursive_types(S)]
pub struct ExHashMap<K, V, S>(HashMap<K, V, S>);

/// What a table holds: for each pair of a locus and a cell that it has a
/// record of, the reference and the alternate read count, in this order.
pub uninterp spec fn records(table: HashMap<(usize, usize), (u32, u32)>) -> Map<
    (usize, usize),
    (u32, u32),
>;

/// The table of records that holds nothing.
pub open spec fn no_records() -> Map<(usize, usize), (u32, u32)> {
    Map::empty()
}

/// The key of a listed record: its locus and its cell.
pub open spec fn key_of(entry: (usize, usize, u32, u32)) -> (usize, usize) {
    (entry.0, entry.1)
}

/// The counts of a listed record: reference reads, then alternate reads.
pub open spec fn counts_of(entry: (usize, usize, u32, u32)) -> (u32, u32) {
    (entry.2, entry.3)
}

/// No two records of the list have the same locus and cell.
pub open spec fn distinct_keys(list: Seq<(usize, usize, u32, u32)>) -> bool {
    forall|j: int, k: int|
        0 <= j < list.len() && 0 <= k < list.len() && j != k ==> key_of(#[trigger] list[j])
            != key_of(#[trigger] list[k])
}

/// The list holds each record of `m` once, and nothing else. It says nothing
/// of the order.
pub open spec fn lists(list: Seq<(usize, usize, u32, u32)>, m: Map<(usize, usize), (u32, u32)>) -> bool {
    &&& distinct_keys(list)
    &&& forall|k: int|
        0 <= k < list.len() ==> m.dom().contains(key_of(#[trigger] list[k])) && m[key_of(list[k])]
            == counts_of(list[k])
    &&& forall|key: (usize, usize)| #[trigger]
        m.dom().contains(key) ==> exists|k: int| 0 <= k < list.len() && key_of(#[trigger] list[k]) == key
}

/// The order of records: by locus, then by cell, then by reference count, then
/// by alternate count.
pub open spec fn entry_le(a: (usize, usize, u32, u32), b: (usize, usize, u32, u32)) -> bool {
    a.0 < b.0 || (a.0 == b.0 && (a.1 < b.1 || (a.1 == b.1 && (a.2 < b.2 || (a.2 == b.2 && a.3
        <= b.3)))))
}

/// Each record of the list is at most the records after it.
pub open spec fn in_order(list: Seq<(usize, usize, u32, u32)>) -> bool {
    forall|j: int, k: int| 0 <= j < k < list.len() ==> entry_le(#[trigger] list[j], #[trigger] list[k])
}

/// Calls `HashMap::new`, which makes a table that holds nothing.
#[verifier::external_body]
pub(crate) fn new_table() -> (table: HashMap<(usize, usize), (u32, u32)>)
    ensures
        records(table) == no_records(),
{
    HashMap::new()
}

/// Calls `HashMap::insert`. After it the key has the new counts, whether or
/// not the table had a record under that key, and every other key has what it
/// had. The counts that were replaced are dropped.
#[verifier::external_body]
pub(crate) fn put_record(
    table: &mut HashMap<(usize, usize), (u32, u32)>,
    key: (usize, usize),
    counts: (u32, u32),
)
    ensures
        records(*final(table)) == records(*old(table)).insert(key, counts),
{
    table.insert(key, counts);
}

/// Calls `HashMap::iter`, which visits every record of the table once, in an
/// order of its own choosing, and copies each record into the list.
#[verifier::external_body]
pub(crate) fn list_records(table: &HashMap<(usize, usize), (u32, u32)>) -> (list: Vec<
    (usize, usize, u32, u32),
>)
    ensures
        lists(list@, records(*table)),
{
    table.iter().map(|(key, counts)| (key.0, key.1, counts.0, counts.1)).collect()
}

/// Calls `sort` of the standard library's slices. It rearranges the list, so
/// that the same records are in it as often as before, and leaves them in the
/// order of tuples, which compares the components from left to right.
#[verifier::external_body]
pub(crate) fn sort_records(list: &mut Vec<(usize, usize, u32, u32)>)
    ensures
        final(list)@.to_multiset() == old(list)@.to_multiset(),
        in_order(final(list)@),
{
    list.sort();
}

} // verus!
