//! The pool's entry table: an insertion-ordered hash map from the `indexmap` crate.
use vstd::prelude::*;

use indexmap::IndexMap;

use crate::entry::MempoolEntry;

verus! {

#[verifier::external_type_specification]
#[verifier::external_body]
#[verifier::reject_recursive_types(K)]
#[verifier::reject_recursive_types(V)]
#[verifier::reject_recursive_types(S)]
pub struct ExIndexMap<K, V, S>(IndexMap<K, V, S>);

/// Key of the entry table: a transaction hash as its two 128-bit halves.
pub type EntryKey = (u128, u128);

/// The key-value pairs of an entry table, in the map's iteration order.
pub uninterp spec fn table_pairs(m: IndexMap<(u128, u128), MempoolEntry>) -> Seq<((u128, u128), MempoolEntry)>;

/// Whether `k` is a key of `s`.
pub open spec fn has_key(s: Seq<(EntryKey, MempoolEntry)>, k: EntryKey) -> bool {
    exists|i: int| 0 <= i < s.len() && s[i].0 == k
}

/// The position of `k` in `s` (meaningful when `has_key(s, k)`).
pub open spec fn key_position(s: Seq<(EntryKey, MempoolEntry)>, k: EntryKey) -> int {
    choose|i: int| 0 <= i < s.len() && s[i].0 == k
}

/// The value stored under `k`, if any.
pub open spec fn table_lookup(s: Seq<(EntryKey, MempoolEntry)>, k: EntryKey) -> Option<MempoolEntry> {
    if has_key(s, k) {
        Some(s[key_position(s, k)].1)
    } else {
        None
    }
}

/// No key occurs twice.
pub open spec fn keys_unique(s: Seq<(EntryKey, MempoolEntry)>) -> bool {
    forall|i: int, j: int| 0 <= i < s.len() && 0 <= j < s.len() && s[i].0 == s[j].0 ==> i == j
}

/// `IndexMap::new`: the table starts empty.
#[verifier::external_body]
pub(crate) fn table_new() -> (m: IndexMap<(u128, u128), MempoolEntry>)
    ensures
        table_pairs(m) == Seq::<(EntryKey, MempoolEntry)>::empty(),
{
    IndexMap::new()
}

/// `IndexMap::len`: the number of pairs.
#[verifier::external_body]
pub(crate) fn table_len(m: &IndexMap<(u128, u128), MempoolEntry>) -> (r: usize)
    ensures
        r == table_pairs(*m).len(),
{
    m.len()
}

/// `IndexMap::contains_key`: whether some pair has key `k`.
#[verifier::external_body]
pub(crate) fn table_contains(m: &IndexMap<(u128, u128), MempoolEntry>, k: &(u128, u128)) -> (r: bool)
    ensures
        r == has_key(table_pairs(*m), *k),
{
    m.contains_key(k)
}

/// `IndexMap::get`: the value stored under `k`, if any.
#[verifier::external_body]
pub(crate) fn table_get(m: &IndexMap<(u128, u128), MempoolEntry>, k: &(u128, u128)) -> (r: Option<MempoolEntry>)
    ensures
        r == table_lookup(table_pairs(*m), *k),
{
    m.get(k).copied()
}

/// `IndexMap::get_index`: the pair at position `i`, if `i` is in range.
#[verifier::external_body]
pub(crate) fn table_get_index(m: &IndexMap<(u128, u128), MempoolEntry>, i: usize) -> (r: Option<((u128, u128), MempoolEntry)>)
    ensures
        i < table_pairs(*m).len() ==> r == Some(table_pairs(*m)[i as int]),
        i >= table_pairs(*m).len() ==> r is None,
{
    m.get_index(i).map(|(k, v)| (*k, *v))
}

/// `IndexMap::insert`: an existing key keeps its position and gets the new value; a new key
/// is appended last. The previous value is handed back.
#[verifier::external_body]
pub(crate) fn table_insert(m: &mut IndexMap<(u128, u128), MempoolEntry>, k: (u128, u128), v: MempoolEntry) -> (r: Option<MempoolEntry>)
    ensures
        has_key(table_pairs(*old(m)), k) ==> {
            let p = key_position(table_pairs(*old(m)), k);
            &&& table_pairs(*final(m)) == table_pairs(*old(m)).update(p, (k, v))
            &&& r == Some(table_pairs(*old(m))[p].1)
        },
        !has_key(table_pairs(*old(m)), k) ==> {
            &&& table_pairs(*final(m)) == table_pairs(*old(m)).push((k, v))
            &&& r is None
        },
{
    m.insert(k, v)
}

/// `IndexMap::shift_remove`: removes the pair with key `k`, keeping the order of the rest.
#[verifier::external_body]
pub(crate) fn table_shift_remove(m: &mut IndexMap<(u128, u128), MempoolEntry>, k: &(u128, u128)) -> (r: Option<MempoolEntry>)
    ensures
        has_key(table_pairs(*old(m)), *k) ==> {
            let p = key_position(table_pairs(*old(m)), *k);
            &&& table_pairs(*final(m)) == table_pairs(*old(m)).remove(p)
            &&& r == Some(table_pairs(*old(m))[p].1)
        },
        !has_key(table_pairs(*old(m)), *k) ==> {
            &&& table_pairs(*final(m)) == table_pairs(*old(m))
            &&& r is None
        },
{
    m.shift_remove(k)
}

/// `IndexMap::clear`: removes every pair.
#[verifier::external_body]
pub(crate) fn table_clear(m: &mut IndexMap<(u128, u128), MempoolEntry>)
    ensures
        table_pairs(*final(m)) == Seq::<(EntryKey, MempoolEntry)>::empty(),
{
    m.clear()
}

} // verus!
