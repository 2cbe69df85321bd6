//! The concurrent ordered map backing the memtable and the transaction
//! staging area, held behind trusted wrappers.
//!
//! The memtable map is keyed by `(user_key, u64::MAX - version)` so that
//! the standard lexicographic order on `(Vec<u8>, u64)` coincides with
//! the VK order (user key ascending, version descending). The staging
//! map is keyed by the bare user key.

use vstd::prelude::*;

verus! {

use crossbeam_skiplist::SkipMap;
use crate::key::bytes_lt;

#[verifier::external_type_specification]
#[verifier::external_body]
#[verifier::reject_recursive_types(K)]
#[verifier::reject_recursive_types(V)]
pub struct ExSkipMap<K, V>(SkipMap<K, V>);

/// What the memtable's map holds: encoded key (user key, inverted
/// version) to value bytes.
pub uninterp spec fn table_contents(m: SkipMap<(Vec<u8>, u64), Vec<u8>>) -> Map<(Seq<u8>, u64),
    Seq<u8>>;

/// What a transaction's staging map holds: user key to value bytes.
pub uninterp spec fn stage_contents(m: SkipMap<Vec<u8>, Vec<u8>>) -> Map<Seq<u8>, Seq<u8>>;

/// The standard order on encoded keys `(Vec<u8>, u64)`: lexicographic on
/// the byte vector, then ascending on the integer.
pub open spec fn enc_key_le(a: (Seq<u8>, u64), b: (Seq<u8>, u64)) -> bool {
    bytes_lt(a.0, b.0) || (a.0 == b.0 && a.1 <= b.1)
}

/// Relies on crossbeam_skiplist::SkipMap::new: a new map is empty.
#[verifier::external_body]
pub(crate) fn table_new() -> (m: SkipMap<(Vec<u8>, u64), Vec<u8>>)
    ensures
        forall|k: (Seq<u8>, u64)| !(#[trigger] table_contents(m).dom().contains(k)),
{
    SkipMap::new()
}

/// Relies on crossbeam_skiplist::SkipMap::insert: inserts the pair keyed
/// by the standard order on (Vec<u8>, u64); an existing entry with an
/// equal key is replaced.
#[verifier::external_body]
pub(crate) fn table_insert(
    m: &mut SkipMap<(Vec<u8>, u64), Vec<u8>>,
    key: (Vec<u8>, u64),
    value: Vec<u8>,
)
    ensures
        table_contents(*final(m)) == table_contents(*old(m)).insert((key.0@, key.1), value@),
{
    m.insert(key, value);
}

/// Relies on crossbeam_skiplist::SkipMap::get: returns the value of the
/// entry whose key equals the probe, if one is present.
#[verifier::external_body]
pub(crate) fn table_get(m: &SkipMap<(Vec<u8>, u64), Vec<u8>>, key: &(Vec<u8>, u64)) -> (r: Option<
    Vec<u8>>)
    ensures
        match r {
            Some(v) => table_contents(*m).contains_pair((key.0@, key.1), v@),
            None => !table_contents(*m).dom().contains((key.0@, key.1)),
        },
{
    m.get(key).map(|e| e.value().clone())
}

/// Relies on crossbeam_skiplist::SkipMap::lower_bound with an included
/// bound: returns the entry with the least key at or above the bound
/// under the standard order on (Vec<u8>, u64), or None when every key
/// lies below the bound.
#[verifier::external_body]
pub(crate) fn table_lower_bound(m: &SkipMap<(Vec<u8>, u64), Vec<u8>>, bound: &(Vec<u8>, u64))
    -> (r: Option<((Vec<u8>, u64), Vec<u8>)>)
    ensures
        match r {
            Some((k, v)) => {
                &&& table_contents(*m).contains_pair((k.0@, k.1), v@)
                &&& enc_key_le((bound.0@, bound.1), (k.0@, k.1))
                &&& forall|k2: (Seq<u8>, u64)|
                    #[trigger] table_contents(*m).dom().contains(k2) && enc_key_le(
                        (bound.0@, bound.1),
                        k2,
                    ) ==> enc_key_le((k.0@, k.1), k2)
            },
            None => forall|k2: (Seq<u8>, u64)| #[trigger] table_contents(*m).dom().contains(k2)
                ==> !enc_key_le((bound.0@, bound.1), k2),
        },
{
    m.lower_bound(core::ops::Bound::Included(bound)).map(
        |e| (e.key().clone(), e.value().clone()),
    )
}

/// Relies on crossbeam_skiplist::SkipMap::new: a new map is empty.
#[verifier::external_body]
pub(crate) fn stage_new() -> (m: SkipMap<Vec<u8>, Vec<u8>>)
    ensures
        forall|k: Seq<u8>| !(#[trigger] stage_contents(m).dom().contains(k)),
{
    SkipMap::new()
}

/// Relies on crossbeam_skiplist::SkipMap::insert: inserts the pair keyed
/// by the standard lexicographic order on Vec<u8>; an existing entry
/// with an equal key is replaced.
#[verifier::external_body]
pub(crate) fn stage_insert(m: &mut SkipMap<Vec<u8>, Vec<u8>>, key: Vec<u8>, value: Vec<u8>)
    ensures
        stage_contents(*final(m)) == stage_contents(*old(m)).insert(key@, value@),
{
    m.insert(key, value);
}

/// Relies on crossbeam_skiplist::SkipMap::get: returns the value of the
/// entry whose key equals the probe, if one is present.
#[verifier::external_body]
pub(crate) fn stage_get(m: &SkipMap<Vec<u8>, Vec<u8>>, key: &[u8]) -> (r: Option<Vec<u8>>)
    ensures
        match r {
            Some(v) => stage_contents(*m).contains_pair(key@, v@),
            None => !stage_contents(*m).dom().contains(key@),
        },
{
    m.get(key).map(|e| e.value().clone())
}

/// Relies on crossbeam_skiplist::SkipMap::iter: yields every entry of the
/// map exactly once, keys strictly ascending in the standard
/// lexicographic order on Vec<u8>.
#[verifier::external_body]
pub(crate) fn stage_entries(m: &SkipMap<Vec<u8>, Vec<u8>>) -> (r: Vec<(Vec<u8>, Vec<u8>)>)
    ensures
        forall|i: int| 0 <= i < r@.len() ==> stage_contents(*m).contains_pair(
            (#[trigger] r@[i]).0@,
            r@[i].1@,
        ),
        forall|k: Seq<u8>| #[trigger] stage_contents(*m).dom().contains(k) ==> exists|i: int|
            0 <= i < r@.len() && (#[trigger] r@[i]).0@ == k,
        forall|i: int, j: int| 0 <= i < j < r@.len() ==> bytes_lt(
            (#[trigger] r@[i]).0@,
            (#[trigger] r@[j]).0@,
        ),
{
    let mut out: Vec<(Vec<u8>, Vec<u8>)> = Vec::new();
    for e in m.iter() {
        out.push((e.key().clone(), e.value().clone()));
    }
    out
}

} // verus!
