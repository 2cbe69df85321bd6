//! The in-memory ordered table on the write path: a concurrent ordered
//! map from versioned key to value, plus an approximate byte-size
//! counter.

use vstd::prelude::*;

verus! {

use crossbeam_skiplist::SkipMap;
use crate::key::{Key, lemma_bytes_cmp_eq, lemma_bytes_cmp_flip};
use crate::skipmap::{
    table_contents, table_new, table_insert, table_get, table_lower_bound, enc_key_le,
};
use crate::wal::{WalEntryView, spec_entries_view};
use crate::errors::Error;
use core::cmp::Ordering;

pub struct Memtable {
    map: SkipMap<(Vec<u8>, u64), Vec<u8>>,
    id: u64,
    approximate_size: usize,
}

/// Inserting a batch of entries, first to last.
pub open spec fn spec_apply_batch(m: Map<(Seq<u8>, u64), Seq<u8>>, entries: Seq<WalEntryView>)
    -> Map<(Seq<u8>, u64), Seq<u8>>
    decreases entries.len(),
{
    if entries.len() == 0 {
        m
    } else {
        spec_apply_batch(m.insert(entries[0].0, entries[0].1), entries.drop_first())
    }
}

/// The approximate size counter after a batch: each entry adds its key
/// length, eight bytes of version, and its value length, saturating.
pub open spec fn spec_size_after(s: int, entries: Seq<WalEntryView>) -> int
    decreases entries.len(),
{
    if entries.len() == 0 {
        s
    } else {
        let s2 = s + entries[0].0.0.len() + 8 + entries[0].1.len();
        spec_size_after(if s2 > usize::MAX { usize::MAX as int } else { s2 },
            entries.drop_first())
    }
}

/// `res` is the newest entry for `k` visible at `ver`: its version is
/// the largest one at or below `ver`, or there is none at all.
pub open spec fn spec_newest_visible(
    m: Map<(Seq<u8>, u64), Seq<u8>>,
    k: Seq<u8>,
    ver: u64,
    res: Option<(u64, Seq<u8>)>,
) -> bool {
    match res {
        Some((v, val)) => {
            &&& v <= ver
            &&& m.contains_pair((k, v), val)
            &&& forall|v2: u64| v < v2 <= ver ==> !m.dom().contains((k, v2))
        },
        None => forall|v2: u64| v2 <= ver ==> !m.dom().contains((k, v2)),
    }
}

/// Processing entry `i` of a batch is one step of the size recursion.
proof fn lemma_size_after_step(s: int, entries: Seq<WalEntryView>, i: int)
    requires
        0 <= i < entries.len(),
    ensures
        spec_size_after(s, entries.skip(i)) == spec_size_after(
            spec_size_after(s, seq![entries[i]]),
            entries.skip(i + 1),
        ),
{
    assert(entries.skip(i)[0] == entries[i]);
    assert(entries.skip(i).drop_first() =~= entries.skip(i + 1));
    assert(seq![entries[i]].drop_first() =~= Seq::<WalEntryView>::empty());
    assert(seq![entries[i]][0] == entries[i]);
    let e = entries[i];
    let s2 = s + e.0.0.len() + 8 + e.1.len();
    let sx = if s2 > usize::MAX { usize::MAX as int } else { s2 };
    assert(spec_size_after(sx, Seq::<WalEntryView>::empty()) == sx);
    assert(spec_size_after(s, seq![e]) == sx);
    assert(entries.skip(i).len() == entries.len() - i);
}

/// Inserting entry `i` of a batch is one step of the contents recursion.
proof fn lemma_apply_batch_step(m: Map<(Seq<u8>, u64), Seq<u8>>, entries: Seq<WalEntryView>,
    i: int)
    requires
        0 <= i < entries.len(),
    ensures
        spec_apply_batch(m, entries.skip(i)) == spec_apply_batch(
            m.insert(entries[i].0, entries[i].1),
            entries.skip(i + 1),
        ),
{
    assert(entries.skip(i)[0] == entries[i]);
    assert(entries.skip(i).drop_first() =~= entries.skip(i + 1));
}

fn sat_add(a: usize, b: usize) -> (r: usize)
    ensures
        r == if a + b > usize::MAX { usize::MAX as int } else { a + b },
{
    if a > usize::MAX - b {
        usize::MAX
    } else {
        a + b
    }
}

impl Memtable {
    /// The table's contents keyed naturally by (user key, version).
    /// Internally the version is stored inverted so the backing map's
    /// ascending order is the VK order.
    pub closed spec fn spec_contents(&self) -> Map<(Seq<u8>, u64), Seq<u8>> {
        Map::new(
            |k: (Seq<u8>, u64)| table_contents(self.map).dom().contains(
                (k.0, (u64::MAX - k.1) as u64),
            ),
            |k: (Seq<u8>, u64)| table_contents(self.map)[(k.0, (u64::MAX - k.1) as u64)],
        )
    }

    pub closed spec fn spec_size(&self) -> int {
        self.approximate_size as int
    }

    pub closed spec fn spec_id(&self) -> u64 {
        self.id
    }

    pub fn new(id: u64) -> (r: Memtable)
        ensures
            forall|k: (Seq<u8>, u64)| !(#[trigger] r.spec_contents().dom().contains(k)),
            r.spec_size() == 0,
            r.spec_id() == id,
    {
        let r = Memtable { map: table_new(), id, approximate_size: 0 };
        r
    }

    pub fn id(&self) -> (r: u64)
        ensures
            r == self.spec_id(),
    {
        self.id
    }

    pub fn size(&self) -> (r: usize)
        ensures
            r == self.spec_size(),
    {
        self.approximate_size
    }

    /// Inserts one pair and grows the size counter.
    pub fn write(&mut self, key: &Key, value: &[u8]) -> (r: Result<(), Error>)
        ensures
            r is Ok,
            final(self).spec_contents() == old(self).spec_contents().insert(
                (key.user_key@, key.version),
                value@,
            ),
            final(self).spec_size() == spec_size_after(
                old(self).spec_size(),
                seq![((key.user_key@, key.version), value@)],
            ),
            final(self).spec_id() == old(self).spec_id(),
    {
        let ghost e: WalEntryView = ((key.user_key@, key.version), value@);
        let uk = vstd::slice::slice_to_vec(key.user_key.as_slice());
        let klen = uk.len();
        table_insert(&mut self.map, (uk, u64::MAX - key.version), vstd::slice::slice_to_vec(
            value,
        ));
        let add1 = sat_add(klen, 8);
        let add2 = sat_add(add1, value.len());
        self.approximate_size = sat_add(self.approximate_size, add2);
        proof {
            assert(final(self).spec_contents() =~= old(self).spec_contents().insert(
                (key.user_key@, key.version),
                value@,
            ));
            let s0 = old(self).spec_size();
            let s2 = s0 + key.user_key@.len() + 8 + value@.len();
            assert(seq![e].drop_first() =~= Seq::<WalEntryView>::empty());
            assert(seq![e][0] == e);
            let sx = if s2 > usize::MAX { usize::MAX as int } else { s2 };
            assert(spec_size_after(sx, Seq::<WalEntryView>::empty()) == sx);
            assert(spec_size_after(s0, seq![e]) == sx);
        }
        Ok(())
    }

    /// Inserts a batch of pairs in order and grows the size counter by
    /// the batch's total entry size, saturating.
    pub fn write_batch(&mut self, data: &Vec<(Key, Vec<u8>)>) -> (r: Result<(), Error>)
        ensures
            r is Ok,
            final(self).spec_contents() == spec_apply_batch(
                old(self).spec_contents(),
                spec_entries_view(data@),
            ),
            final(self).spec_size() == spec_size_after(
                old(self).spec_size(),
                spec_entries_view(data@),
            ),
            final(self).spec_id() == old(self).spec_id(),
    {
        let ghost evs = spec_entries_view(data@);
        let n = data.len();
        let mut i: usize = 0;
        proof {
            assert(evs.skip(0) =~= evs);
        }
        while i < n
            invariant
                i <= n,
                n == data@.len(),
                evs == spec_entries_view(data@),
                evs.len() == n,
                self.spec_id() == old(self).spec_id(),
                spec_apply_batch(old(self).spec_contents(), evs) == spec_apply_batch(
                    self.spec_contents(),
                    evs.skip(i as int),
                ),
                spec_size_after(old(self).spec_size(), evs) == spec_size_after(
                    self.spec_size(),
                    evs.skip(i as int),
                ),
            decreases n - i,
        {
            let e = &data[i];
            let ghost contents_before = self.spec_contents();
            let ghost size_before = self.spec_size();
            proof {
                assert(evs[i as int] == ((e.0.user_key@, e.0.version), e.1@));
                lemma_size_after_step(size_before, evs, i as int);
                lemma_apply_batch_step(contents_before, evs, i as int);
            }
            let res = self.write(&e.0, e.1.as_slice());
            proof {
                assert(seq![evs[i as int]][0] == evs[i as int]);
                assert(seq![evs[i as int]].drop_first() =~= Seq::<WalEntryView>::empty());
                assert(self.spec_contents() == contents_before.insert(
                    evs[i as int].0,
                    evs[i as int].1,
                ));
            }
            i = i + 1;
        }
        proof {
            assert(evs.skip(n as int) =~= Seq::<WalEntryView>::empty());
        }
        Ok(())
    }

    /// Exact-match lookup of one versioned key.
    pub fn read(&self, key: &Key) -> (r: Option<Vec<u8>>)
        ensures
            match r {
                Some(v) => self.spec_contents().contains_pair((key.user_key@, key.version), v@),
                None => !self.spec_contents().dom().contains((key.user_key@, key.version)),
            },
    {
        let uk = vstd::slice::slice_to_vec(key.user_key.as_slice());
        let r = table_get(&self.map, &(uk, u64::MAX - key.version));
        proof {
            assert((u64::MAX - (u64::MAX - key.version)) as u64 == key.version);
        }
        r
    }

    /// The newest entry for `user_key` whose version is at or below
    /// `version`: the single probe that the VK order makes possible.
    pub fn latest_at(&self, user_key: &[u8], version: u64) -> (r: Option<(u64, Vec<u8>)>)
        ensures
            match r {
                Some((v, val)) => spec_newest_visible(
                    self.spec_contents(),
                    user_key@,
                    version,
                    Some((v, val@)),
                ),
                None => spec_newest_visible(self.spec_contents(), user_key@, version, None),
            },
    {
        let uk = vstd::slice::slice_to_vec(user_key);
        let inv_ver = u64::MAX - version;
        let found = table_lower_bound(&self.map, &(uk, inv_ver));
        match found {
            None => {
                proof {
                    assert forall|v2: u64| v2 <= version implies !self.spec_contents(
                    ).dom().contains((user_key@, v2)) by {
                        if table_contents(self.map).dom().contains(
                            (user_key@, (u64::MAX - v2) as u64),
                        ) {
                            assert(enc_key_le(
                                (user_key@, inv_ver),
                                (user_key@, (u64::MAX - v2) as u64),
                            ));
                        }
                    }
                }
                None
            },
            Some((k, val)) => {
                let matches_key = matches!(
                    crate::key::bytes_compare(k.0.as_slice(), user_key),
                    Ordering::Equal
                );
                proof {
                    lemma_bytes_cmp_eq(k.0@, user_key@);
                }
                if matches_key {
                    let v = u64::MAX - k.1;
                    proof {
                        assert((u64::MAX - v) as u64 == k.1);
                        assert(self.spec_contents().contains_pair((user_key@, v), val@));
                        assert forall|v2: u64| v < v2 <= version implies !self.spec_contents(
                        ).dom().contains((user_key@, v2)) by {
                            if table_contents(self.map).dom().contains(
                                (user_key@, (u64::MAX - v2) as u64),
                            ) {
                                assert(enc_key_le(
                                    (user_key@, inv_ver),
                                    (user_key@, (u64::MAX - v2) as u64),
                                ));
                                assert(enc_key_le(
                                    (k.0@, k.1),
                                    (user_key@, (u64::MAX - v2) as u64),
                                ));
                                lemma_bytes_cmp_eq(k.0@, user_key@);
                                lemma_bytes_cmp_flip(k.0@, user_key@);
                                assert(k.1 <= u64::MAX - v2);
                            }
                        }
                    }
                    Some((v, val))
                } else {
                    proof {
                        assert forall|v2: u64| v2 <= version implies !self.spec_contents(
                        ).dom().contains((user_key@, v2)) by {
                            if table_contents(self.map).dom().contains(
                                (user_key@, (u64::MAX - v2) as u64),
                            ) {
                                assert(enc_key_le(
                                    (user_key@, inv_ver),
                                    (user_key@, (u64::MAX - v2) as u64),
                                ));
                                assert(enc_key_le(
                                    (k.0@, k.1),
                                    (user_key@, (u64::MAX - v2) as u64),
                                ));
                                lemma_bytes_cmp_eq(k.0@, user_key@);
                                lemma_bytes_cmp_flip(k.0@, user_key@);
                                lemma_bytes_cmp_flip(user_key@, k.0@);
                            }
                        }
                    }
                    None
                }
            },
        }
    }
}

} // verus!
