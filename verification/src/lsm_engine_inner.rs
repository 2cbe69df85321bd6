//! The engine core: version assignment, WAL framing, memtable insertion,
//! and transaction lifecycle tracking.
//!
//! The core appends every WAL record it produces to an in-memory log
//! buffer; the unverified shell persists that buffer. All decisions and
//! all bytes are computed here.

use vstd::prelude::*;

verus! {

use crate::key::Key;
use crate::memtable::{Memtable, spec_apply_batch, spec_newest_visible};
use crate::mvcc::MvccInner;
use crate::wal;
use crate::wal::{WalEntryView, spec_wal_batch_wf, spec_wal_batches_wf, spec_wal_log,
    spec_wal_record_encode, spec_wal_payload, spec_entries_view};
use crate::errors::Error;
use crate::lsm_engine::{WriteBatchRecord, LsmEngineState};
use crate::txn::Transaction;

/// The entries a batch turns into once the commit version is assigned.
pub open spec fn spec_batch_views(batch: Seq<WriteBatchRecord>, ver: u64) -> Seq<WalEntryView> {
    batch.map_values(|r: WriteBatchRecord| ((r.entry_view().0, ver), r.entry_view().1))
}

/// `res` is what a read of `k` at `ver` must return over contents `m`:
/// the value of the newest version at or below `ver`, absent when there
/// is none or when it is a tombstone.
pub open spec fn spec_read_result(
    m: Map<(Seq<u8>, u64), Seq<u8>>,
    k: Seq<u8>,
    ver: u64,
    res: Option<Seq<u8>>,
) -> bool {
    match res {
        Some(val) => val.len() > 0 && exists|v: u64| #[trigger] spec_newest_visible(
            m,
            k,
            ver,
            Some((v, val)),
        ),
        None => spec_newest_visible(m, k, ver, None) || exists|v: u64| #[trigger]
            spec_newest_visible(m, k, ver, Some((v, Seq::empty()))),
    }
}

pub open spec fn spec_opt_bytes(o: Option<Vec<u8>>) -> Option<Seq<u8>> {
    match o {
        Some(v) => Some(v@),
        None => None,
    }
}

pub struct LsmEngineInner {
    pub state: LsmEngineState,
    pub mvcc: MvccInner,
    /// Every WAL record produced this session, in commit order; the
    /// shell persists and fsyncs this buffer.
    pub wal_log: Vec<u8>,
    /// The batches those records frame.
    pub batches: Ghost<Seq<Seq<WalEntryView>>>,
}

impl LsmEngineInner {
    pub open spec fn inv(&self) -> bool {
        &&& self.mvcc.wf()
        &&& spec_wal_batches_wf(self.batches@)
        &&& self.wal_log@ == spec_wal_log(self.batches@)
    }

    pub fn new(memtable_id: u64, init_version: u64) -> (r: LsmEngineInner)
        ensures
            r.inv(),
            r.mvcc.version == init_version,
            r.mvcc.committed_txns@.len() == 0,
            r.mvcc.watermark_tracker.spec_len() == 0,
            forall|k: (Seq<u8>, u64)| !(#[trigger] r.state.memtable.spec_contents(
            ).dom().contains(k)),
            r.state.memtable.spec_id() == memtable_id,
            r.wal_log@ == Seq::<u8>::empty(),
            r.batches@ == Seq::<Seq<WalEntryView>>::empty(),
    {
        let r = LsmEngineInner {
            state: LsmEngineState { memtable: Memtable::new(memtable_id) },
            mvcc: MvccInner::new(init_version),
            wal_log: Vec::new(),
            batches: Ghost(Seq::empty()),
        };
        proof {
            assert(spec_wal_log(r.batches@) =~= Seq::<u8>::empty());
        }
        r
    }

    pub fn mvcc(&self) -> (r: &MvccInner)
        ensures
            r == &self.mvcc,
    {
        &self.mvcc
    }

    /// The newest value for `key` visible at `version`, absent when none
    /// exists or the newest visible entry is a tombstone.
    pub fn get_with_version(&self, key: &[u8], version: u64) -> (r: Result<Option<Vec<u8>>,
        Error>)
        ensures
            r is Ok,
            r matches Ok(res) ==> spec_read_result(
                self.state.memtable.spec_contents(),
                key@,
                version,
                spec_opt_bytes(res),
            ),
    {
        match self.state.memtable.latest_at(key, version) {
            None => Ok(None),
            Some((v, val)) => {
                if val.is_empty() {
                    proof {
                        assert(val@ =~= Seq::<u8>::empty());
                        assert(spec_newest_visible(
                            self.state.memtable.spec_contents(),
                            key@,
                            version,
                            Some((v, Seq::empty())),
                        ));
                    }
                    Ok(None)
                } else {
                    Ok(Some(val))
                }
            },
        }
    }

    /// Assigns the next version, frames one WAL record for the batch,
    /// and inserts every record into the memtable under that version.
    pub fn write_batch(&mut self, batch: &Vec<WriteBatchRecord>) -> (r: Result<u64, Error>)
        requires
            old(self).inv(),
            old(self).mvcc.version < u64::MAX,
            forall|i: int| 0 <= i < batch@.len() ==> (#[trigger] batch@[i]).wf(),
            spec_wal_payload(spec_batch_views(batch@, (old(self).mvcc.version + 1) as u64)).len()
                <= u32::MAX,
        ensures
            final(self).inv(),
            r matches Ok(v) && v == old(self).mvcc.version + 1,
            final(self).mvcc.version == old(self).mvcc.version + 1,
            final(self).mvcc.watermark_tracker == old(self).mvcc.watermark_tracker,
            final(self).mvcc.committed_txns == old(self).mvcc.committed_txns,
            final(self).state.memtable.spec_id() == old(self).state.memtable.spec_id(),
            final(self).state.memtable.spec_contents() == spec_apply_batch(
                old(self).state.memtable.spec_contents(),
                spec_batch_views(batch@, (old(self).mvcc.version + 1) as u64),
            ),
            final(self).batches@ == old(self).batches@.push(
                spec_batch_views(batch@, (old(self).mvcc.version + 1) as u64),
            ),
            final(self).wal_log@ == old(self).wal_log@ + spec_wal_record_encode(
                spec_batch_views(batch@, (old(self).mvcc.version + 1) as u64),
            ),
            final(self).mvcc.spec_watermark() >= old(self).mvcc.spec_watermark(),
    {
        let v = self.mvcc.version + 1;
        let ghost views = spec_batch_views(batch@, v);
        let mut entries: Vec<(Key, Vec<u8>)> = Vec::new();
        let n = batch.len();
        let mut i: usize = 0;
        proof {
            assert(spec_entries_view(entries@) =~= views.take(0));
        }
        while i < n
            invariant
                i <= n,
                n == batch@.len(),
                views == spec_batch_views(batch@, v),
                views.len() == n,
                forall|j: int| 0 <= j < batch@.len() ==> (#[trigger] batch@[j]).wf(),
                spec_entries_view(entries@) == views.take(i as int),
                entries@.len() == i,
            decreases n - i,
        {
            let rec = &batch[i];
            let ghost before = entries@;
            match rec {
                WriteBatchRecord::Put(k, val) => {
                    let key = Key::new(vstd::slice::slice_to_vec(k.as_slice()), v);
                    entries.push((key, vstd::slice::slice_to_vec(val.as_slice())));
                },
                WriteBatchRecord::Del(k) => {
                    let key = Key::new(vstd::slice::slice_to_vec(k.as_slice()), v);
                    entries.push((key, Vec::new()));
                },
            }
            proof {
                assert(spec_entries_view(entries@) =~= spec_entries_view(before).push(
                    views[i as int],
                ));
                assert(views.take(i + 1) =~= views.take(i as int).push(views[i as int]));
            }
            i = i + 1;
        }
        proof {
            assert(views.take(n as int) =~= views);
            assert forall|j: int| 0 <= j < views.len() implies crate::wal::spec_wal_entry_wf(
                #[trigger] views[j],
            ) by {
                assert(batch@[j].wf());
            }
        }
        let record = wal::encode_batch(&entries);
        crate::codec::put_bytes(&mut self.wal_log, record.as_slice());
        let res = self.state.memtable.write_batch(&entries);
        self.mvcc.version = v;
        self.batches = Ghost(self.batches@.push(views));
        proof {
            crate::wal::lemma_wal_log_push(old(self).batches@, views);
            assert forall|j: int| 0 <= j < self.batches@.len() implies spec_wal_batch_wf(
                #[trigger] self.batches@[j],
            ) by {
                if j < old(self).batches@.len() {
                    assert(spec_wal_batch_wf(old(self).batches@[j]));
                }
            }
            if self.mvcc.watermark_tracker.spec_len() > 0 {
                self.mvcc.watermark_tracker.lemma_min_exists();
                old(self).mvcc.watermark_tracker.lemma_min_exists();
            }
        }
        Ok(v)
    }

    /// Opens a transaction reading at the current version and tracks its
    /// read-version in the watermark.
    pub fn new_txn(&mut self, serializable: bool) -> (t: Transaction)
        requires
            old(self).inv(),
        ensures
            final(self).inv(),
            t.read_version == old(self).mvcc.version,
            !t.committed,
            t.serializable == serializable,
            t.wf(),
            forall|k: Seq<u8>| !(#[trigger] t.spec_stage().dom().contains(k)),
            forall|h: u32| !(#[trigger] t.spec_read_set().contains(h)),
            forall|h: u32| !(#[trigger] t.spec_write_set().contains(h)),
            final(self).mvcc.version == old(self).mvcc.version,
            final(self).mvcc.committed_txns == old(self).mvcc.committed_txns,
            final(self).state == old(self).state,
            final(self).wal_log == old(self).wal_log,
            final(self).batches == old(self).batches,
            final(self).mvcc.watermark_tracker.spec_count(t.read_version)
                == old(self).mvcc.watermark_tracker.spec_count(t.read_version) + 1,
            forall|w: u64| w != t.read_version
                ==> #[trigger] final(self).mvcc.watermark_tracker.spec_count(w)
                == old(self).mvcc.watermark_tracker.spec_count(w),
            final(self).mvcc.spec_watermark() >= old(self).mvcc.spec_watermark(),
    {
        let rv = self.mvcc.version;
        proof {
            old(self).mvcc.lemma_watermark_le_version();
        }
        self.mvcc.watermark_tracker.add(rv);
        proof {
            assert forall|v: u64| #[trigger] self.mvcc.watermark_tracker.present(v) implies v
                <= self.mvcc.version by {
                if v != rv {
                    assert(self.mvcc.watermark_tracker.spec_count(v) == old(
                        self,
                    ).mvcc.watermark_tracker.spec_count(v));
                    assert(old(self).mvcc.watermark_tracker.present(v));
                }
            }
            crate::mvcc::lemma_watermark_monotonic(old(self).mvcc, self.mvcc);
        }
        Transaction::begin(rv, serializable)
    }

    /// Releases a transaction that will not commit: its read-version
    /// leaves the watermark. The watermark never goes backwards.
    pub fn drop_txn(&mut self, txn: Transaction)
        requires
            old(self).inv(),
            !txn.committed,
            old(self).mvcc.watermark_tracker.spec_count(txn.read_version) > 0,
        ensures
            final(self).inv(),
            final(self).mvcc.version == old(self).mvcc.version,
            final(self).mvcc.committed_txns == old(self).mvcc.committed_txns,
            final(self).state == old(self).state,
            final(self).wal_log == old(self).wal_log,
            final(self).batches == old(self).batches,
            final(self).mvcc.watermark_tracker.spec_count(txn.read_version)
                == old(self).mvcc.watermark_tracker.spec_count(txn.read_version) - 1,
            forall|w: u64| w != txn.read_version
                ==> #[trigger] final(self).mvcc.watermark_tracker.spec_count(w)
                == old(self).mvcc.watermark_tracker.spec_count(w),
            final(self).mvcc.spec_watermark() >= old(self).mvcc.spec_watermark(),
    {
        self.mvcc.watermark_tracker.remove(txn.read_version);
        proof {
            assert forall|v: u64| #[trigger] self.mvcc.watermark_tracker.present(v) implies v
                <= self.mvcc.version by {
                if v != txn.read_version {
                    assert(self.mvcc.watermark_tracker.spec_count(v) == old(
                        self,
                    ).mvcc.watermark_tracker.spec_count(v));
                }
                assert(old(self).mvcc.watermark_tracker.present(v));
            }
            crate::mvcc::lemma_watermark_monotonic(old(self).mvcc, self.mvcc);
        }
    }
}

} // verus!
