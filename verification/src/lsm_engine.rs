//! Engine-level types: write-batch records, the mutable state (the
//! current memtable), and the engine facade.

use vstd::prelude::*;

verus! {

use crate::memtable::{Memtable, spec_apply_batch};
use crate::manifest::{ManifestRecord, ManifestRecordView, recover_records, spec_manifest_recover};
use crate::wal::{WalEntryView, spec_wal_replay, spec_wal_payload, spec_wal_entry_encode};
use crate::lsm_engine_inner::{LsmEngineInner, spec_batch_views, spec_read_result,
    spec_opt_bytes};
use crate::txn::Transaction;
use crate::errors::Error;
use crate::key::Key;

/// One record of a write batch; a delete is a put of the empty value.
#[derive(Debug)]
pub enum WriteBatchRecord {
    Put(Vec<u8>, Vec<u8>),
    Del(Vec<u8>),
}

impl WriteBatchRecord {
    /// The WAL-entry shape of this record, before a version is assigned.
    pub open spec fn entry_view(&self) -> (Seq<u8>, Seq<u8>) {
        match self {
            WriteBatchRecord::Put(k, v) => (k@, v@),
            WriteBatchRecord::Del(k) => (k@, Seq::empty()),
        }
    }

    /// Format limits: keys are nonempty and key and value fit their
    /// `u16` length fields; a put never stores the empty value, which is
    /// the tombstone.
    pub open spec fn wf(&self) -> bool {
        match self {
            WriteBatchRecord::Put(k, v) => 0 < k@.len() <= u16::MAX && 0 < v@.len() <= u16::MAX,
            WriteBatchRecord::Del(k) => 0 < k@.len() <= u16::MAX,
        }
    }
}

/// The engine's mutable state: the current memtable.
pub struct LsmEngineState {
    pub memtable: Memtable,
}

impl LsmEngineState {
    pub fn create(memtable_id: u64) -> (r: LsmEngineState)
        ensures
            forall|k: (Seq<u8>, u64)| !(#[trigger] r.memtable.spec_contents().dom().contains(k)),
            r.memtable.spec_id() == memtable_id,
            r.memtable.spec_size() == 0,
    {
        LsmEngineState { memtable: Memtable::new(memtable_id) }
    }
}


/// Engine configuration.
pub struct LsmOptions {
    pub block_size: usize,
    pub memtable_size_limit: usize,
    pub serializable: bool,
    pub sync_on_commit: bool,
}

impl Default for LsmOptions {
    fn default() -> (r: LsmOptions)
        ensures
            r.block_size == 4096,
            r.memtable_size_limit == 4194304,
            r.serializable,
            r.sync_on_commit,
    {
        LsmOptions {
            block_size: 4096,
            memtable_size_limit: 4194304,
            serializable: true,
            sync_on_commit: true,
        }
    }
}

/// The memtable id named by the last NewMemtable record, or zero.
pub open spec fn spec_latest_memtable_id(records: Seq<ManifestRecordView>) -> u64
    decreases records.len(),
{
    if records.len() == 0 {
        0
    } else {
        match records.last() {
            ManifestRecordView::NewMemtable(id) => id,
            _ => spec_latest_memtable_id(records.drop_last()),
        }
    }
}

/// The contents after replaying the batches, oldest first, onto `m`.
pub open spec fn spec_replayed_from(
    m: Map<(Seq<u8>, u64), Seq<u8>>,
    batches: Seq<Seq<WalEntryView>>,
) -> Map<(Seq<u8>, u64), Seq<u8>>
    decreases batches.len(),
{
    if batches.len() == 0 {
        m
    } else {
        spec_replayed_from(spec_apply_batch(m, batches[0]), batches.drop_first())
    }
}

/// The largest version among all replayed entries, or zero.
pub open spec fn spec_batches_max_version(batches: Seq<Seq<WalEntryView>>) -> u64
    decreases batches.len(),
{
    if batches.len() == 0 {
        0
    } else {
        let m = spec_batches_max_version(batches.drop_last());
        let b = crate::table_builder::spec_max_version(batches.last());
        if b > m {
            b
        } else {
            m
        }
    }
}

/// The engine facade: the verified core plus its configuration. The
/// unverified shell owns the files and hands their bytes in and out.
pub struct LsmEngine {
    pub inner: LsmEngineInner,
    pub options: LsmOptions,
}

impl LsmEngine {
    /// A fresh engine with one empty memtable.
    pub fn create(memtable_id: u64, options: LsmOptions) -> (r: LsmEngine)
        ensures
            r.inner.inv(),
            r.inner.mvcc.version == 0,
            r.inner.state.memtable.spec_id() == memtable_id,
            forall|k: (Seq<u8>, u64)| !(#[trigger] r.inner.state.memtable.spec_contents(
            ).dom().contains(k)),
            r.options == options,
    {
        LsmEngine { inner: LsmEngineInner::new(memtable_id, 0), options }
    }

    /// Rebuilds the engine from the manifest and WAL bytes read off disk:
    /// the manifest names the current memtable, the WAL's complete
    /// records are replayed into it, and the version counter resumes at
    /// the largest replayed version. Returns whether the manifest's tail
    /// was truncated at a corrupt record.
    pub fn recover(manifest_bytes: &[u8], wal_bytes: &[u8], options: LsmOptions) -> (r: Result<
        (LsmEngine, bool), Error>)
        ensures
            ({
                let (records, mend, mcorrupt) = spec_manifest_recover(manifest_bytes@, 0);
                match spec_wal_replay(wal_bytes@, 0) {
                    None => r matches Err(e) && e is Corruption,
                    Some((batches, wend)) => r matches Ok((eng, man_corrupt)) && {
                        &&& eng.inner.inv()
                        &&& man_corrupt == mcorrupt
                        &&& eng.inner.state.memtable.spec_id() == spec_latest_memtable_id(
                            records,
                        )
                        &&& eng.inner.mvcc.version == spec_batches_max_version(batches)
                        &&& eng.inner.state.memtable.spec_contents() == spec_replayed_from(
                            Map::empty(),
                            batches,
                        )
                        &&& eng.options == options
                    },
                }
            }),
    {
        let (records, _consumed, mcorrupt) = recover_records(manifest_bytes);
        let ghost rviews = records@.map_values(|m: ManifestRecord| m@);
        let mut id: u64 = 0;
        let n = records.len();
        let mut i: usize = 0;
        proof {
            assert(rviews.take(0) =~= Seq::<ManifestRecordView>::empty());
        }
        while i < n
            invariant
                i <= n,
                n == records@.len(),
                rviews == records@.map_values(|m: ManifestRecord| m@),
                id == spec_latest_memtable_id(rviews.take(i as int)),
            decreases n - i,
        {
            match &records[i] {
                ManifestRecord::NewMemtable(mid) => {
                    id = *mid;
                },
                _ => {},
            }
            proof {
                assert(rviews.take(i + 1).drop_last() =~= rviews.take(i as int));
                assert(rviews.take(i + 1).last() == rviews[i as int]);
                assert(rviews[i as int] == records@[i as int]@);
            }
            i = i + 1;
        }
        proof {
            assert(rviews.take(n as int) =~= rviews);
        }
        let (batches, _wal_consumed) = match crate::wal::replay(wal_bytes) {
            Ok(t) => t,
            Err(e) => {
                return Err(e);
            },
        };
        let ghost bviews = batches@.map_values(|b: Vec<(Key, Vec<u8>)>|
            crate::wal::spec_entries_view(b@));
        let mut engine = LsmEngineInner::new(id, 0);
        let m = batches.len();
        let mut j: usize = 0;
        let mut maxv: u64 = 0;
        proof {
            assert(engine.state.memtable.spec_contents() =~= Map::<(Seq<u8>, u64), Seq<
                u8,
            >>::empty());
            assert(bviews.take(0) =~= Seq::<Seq<WalEntryView>>::empty());
            assert(spec_replayed_from(Map::empty(), bviews.skip(0)) == spec_replayed_from(
                engine.state.memtable.spec_contents(),
                bviews,
            )) by {
                assert(bviews.skip(0) =~= bviews);
            }
        }
        while j < m
            invariant
                j <= m,
                m == batches@.len(),
                bviews == batches@.map_values(|b: Vec<(Key, Vec<u8>)>|
                    crate::wal::spec_entries_view(b@)),
                bviews.len() == m,
                engine.inv(),
                engine.mvcc.version == 0,
                engine.mvcc.committed_txns@.len() == 0,
                engine.mvcc.watermark_tracker.spec_len() == 0,
                engine.state.memtable.spec_id() == id,
                engine.wal_log@ == Seq::<u8>::empty(),
                engine.batches@ == Seq::<Seq<WalEntryView>>::empty(),
                spec_replayed_from(Map::empty(), bviews) == spec_replayed_from(
                    engine.state.memtable.spec_contents(),
                    bviews.skip(j as int),
                ),
                maxv == spec_batches_max_version(bviews.take(j as int)),
            decreases m - j,
        {
            let batch = &batches[j];
            let ghost contents_before = engine.state.memtable.spec_contents();
            proof {
                assert(bviews[j as int] == crate::wal::spec_entries_view(batch@));
                assert(bviews.skip(j as int)[0] == bviews[j as int]);
                assert(bviews.skip(j as int).drop_first() =~= bviews.skip(j + 1));
            }
            let res = engine.state.memtable.write_batch(batch);
            let k = batch.len();
            let mut p: usize = 0;
            let ghost bv = bviews[j as int];
            proof {
                assert(bv.take(0) =~= Seq::<WalEntryView>::empty());
            }
            let mut bmax: u64 = 0;
            while p < k
                invariant
                    p <= k,
                    k == batch@.len(),
                    bv == crate::wal::spec_entries_view(batch@),
                    bv.len() == k,
                    bmax == crate::table_builder::spec_max_version(bv.take(p as int)),
                decreases k - p,
            {
                let ver = batch[p].0.version();
                if ver > bmax {
                    bmax = ver;
                }
                proof {
                    assert(bv.take(p + 1).drop_last() =~= bv.take(p as int));
                    assert(bv.take(p + 1).last() == bv[p as int]);
                    assert(bv[p as int] == ((batch@[p as int].0.user_key@,
                        batch@[p as int].0.version), batch@[p as int].1@));
                }
                p = p + 1;
            }
            if bmax > maxv {
                maxv = bmax;
            }
            proof {
                assert(bv.take(k as int) =~= bv);
                assert(bviews.take(j + 1).drop_last() =~= bviews.take(j as int));
                assert(bviews.take(j + 1).last() == bviews[j as int]);
            }
            j = j + 1;
        }
        proof {
            assert(bviews.take(m as int) =~= bviews);
            assert(bviews.skip(m as int) =~= Seq::<Seq<WalEntryView>>::empty());
        }
        engine.mvcc.version = maxv;
        let eng = LsmEngine { inner: engine, options };
        proof {
            let (batches_spec, wend) = spec_wal_replay(wal_bytes@, 0)->Some_0;
            assert(bviews =~= batches_spec);
            assert forall|v: u64| #[trigger] eng.inner.mvcc.watermark_tracker.present(v)
                implies v <= eng.inner.mvcc.version by {
                eng.inner.mvcc.watermark_tracker.lemma_count_le_len(v);
            }
        }
        Ok((eng, mcorrupt))
    }

    /// Reads the newest value for `key` at the latest committed version.
    pub fn get(&self, key: &[u8]) -> (r: Result<Option<Vec<u8>>, Error>)
        ensures
            r is Ok,
            r matches Ok(res) ==> spec_read_result(
                self.inner.state.memtable.spec_contents(),
                key@,
                self.inner.mvcc.version,
                spec_opt_bytes(res),
            ),
    {
        self.inner.get_with_version(key, self.inner.mvcc.version)
    }

    /// Writes one key under the next version: an implicit single-record
    /// batch.
    pub fn put(&mut self, key: &[u8], value: &[u8]) -> (r: Result<u64, Error>)
        requires
            old(self).inner.inv(),
            0 < key@.len() <= u16::MAX,
            0 < value@.len() <= u16::MAX,
            old(self).inner.mvcc.version < u64::MAX,
        ensures
            final(self).inner.inv(),
            final(self).options == old(self).options,
            r matches Ok(v) && v == old(self).inner.mvcc.version + 1,
            final(self).inner.mvcc.version == old(self).inner.mvcc.version + 1,
            final(self).inner.state.memtable.spec_contents() == old(
                self,
            ).inner.state.memtable.spec_contents().insert(
                (key@, (old(self).inner.mvcc.version + 1) as u64),
                value@,
            ),
    {
        let batch: Vec<WriteBatchRecord> = vec![
            WriteBatchRecord::Put(vstd::slice::slice_to_vec(key), vstd::slice::slice_to_vec(
                value,
            )),
        ];
        let ghost v = (old(self).inner.mvcc.version + 1) as u64;
        proof {
            lemma_single_record_payload(batch@, v);
        }
        let r = self.inner.write_batch(&batch);
        proof {
            let views = spec_batch_views(batch@, v);
            assert(views.len() == 1);
            assert(views[0] == ((key@, v), value@));
            assert(views.drop_first() =~= Seq::<WalEntryView>::empty());
            let inserted = old(self).inner.state.memtable.spec_contents().insert(
                (key@, v),
                value@,
            );
            assert(spec_apply_batch(inserted, Seq::<WalEntryView>::empty()) == inserted);
            assert(self.inner.state.memtable.spec_contents() == spec_apply_batch(
                old(self).inner.state.memtable.spec_contents(),
                views,
            ));
        }
        r
    }

    /// Deletes one key under the next version: a put of the tombstone.
    pub fn delete(&mut self, key: &[u8]) -> (r: Result<u64, Error>)
        requires
            old(self).inner.inv(),
            0 < key@.len() <= u16::MAX,
            old(self).inner.mvcc.version < u64::MAX,
        ensures
            final(self).inner.inv(),
            final(self).options == old(self).options,
            r matches Ok(v) && v == old(self).inner.mvcc.version + 1,
            final(self).inner.mvcc.version == old(self).inner.mvcc.version + 1,
            final(self).inner.state.memtable.spec_contents() == old(
                self,
            ).inner.state.memtable.spec_contents().insert(
                (key@, (old(self).inner.mvcc.version + 1) as u64),
                Seq::empty(),
            ),
    {
        let batch: Vec<WriteBatchRecord> = vec![
            WriteBatchRecord::Del(vstd::slice::slice_to_vec(key)),
        ];
        let ghost v = (old(self).inner.mvcc.version + 1) as u64;
        proof {
            lemma_single_record_payload(batch@, v);
        }
        let r = self.inner.write_batch(&batch);
        proof {
            let views = spec_batch_views(batch@, v);
            assert(views.len() == 1);
            assert(views[0] == ((key@, v), Seq::<u8>::empty()));
            assert(views.drop_first() =~= Seq::<WalEntryView>::empty());
            let inserted = old(self).inner.state.memtable.spec_contents().insert(
                (key@, v),
                Seq::<u8>::empty(),
            );
            assert(spec_apply_batch(inserted, Seq::<WalEntryView>::empty()) == inserted);
            assert(self.inner.state.memtable.spec_contents() == spec_apply_batch(
                old(self).inner.state.memtable.spec_contents(),
                views,
            ));
        }
        r
    }

    /// Whether the current memtable has outgrown its configured limit
    /// and should be frozen.
    pub fn should_roll(&self) -> (r: bool)
        ensures
            r <==> self.inner.state.memtable.spec_size() > self.options.memtable_size_limit,
    {
        self.inner.state.memtable.size() > self.options.memtable_size_limit
    }

    /// Freezes the current memtable and installs a fresh one under the
    /// next id. Hands back the frozen memtable, for the shell to flush
    /// into an SST, and the manifest record that must be appended.
    pub fn roll_memtable(&mut self, next_id: u64) -> (r: (Memtable, ManifestRecord))
        requires
            old(self).inner.inv(),
        ensures
            final(self).inner.inv(),
            final(self).options == old(self).options,
            r.0 == old(self).inner.state.memtable,
            r.1 == ManifestRecord::NewMemtable(next_id),
            final(self).inner.state.memtable.spec_id() == next_id,
            final(self).inner.state.memtable.spec_size() == 0,
            forall|k: (Seq<u8>, u64)| !(#[trigger] final(self).inner.state.memtable.spec_contents(
            ).dom().contains(k)),
            final(self).inner.mvcc == old(self).inner.mvcc,
            final(self).inner.wal_log == old(self).inner.wal_log,
            final(self).inner.batches == old(self).inner.batches,
    {
        let mut fresh = Memtable::new(next_id);
        core::mem::swap(&mut self.inner.state.memtable, &mut fresh);
        (fresh, ManifestRecord::NewMemtable(next_id))
    }

    /// Opens a transaction in the mode the options name.
    pub fn new_txn(&mut self) -> (t: Transaction)
        requires
            old(self).inner.inv(),
        ensures
            final(self).inner.inv(),
            final(self).options == old(self).options,
            t.read_version == old(self).inner.mvcc.version,
            !t.committed,
            t.serializable == old(self).options.serializable,
            t.wf(),
            final(self).inner.mvcc.watermark_tracker.spec_count(t.read_version) == old(
                self,
            ).inner.mvcc.watermark_tracker.spec_count(t.read_version) + 1,
            final(self).inner.mvcc.version == old(self).inner.mvcc.version,
            final(self).inner.mvcc.spec_watermark() >= old(self).inner.mvcc.spec_watermark(),
    {
        let serializable = self.options.serializable;
        self.inner.new_txn(serializable)
    }
}

/// A one-record batch always fits one WAL record.
proof fn lemma_single_record_payload(batch: Seq<WriteBatchRecord>, v: u64)
    requires
        batch.len() == 1,
        batch[0].wf(),
    ensures
        spec_wal_payload(spec_batch_views(batch, v)).len() <= u32::MAX,
{
    crate::codec::lemma_int_codecs_round_trip();
    let views = spec_batch_views(batch, v);
    assert(views.len() == 1);
    assert(views.drop_first() =~= Seq::<WalEntryView>::empty());
    assert(spec_wal_payload(views.drop_first()) =~= Seq::<u8>::empty());
    assert(spec_wal_payload(views) == spec_wal_entry_encode(views[0]) + spec_wal_payload(
        views.drop_first(),
    ));
}

} // verus!
