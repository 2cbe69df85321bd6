//! Transactions: a private staging area, read- and write-set tracking,
//! and the commit protocol with its serializability check and
//! watermark-driven garbage collection of committed-transaction records.

use vstd::prelude::*;

verus! {

use crossbeam_skiplist::SkipMap;
use crate::skipmap::{stage_contents, stage_new, stage_insert, stage_get, stage_entries};
use crate::key::{bytes_lt, lemma_bytes_cmp_eq, lemma_bytes_cmp_flip};
use crate::hashes::{farmhash32_of, hash32};
use crate::mvcc::{MvccInner, CommittedTxn};
use crate::lsm_engine::WriteBatchRecord;
use crate::lsm_engine_inner::{LsmEngineInner, spec_batch_views, spec_read_result,
    spec_opt_bytes};
use crate::memtable::spec_apply_batch;
use crate::wal::{WalEntryView, spec_wal_payload, spec_wal_record_encode};
use crate::errors::Error;

/// A transaction: a snapshot read-version, a private staging map (the
/// empty value stages a delete), and, in serializable mode, the hashes
/// of the keys it read and wrote.
pub struct Transaction {
    pub read_version: u64,
    pub storage: SkipMap<Vec<u8>, Vec<u8>>,
    pub committed: bool,
    pub serializable: bool,
    pub read_set: Vec<u32>,
    pub write_set: Vec<u32>,
}

/// `es` lists exactly the staging map's pairs, keys strictly ascending.
pub open spec fn is_stage_seq(m: Map<Seq<u8>, Seq<u8>>, es: Seq<(Seq<u8>, Seq<u8>)>) -> bool {
    &&& forall|i: int| 0 <= i < es.len() ==> m.contains_pair((#[trigger] es[i]).0, es[i].1)
    &&& forall|k: Seq<u8>| #[trigger] m.dom().contains(k) ==> exists|i: int| 0 <= i < es.len()
        && (#[trigger] es[i]).0 == k
    &&& forall|i: int, j: int| 0 <= i < j < es.len() ==> bytes_lt(
        (#[trigger] es[i]).0,
        (#[trigger] es[j]).0,
    )
}

/// Bytes one staged pair occupies in a WAL payload.
pub open spec fn stage_seq_bytes(es: Seq<(Seq<u8>, Seq<u8>)>) -> int
    decreases es.len(),
{
    if es.len() == 0 {
        0
    } else {
        12 + es[0].0.len() + es[0].1.len() + stage_seq_bytes(es.drop_first())
    }
}

/// Appending one pair adds its exact payload size.
pub proof fn lemma_stage_seq_bytes_snoc(es: Seq<(Seq<u8>, Seq<u8>)>, e: (Seq<u8>, Seq<u8>))
    ensures
        stage_seq_bytes(es.push(e)) == stage_seq_bytes(es) + 12 + e.0.len() + e.1.len(),
    decreases es.len(),
{
    if es.len() == 0 {
        assert(es.push(e)[0] == e);
        assert(es.push(e).drop_first() =~= Seq::<(Seq<u8>, Seq<u8>)>::empty());
        assert(stage_seq_bytes(Seq::<(Seq<u8>, Seq<u8>)>::empty()) == 0);
    } else {
        lemma_stage_seq_bytes_snoc(es.drop_first(), e);
        assert(es.push(e)[0] == es[0]);
        assert(es.push(e).drop_first() =~= es.drop_first().push(e));
    }
}

/// Releasing one read-version (and never lowering the version counter)
/// cannot lower the watermark.
pub proof fn lemma_release_read_version(m0: MvccInner, m1: MvccInner, rv: u64)
    requires
        m0.wf(),
        m1.version >= m0.version,
        forall|w: u64| w != rv ==> #[trigger] m1.watermark_tracker.spec_count(w)
            == m0.watermark_tracker.spec_count(w),
        m1.watermark_tracker.spec_count(rv) <= m0.watermark_tracker.spec_count(rv),
    ensures
        m1.spec_watermark() >= m0.spec_watermark(),
{
    assert forall|v: u64| #[trigger] m1.watermark_tracker.present(v) implies
        m0.watermark_tracker.present(v) || v >= m0.spec_watermark() by {
        if v != rv {
            assert(m1.watermark_tracker.spec_count(v) == m0.watermark_tracker.spec_count(v));
        }
        assert(m0.watermark_tracker.present(v));
    }
    crate::mvcc::lemma_watermark_monotonic(m0, m1);
}

pub proof fn lemma_stage_seq_bytes_nonneg(es: Seq<(Seq<u8>, Seq<u8>)>)
    ensures
        stage_seq_bytes(es) >= 0,
    decreases es.len(),
{
    if es.len() > 0 {
        lemma_stage_seq_bytes_nonneg(es.drop_first());
    }
}

/// The staged pairs as WAL entries under one commit version.
pub open spec fn stage_views(es: Seq<(Seq<u8>, Seq<u8>)>, ver: u64) -> Seq<WalEntryView> {
    es.map_values(|e: (Seq<u8>, Seq<u8>)| ((e.0, ver), e.1))
}

/// A WAL payload of staged pairs is as long as their sizes added up,
/// whatever the version.
pub proof fn lemma_stage_bytes_payload(es: Seq<(Seq<u8>, Seq<u8>)>, ver: u64)
    ensures
        spec_wal_payload(stage_views(es, ver)).len() == stage_seq_bytes(es),
    decreases es.len(),
{
    crate::codec::lemma_int_codecs_round_trip();
    if es.len() == 0 {
        assert(stage_views(es, ver).len() == 0);
    } else {
        lemma_stage_bytes_payload(es.drop_first(), ver);
        assert(stage_views(es, ver).drop_first() =~= stage_views(es.drop_first(), ver));
        assert(stage_views(es, ver)[0] == ((es[0].0, ver), es[0].1));
    }
}

/// The one sorted listing of a staging map: any two are equal.
pub proof fn lemma_stage_seq_unique(
    m: Map<Seq<u8>, Seq<u8>>,
    a: Seq<(Seq<u8>, Seq<u8>)>,
    b: Seq<(Seq<u8>, Seq<u8>)>,
)
    requires
        is_stage_seq(m, a),
        is_stage_seq(m, b),
    ensures
        a == b,
    decreases a.len(),
{
    if a.len() == 0 {
        if b.len() > 0 {
            assert(m.dom().contains(b[0].0));
        }
        assert(a =~= b);
    } else {
        let x = a[0].0;
        assert(m.dom().contains(x));
        let i = choose|i: int| 0 <= i < b.len() && b[i].0 == x;
        let y = b[0].0;
        assert(m.dom().contains(y));
        let j = choose|j: int| 0 <= j < a.len() && a[j].0 == y;
        if i > 0 && j > 0 {
            assert(bytes_lt(y, x));
            assert(bytes_lt(x, y));
            lemma_bytes_cmp_flip(x, y);
            assert(false);
        }
        assert(x == y);
        assert(a[0].1 == m[x] && b[0].1 == m[x]);
        let m2 = m.remove(x);
        assert forall|p: int| 0 <= p < a.drop_first().len() implies m2.contains_pair(
            (#[trigger] a.drop_first()[p]).0,
            a.drop_first()[p].1,
        ) by {
            assert(a.drop_first()[p] == a[p + 1]);
            assert(bytes_lt(x, a[p + 1].0));
            lemma_bytes_cmp_eq(x, a[p + 1].0);
        }
        assert forall|k: Seq<u8>| #[trigger] m2.dom().contains(k) implies exists|p: int|
            0 <= p < a.drop_first().len() && (#[trigger] a.drop_first()[p]).0 == k by {
            assert(m.dom().contains(k));
            let q = choose|q: int| 0 <= q < a.len() && a[q].0 == k;
            assert(q != 0);
            assert(a.drop_first()[q - 1].0 == k);
        }
        assert forall|p: int, q: int| 0 <= p < q < a.drop_first().len() implies bytes_lt(
            (#[trigger] a.drop_first()[p]).0,
            (#[trigger] a.drop_first()[q]).0,
        ) by {
            assert(a.drop_first()[p] == a[p + 1]);
            assert(a.drop_first()[q] == a[q + 1]);
        }
        assert forall|p: int| 0 <= p < b.drop_first().len() implies m2.contains_pair(
            (#[trigger] b.drop_first()[p]).0,
            b.drop_first()[p].1,
        ) by {
            assert(b.drop_first()[p] == b[p + 1]);
            assert(bytes_lt(y, b[p + 1].0));
            lemma_bytes_cmp_eq(y, b[p + 1].0);
        }
        assert forall|k: Seq<u8>| #[trigger] m2.dom().contains(k) implies exists|p: int|
            0 <= p < b.drop_first().len() && (#[trigger] b.drop_first()[p]).0 == k by {
            assert(m.dom().contains(k));
            let q = choose|q: int| 0 <= q < b.len() && b[q].0 == k;
            assert(q != 0);
            assert(b.drop_first()[q - 1].0 == k);
        }
        assert forall|p: int, q: int| 0 <= p < q < b.drop_first().len() implies bytes_lt(
            (#[trigger] b.drop_first()[p]).0,
            (#[trigger] b.drop_first()[q]).0,
        ) by {
            assert(b.drop_first()[p] == b[p + 1]);
            assert(b.drop_first()[q] == b[q + 1]);
        }
        lemma_stage_seq_unique(m2, a.drop_first(), b.drop_first());
        assert(a.len() == b.len());
        assert forall|p: int| 0 <= p < a.len() implies a[p] == b[p] by {
            if p == 0 {
                assert(a[0].0 == b[0].0);
                assert(a[0].1 == b[0].1);
            } else {
                assert(a[p] == a.drop_first()[p - 1]);
                assert(b[p] == b.drop_first()[p - 1]);
            }
        }
        assert(a =~= b);
    }
}

/// Whether every sorted listing of the staging map frames into one WAL
/// record (the payload length fits its `u32` header).
pub open spec fn spec_stage_fits(m: Map<Seq<u8>, Seq<u8>>) -> bool {
    forall|es: Seq<(Seq<u8>, Seq<u8>)>| #[trigger] is_stage_seq(m, es) ==> stage_seq_bytes(es)
        <= u32::MAX
}

pub open spec fn sets_intersect(a: Set<u32>, b: Set<u32>) -> bool {
    exists|h: u32| #[trigger] a.contains(h) && #[trigger] b.contains(h)
}

/// The serializability check fires: the transaction tracks its sets,
/// wrote something, and some committed transaction with a commit version
/// above this transaction's read-version wrote a key this transaction
/// read.
pub open spec fn spec_conflict(mvcc: MvccInner, t: Transaction) -> bool {
    &&& t.serializable
    &&& exists|h: u32| #[trigger] t.spec_write_set().contains(h)
    &&& exists|i: int| 0 <= i < mvcc.committed_txns@.len()
        && (#[trigger] mvcc.committed_txns@[i]).commit_version > t.read_version
        && sets_intersect(mvcc.committed_txns@[i].hashes(), t.spec_read_set())
}

/// Two committed-transaction records describe the same commit.
pub open spec fn ct_matches(a: CommittedTxn, b: CommittedTxn) -> bool {
    a.hashes() == b.hashes() && a.read_version == b.read_version && a.commit_version
        == b.commit_version
}

/// Pushing one hash extends the set by exactly that hash.
proof fn lemma_push_to_set(s: Seq<u32>, x: u32)
    ensures
        s.push(x).to_set() == s.to_set().insert(x),
{
    let s1 = s.push(x);
    assert forall|y: u32| s1.to_set().contains(y) implies s.to_set().contains(y) || y == x by {
        let i = choose|i: int| 0 <= i < s1.len() && s1[i] == y;
        if i < s.len() {
            assert(s[i] == y);
        }
    }
    assert forall|y: u32| s.to_set().contains(y) || y == x implies s1.to_set().contains(y) by {
        if s.to_set().contains(y) {
            let i = choose|i: int| 0 <= i < s.len() && s[i] == y;
            assert(s1[i] == y);
        } else {
            assert(s1[s.len() as int] == x);
        }
    }
    assert(s1.to_set() =~= s.to_set().insert(x));
}

/// Law: two serializable transactions that conflict cannot both commit.
/// If one of them committed at a version above the other's snapshot,
/// wrote a key the other read, and its record is still indexed — which
/// `lemma_record_outlives_reader` guarantees while the other is live —
/// then the other's `commit` meets `spec_conflict` and, by `commit`'s
/// contract, returns the serializability-conflict error instead of
/// writing.
pub proof fn lemma_conflicting_commit_refused(mvcc: MvccInner, t: Transaction, i: int)
    requires
        t.serializable,
        exists|h: u32| #[trigger] t.spec_write_set().contains(h),
        0 <= i < mvcc.committed_txns@.len(),
        mvcc.committed_txns@[i].commit_version > t.read_version,
        sets_intersect(mvcc.committed_txns@[i].hashes(), t.spec_read_set()),
    ensures
        spec_conflict(mvcc, t),
{
    assert((#[trigger] mvcc.committed_txns@[i]).commit_version > t.read_version
        && sets_intersect(mvcc.committed_txns@[i].hashes(), t.spec_read_set()));
}

/// Law: a committed-transaction record outlives every live transaction
/// that must still be checked against it: while a transaction with a
/// read-version below the record's commit version is live, the record's
/// commit version stays above the watermark, so garbage collection
/// cannot drop it.
pub proof fn lemma_record_outlives_reader(mvcc: MvccInner, rv: u64, cv: u64)
    requires
        mvcc.wf(),
        mvcc.watermark_tracker.spec_count(rv) > 0,
        cv > rv,
    ensures
        cv > mvcc.spec_watermark(),
{
    mvcc.watermark_tracker.lemma_count_le_len(rv);
    assert(mvcc.watermark_tracker.spec_len() > 0);
    mvcc.watermark_tracker.lemma_min_exists();
    assert(mvcc.watermark_tracker.present(rv));
    assert(mvcc.spec_watermark() == mvcc.watermark_tracker.spec_min());
    assert(mvcc.watermark_tracker.spec_min() <= rv);
}

fn contains_u32(v: &Vec<u32>, x: u32) -> (r: bool)
    ensures
        r <==> v@.to_set().contains(x),
{
    let n = v.len();
    let mut i: usize = 0;
    while i < n
        invariant
            i <= n,
            n == v@.len(),
            forall|j: int| 0 <= j < i ==> v@[j] != x,
        decreases n - i,
    {
        if v[i] == x {
            proof {
                assert(v@.contains(x));
            }
            return true;
        }
        i = i + 1;
    }
    proof {
        if v@.to_set().contains(x) {
            let j = choose|j: int| 0 <= j < v@.len() && v@[j] == x;
            assert(false);
        }
    }
    false
}

fn vecs_intersect(a: &Vec<u32>, b: &Vec<u32>) -> (r: bool)
    ensures
        r <==> sets_intersect(a@.to_set(), b@.to_set()),
{
    let n = a.len();
    let mut i: usize = 0;
    while i < n
        invariant
            i <= n,
            n == a@.len(),
            forall|j: int| 0 <= j < i ==> !b@.to_set().contains(#[trigger] a@[j]),
        decreases n - i,
    {
        if contains_u32(b, a[i]) {
            proof {
                assert(a@.contains(a@[i as int]));
                assert(a@.to_set().contains(a@[i as int]));
            }
            return true;
        }
        i = i + 1;
    }
    proof {
        if sets_intersect(a@.to_set(), b@.to_set()) {
            let h = choose|h: u32| a@.to_set().contains(h) && b@.to_set().contains(h);
            let j = choose|j: int| 0 <= j < a@.len() && a@[j] == h;
            assert(false);
        }
    }
    false
}

impl Transaction {
    /// The private staging map: user key to value, the empty value
    /// staging a delete.
    pub open spec fn spec_stage(&self) -> Map<Seq<u8>, Seq<u8>> {
        stage_contents(self.storage)
    }

    /// Hashes of keys read so far (serializable mode only).
    pub open spec fn spec_read_set(&self) -> Set<u32> {
        self.read_set@.to_set()
    }

    /// Hashes of keys written so far (serializable mode only).
    pub open spec fn spec_write_set(&self) -> Set<u32> {
        self.write_set@.to_set()
    }

    /// Format limits on everything staged.
    pub open spec fn wf(&self) -> bool {
        forall|k: Seq<u8>| #[trigger] self.spec_stage().dom().contains(k) ==> 0 < k.len()
            <= u16::MAX && self.spec_stage()[k].len() <= u16::MAX
    }

    pub(crate) fn begin(read_version: u64, serializable: bool) -> (t: Transaction)
        ensures
            t.read_version == read_version,
            !t.committed,
            t.serializable == serializable,
            t.wf(),
            forall|k: Seq<u8>| !(#[trigger] t.spec_stage().dom().contains(k)),
            forall|h: u32| !(#[trigger] t.spec_read_set().contains(h)),
            forall|h: u32| !(#[trigger] t.spec_write_set().contains(h)),
    {
        let t = Transaction {
            read_version,
            storage: stage_new(),
            committed: false,
            serializable,
            read_set: Vec::new(),
            write_set: Vec::new(),
        };
        t
    }

    /// Reads a key at this transaction's snapshot: the staging area
    /// first, then the engine at the read-version. In serializable mode
    /// the key joins the read-set.
    pub fn read(&mut self, engine: &LsmEngineInner, key: &[u8]) -> (r: Result<Option<Vec<u8>>,
        Error>)
        ensures
            old(self).committed ==> (r matches Err(e) && e is TxnClosed) && *final(self) == *old(self),
            !old(self).committed ==> {
                &&& r is Ok
                &&& final(self).spec_stage() == old(self).spec_stage()
                &&& final(self).committed == old(self).committed
                &&& final(self).read_version == old(self).read_version
                &&& final(self).serializable == old(self).serializable
                &&& final(self).spec_write_set() == old(self).spec_write_set()
                &&& final(self).spec_read_set() == if old(self).serializable {
                    old(self).spec_read_set().insert(farmhash32_of(key@))
                } else {
                    old(self).spec_read_set()
                }
                &&& (r matches Ok(res) ==> {
                    if old(self).spec_stage().dom().contains(key@) {
                        spec_opt_bytes(res) == (if old(self).spec_stage()[key@].len() == 0 {
                            Option::<Seq<u8>>::None
                        } else {
                            Option::<Seq<u8>>::Some(old(self).spec_stage()[key@])
                        })
                    } else {
                        spec_read_result(
                            engine.state.memtable.spec_contents(),
                            key@,
                            old(self).read_version,
                            spec_opt_bytes(res),
                        )
                    }
                })
            },
    {
        if self.committed {
            return Err(Error::TxnClosed);
        }
        if self.serializable {
            let h = hash32(key);
            self.read_set.push(h);
            proof {
                lemma_push_to_set(old(self).read_set@, h);
                assert(self.read_set@ =~= old(self).read_set@.push(h));
            }
        }
        match stage_get(&self.storage, key) {
            Some(v) => {
                if v.is_empty() {
                    proof {
                        assert(v@ =~= Seq::<u8>::empty());
                    }
                    Ok(None)
                } else {
                    Ok(Some(v))
                }
            },
            None => engine.get_with_version(key, self.read_version),
        }
    }

    /// Stages a write; in serializable mode the key joins the write-set.
    pub fn write(&mut self, key: &[u8], value: &[u8]) -> (r: Result<(), Error>)
        requires
            0 < key@.len() <= u16::MAX,
            value@.len() <= u16::MAX,
            old(self).wf(),
        ensures
            old(self).committed ==> (r matches Err(e) && e is TxnClosed) && *final(self) == *old(self),
            !old(self).committed ==> {
                &&& r is Ok
                &&& final(self).wf()
                &&& final(self).spec_stage() == old(self).spec_stage().insert(key@, value@)
                &&& final(self).committed == old(self).committed
                &&& final(self).read_version == old(self).read_version
                &&& final(self).serializable == old(self).serializable
                &&& final(self).spec_read_set() == old(self).spec_read_set()
                &&& final(self).spec_write_set() == if old(self).serializable {
                    old(self).spec_write_set().insert(farmhash32_of(key@))
                } else {
                    old(self).spec_write_set()
                }
            },
    {
        if self.committed {
            return Err(Error::TxnClosed);
        }
        stage_insert(&mut self.storage, vstd::slice::slice_to_vec(key),
            vstd::slice::slice_to_vec(value));
        if self.serializable {
            let h = hash32(key);
            self.write_set.push(h);
            proof {
                lemma_push_to_set(old(self).write_set@, h);
                assert(self.write_set@ =~= old(self).write_set@.push(h));
            }
        }
        proof {
            assert forall|k: Seq<u8>| #[trigger] self.spec_stage().dom().contains(k) implies 0
                < k.len() <= u16::MAX && self.spec_stage()[k].len() <= u16::MAX by {
                if k != key@ {
                    assert(old(self).spec_stage().dom().contains(k));
                }
            }
        }
        Ok(())
    }

    /// Commits the transaction: marks it closed, checks serializability
    /// against every committed transaction newer than its snapshot,
    /// writes the staged batch through the engine under one new version,
    /// records the write-set, and garbage-collects committed-transaction
    /// records whose commit version fell below the watermark. A failed
    /// commit leaves the transaction closed and the engine's data
    /// untouched; the read-version is released either way.
    #[verifier::loop_isolation(false)]
    #[verifier::rlimit(100)]
    pub fn commit(&mut self, engine: &mut LsmEngineInner) -> (r: Result<u64, Error>)
        requires
            old(engine).inv(),
            old(self).wf(),
            old(engine).mvcc.version < u64::MAX,
            !old(self).committed ==> old(engine).mvcc.watermark_tracker.spec_count(
                old(self).read_version,
            ) > 0,
        ensures
            final(self).committed,
            final(engine).inv(),
            old(self).committed ==> (r matches Err(e) && e is TxnClosed) && *final(engine)
                == *old(engine) && *final(self) == *old(self),
            !old(self).committed ==> {
                &&& final(self).read_version == old(self).read_version
                &&& final(self).serializable == old(self).serializable
                &&& final(self).spec_stage() == old(self).spec_stage()
                &&& final(self).spec_read_set() == old(self).spec_read_set()
                &&& final(self).spec_write_set() == old(self).spec_write_set()
                &&& ((r matches Err(e) && e is SerializabilityConflict) <==> spec_conflict(
                    old(engine).mvcc,
                    *old(self),
                ))
                &&& (r is Ok <==> (!spec_conflict(old(engine).mvcc, *old(self))
                    && spec_stage_fits(old(self).spec_stage())))
                &&& ((r matches Err(e) && e is Corruption) <==> (!spec_conflict(
                    old(engine).mvcc,
                    *old(self),
                ) && !spec_stage_fits(old(self).spec_stage())))
                &&& final(engine).mvcc.watermark_tracker.spec_count(old(self).read_version)
                    == old(engine).mvcc.watermark_tracker.spec_count(old(self).read_version) - 1
                &&& forall|w: u64| w != old(self).read_version
                    ==> #[trigger] final(engine).mvcc.watermark_tracker.spec_count(w)
                    == old(engine).mvcc.watermark_tracker.spec_count(w)
                &&& final(engine).mvcc.spec_watermark() >= old(engine).mvcc.spec_watermark()
                &&& (!(r is Ok) ==> final(engine).mvcc.version == old(engine).mvcc.version
                    && final(engine).state == old(engine).state && final(engine).wal_log == old(engine).wal_log && final(engine).batches == old(engine).batches
                    && final(engine).mvcc.committed_txns == old(engine).mvcc.committed_txns)
                &&& (r matches Ok(cv) ==> {
                    &&& cv == old(engine).mvcc.version + 1
                    &&& final(engine).mvcc.version == cv
                    &&& final(engine).state.memtable.spec_id() == old(engine).state.memtable.spec_id()
                    &&& exists|es: Seq<(Seq<u8>, Seq<u8>)>| #[trigger] is_stage_seq(
                        old(self).spec_stage(),
                        es,
                    ) && final(engine).state.memtable.spec_contents() == spec_apply_batch(
                        old(engine).state.memtable.spec_contents(),
                        stage_views(es, cv),
                    ) && final(engine).wal_log@ == old(engine).wal_log@
                        + spec_wal_record_encode(stage_views(es, cv)) && final(engine).batches@
                        == old(engine).batches@.push(stage_views(es, cv))
                    &&& (old(self).serializable ==> exists|j: int|
                        0 <= j < final(engine).mvcc.committed_txns@.len() && (#[trigger] final(engine).mvcc.committed_txns@[j]).commit_version == cv && final(engine).mvcc.committed_txns@[j].read_version == old(self).read_version
                            && final(engine).mvcc.committed_txns@[j].hashes() == old(self).spec_write_set())
                    &&& (forall|i: int| 0 <= i < old(engine).mvcc.committed_txns@.len()
                        && (#[trigger] old(engine).mvcc.committed_txns@[i]).commit_version
                        >= old(engine).mvcc.spec_watermark() ==> exists|j: int|
                        0 <= j < final(engine).mvcc.committed_txns@.len() && ct_matches(
                            #[trigger] final(engine).mvcc.committed_txns@[j],
                            old(engine).mvcc.committed_txns@[i],
                        ))
                    &&& (forall|j: int| 0 <= j < final(engine).mvcc.committed_txns@.len()
                        ==> (#[trigger] final(engine).mvcc.committed_txns@[j]).commit_version
                        >= old(engine).mvcc.spec_watermark())
                })
            },
    {
        if self.committed {
            return Err(Error::TxnClosed);
        }
        self.committed = true;
        let rv = self.read_version;

        // serializability check against every committed transaction
        // whose commit version is above this snapshot
        if self.serializable && !self.write_set.is_empty() {
            proof {
                assert(self.write_set@[0] == self.write_set@[0]);
                assert(self.write_set@.contains(self.write_set@[0]));
                assert(self.spec_write_set().contains(self.write_set@[0]));
            }
            let n = engine.mvcc.committed_txns.len();
            let mut i: usize = 0;
            while i < n
                invariant
                    i <= n,
                    *engine == *old(engine),
                    n == engine.mvcc.committed_txns@.len(),
                    forall|j: int| 0 <= j < i ==> !((#[trigger] engine.mvcc.committed_txns@[j]).commit_version > rv && sets_intersect(
                        engine.mvcc.committed_txns@[j].hashes(),
                        self.spec_read_set(),
                    )),
                decreases n - i,
            {
                let ct = &engine.mvcc.committed_txns[i];
                if ct.commit_version > rv {
                    if vecs_intersect(&ct.key_hashes, &self.read_set) {
                        proof {
                            assert(old(self).spec_write_set().contains(self.write_set@[0]));
                            assert((old(engine).mvcc.committed_txns@[i as int]).commit_version
                                > old(self).read_version);
                            assert(sets_intersect(
                                old(engine).mvcc.committed_txns@[i as int].hashes(),
                                old(self).spec_read_set(),
                            ));
                            assert(spec_conflict(old(engine).mvcc, *old(self)));
                        }
                        engine.mvcc.watermark_tracker.remove(rv);
                        proof {
                            lemma_release_read_version(old(engine).mvcc, engine.mvcc, rv);
                            assert forall|v: u64| #[trigger]
                                engine.mvcc.watermark_tracker.present(v) implies v
                                <= engine.mvcc.version by {
                                if v != rv {
                                    assert(engine.mvcc.watermark_tracker.spec_count(v) == old(
                                        engine,
                                    ).mvcc.watermark_tracker.spec_count(v));
                                }
                                assert(old(engine).mvcc.watermark_tracker.present(v));
                            }
                        }
                        return Err(Error::SerializabilityConflict);
                    }
                }
                i = i + 1;
            }
        } else {
            proof {
                if self.serializable {
                    assert(self.write_set@.len() == 0);
                    assert forall|h: u32| !(#[trigger] self.spec_write_set().contains(h)) by {
                        if self.spec_write_set().contains(h) {
                            let j = choose|j: int| 0 <= j < self.write_set@.len()
                                && self.write_set@[j] == h;
                        }
                    }
                }
            }
        }
        proof {
            assert(!spec_conflict(old(engine).mvcc, *old(self)));
        }

        // the staged pairs, in key order
        let entries = stage_entries(&self.storage);
        let ghost esv = entries@.map_values(|e: (Vec<u8>, Vec<u8>)| (e.0@, e.1@));
        proof {
            assert forall|i: int| 0 <= i < esv.len() implies old(self).spec_stage(
            ).contains_pair((#[trigger] esv[i]).0, esv[i].1) by {
                assert(esv[i] == (entries@[i].0@, entries@[i].1@));
            }
            assert forall|k: Seq<u8>| #[trigger] old(self).spec_stage().dom().contains(k)
                implies exists|i: int| 0 <= i < esv.len() && (#[trigger] esv[i]).0 == k by {
                let i = choose|i: int| 0 <= i < entries@.len() && (#[trigger] entries@[i]).0@
                    == k;
                assert(esv[i].0 == k);
            }
            assert forall|i: int, j: int| 0 <= i < j < esv.len() implies bytes_lt(
                (#[trigger] esv[i]).0,
                (#[trigger] esv[j]).0,
            ) by {
                assert(esv[i] == (entries@[i].0@, entries@[i].1@));
                assert(esv[j] == (entries@[j].0@, entries@[j].1@));
            }
            assert(is_stage_seq(old(self).spec_stage(), esv));
        }

        // one WAL record must frame the whole batch: its payload length
        // carries a u32 header
        let m = entries.len();
        let mut sum: u128 = 0;
        let mut i2: usize = 0;
        proof {
            assert(esv.skip(0) =~= esv);
            assert(stage_seq_bytes(esv.take(0)) == 0);
        }
        while i2 < m
            invariant
                i2 <= m,
                *engine == *old(engine),
                sum == stage_seq_bytes(esv.take(i2 as int)),
                sum <= u32::MAX,
                stage_seq_bytes(esv) == sum + stage_seq_bytes(esv.skip(i2 as int)),
            decreases m - i2,
        {
            let e = &entries[i2];
            let term: u128 = 12 + (e.0.len() as u128) + (e.1.len() as u128);
            proof {
                assert(esv[i2 as int] == (e.0@, e.1@));
                assert(esv.skip(i2 as int)[0] == esv[i2 as int]);
                assert(esv.skip(i2 as int).drop_first() =~= esv.skip(i2 + 1));
                lemma_stage_seq_bytes_nonneg(esv.skip(i2 + 1));
                assert(old(self).spec_stage().dom().contains(esv[i2 as int].0));
                assert(esv.take(i2 + 1) =~= esv.take(i2 as int).push(esv[i2 as int]));
                lemma_stage_seq_bytes_snoc(esv.take(i2 as int), esv[i2 as int]);
            }
            sum = sum + term;
            if sum > 0xffff_ffff {
                proof {
                    lemma_stage_seq_bytes_nonneg(esv.skip(i2 + 1));
                    assert(stage_seq_bytes(esv) > u32::MAX);
                    assert(!spec_stage_fits(old(self).spec_stage()));
                }
                engine.mvcc.watermark_tracker.remove(rv);
                proof {
                    lemma_release_read_version(old(engine).mvcc, engine.mvcc, rv);
                    assert forall|v: u64| #[trigger] engine.mvcc.watermark_tracker.present(v)
                        implies v <= engine.mvcc.version by {
                        if v != rv {
                            assert(engine.mvcc.watermark_tracker.spec_count(v) == old(
                                engine,
                            ).mvcc.watermark_tracker.spec_count(v));
                        }
                        assert(old(engine).mvcc.watermark_tracker.present(v));
                    }
                }
                return Err(Error::corruption("staged batch exceeds one record frame"));
            }
            i2 = i2 + 1;
        }
        proof {
            assert(esv.take(m as int) =~= esv);
            assert(esv.skip(m as int) =~= Seq::<(Seq<u8>, Seq<u8>)>::empty());
            assert(stage_seq_bytes(esv) == sum);
            assert forall|es2: Seq<(Seq<u8>, Seq<u8>)>| #[trigger] is_stage_seq(
                old(self).spec_stage(),
                es2,
            ) implies stage_seq_bytes(es2) <= u32::MAX by {
                lemma_stage_seq_unique(old(self).spec_stage(), esv, es2);
            }
            assert(spec_stage_fits(old(self).spec_stage()));
        }

        // build the write batch: the empty value is a delete record
        let ghost cv_spec = (engine.mvcc.version + 1) as u64;
        let mut batch: Vec<WriteBatchRecord> = Vec::new();
        let mut i3: usize = 0;
        while i3 < m
            invariant
                i3 <= m,
                batch@.len() == i3,
                forall|j: int| 0 <= j < i3 ==> (#[trigger] batch@[j]).wf() && batch@[j].entry_view() == esv[j],
            decreases m - i3,
        {
            let e = &entries[i3];
            proof {
                assert(esv[i3 as int] == (e.0@, e.1@));
                assert(old(self).spec_stage().contains_pair(esv[i3 as int].0, esv[i3 as int].1));
            }
            let k = vstd::slice::slice_to_vec(e.0.as_slice());
            if e.1.is_empty() {
                proof {
                    assert(e.1@ =~= Seq::<u8>::empty());
                }
                batch.push(WriteBatchRecord::Del(k));
            } else {
                batch.push(WriteBatchRecord::Put(k, vstd::slice::slice_to_vec(e.1.as_slice())));
            }
            i3 = i3 + 1;
        }
        proof {
            assert(spec_batch_views(batch@, cv_spec) =~= stage_views(esv, cv_spec));
            lemma_stage_bytes_payload(esv, cv_spec);
        }

        // the write path: one version, one WAL record, the memtable
        let cv = match engine.write_batch(&batch) {
            Ok(c) => c,
            Err(e) => {
                proof {
                    assert(false);
                }
                return Err(e);
            },
        };

        // record this commit for later serializability checks
        if self.serializable {
            let hashes = vstd::slice::slice_to_vec(self.write_set.as_slice());
            let rec = CommittedTxn { key_hashes: hashes, read_version: rv, commit_version: cv };
            proof {
                assert(rec.hashes() == old(self).spec_write_set());
                assert forall|j: int| 0 <= j < engine.mvcc.committed_txns@.len() implies (
                #[trigger] engine.mvcc.committed_txns@[j]).commit_version < cv by {
                    assert(old(engine).mvcc.committed_txns@[j].commit_version <= old(engine).mvcc.version);
                }
            }
            engine.mvcc.committed_txns.push(rec);
            proof {
                assert forall|p: int, q: int| 0 <= p < q < engine.mvcc.committed_txns@.len()
                    implies (#[trigger] engine.mvcc.committed_txns@[p]).commit_version < (
                #[trigger] engine.mvcc.committed_txns@[q]).commit_version by {}
            }
        }

        // garbage-collect records whose commit version fell below the
        // watermark (this transaction's read-version is still tracked)
        let wm = engine.mvcc.watermark();
        let ghost all = engine.mvcc.committed_txns@;
        let ghost mut dropped: int = 0;
        proof {
            assert(all.skip(0) =~= all);
            assert(engine.mvcc.watermark_tracker == old(engine).mvcc.watermark_tracker);
            old(engine).mvcc.watermark_tracker.lemma_count_le_len(rv);
            assert(old(engine).mvcc.watermark_tracker.spec_len() > 0);
            assert(wm == old(engine).mvcc.spec_watermark());
        }
        let ghost pre_gc = *engine;
        while engine.mvcc.committed_txns.len() > 0
            && engine.mvcc.committed_txns[0].commit_version < wm
            invariant
                0 <= dropped <= all.len(),
                engine.mvcc.committed_txns@ == all.skip(dropped),
                forall|j: int| 0 <= j < dropped ==> (#[trigger] all[j]).commit_version < wm,
                engine.mvcc.watermark_tracker == pre_gc.mvcc.watermark_tracker,
                engine.mvcc.version == pre_gc.mvcc.version,
                engine.state == pre_gc.state,
                engine.wal_log == pre_gc.wal_log,
                engine.batches == pre_gc.batches,
            decreases all.len() - dropped,
        {
            engine.mvcc.committed_txns.remove(0);
            proof {
                dropped = dropped + 1;
                assert(engine.mvcc.committed_txns@ =~= all.skip(dropped));
            }
        }
        proof {
            assert forall|j: int| 0 <= j < engine.mvcc.committed_txns@.len() implies (#[trigger]
            engine.mvcc.committed_txns@[j]).commit_version >= wm by {
                assert(engine.mvcc.committed_txns@[j] == all[dropped + j]);
                if engine.mvcc.committed_txns@.len() > 0 && j > 0 {
                    assert(all[dropped as int].commit_version < all[dropped + j].commit_version);
                }
            }
            assert forall|i: int| 0 <= i < old(engine).mvcc.committed_txns@.len() && (#[trigger]
            old(engine).mvcc.committed_txns@[i]).commit_version >= wm implies exists|j: int|
                0 <= j < engine.mvcc.committed_txns@.len() && ct_matches(
                    #[trigger] engine.mvcc.committed_txns@[j],
                    old(engine).mvcc.committed_txns@[i],
                ) by {
                assert(all[i] == old(engine).mvcc.committed_txns@[i]);
                assert(i >= dropped);
                assert(engine.mvcc.committed_txns@[i - dropped] == all[i]);
                assert(ct_matches(engine.mvcc.committed_txns@[i - dropped], all[i]));
            }
            if old(self).serializable {
                let jn = all.len() - 1;
                assert(all[jn] == all.last());
                assert(all[jn].commit_version == cv);
                assert(all[jn].read_version == old(self).read_version);
                assert(all[jn].hashes() == old(self).spec_write_set());
                old(engine).mvcc.lemma_watermark_le_version();
                assert(cv >= wm);
                assert(jn >= dropped);
                assert(engine.mvcc.committed_txns@[jn - dropped] == all[jn]);
                assert((#[trigger] engine.mvcc.committed_txns@[jn - dropped]).commit_version
                    == cv);
            }
        }

        // release the read-version
        engine.mvcc.watermark_tracker.remove(rv);
        proof {
            lemma_release_read_version(old(engine).mvcc, engine.mvcc, rv);
            assert forall|v: u64| #[trigger] engine.mvcc.watermark_tracker.present(v) implies v
                <= engine.mvcc.version by {
                if v != rv {
                    assert(engine.mvcc.watermark_tracker.spec_count(v) == old(engine).mvcc.watermark_tracker.spec_count(v));
                }
                assert(old(engine).mvcc.watermark_tracker.present(v));
            }
            if old(self).serializable {
                let jn = all.len() - 1;
                let jf = jn - dropped;
                assert(engine.mvcc.committed_txns@[jf] == all[jn]);
                assert(0 <= jf < engine.mvcc.committed_txns@.len());
                assert((#[trigger] engine.mvcc.committed_txns@[jf]).commit_version == cv
                    && engine.mvcc.committed_txns@[jf].read_version == old(self).read_version
                    && engine.mvcc.committed_txns@[jf].hashes() == old(self).spec_write_set());
                assert(exists|j: int| 0 <= j < engine.mvcc.committed_txns@.len() && (#[trigger]
                engine.mvcc.committed_txns@[j]).commit_version == cv
                    && engine.mvcc.committed_txns@[j].read_version == old(self).read_version
                    && engine.mvcc.committed_txns@[j].hashes() == old(self).spec_write_set());
            }
            assert forall|i: int| 0 <= i < old(engine).mvcc.committed_txns@.len() && (#[trigger]
            old(engine).mvcc.committed_txns@[i]).commit_version >= old(
                engine,
            ).mvcc.spec_watermark() implies exists|j: int|
                0 <= j < engine.mvcc.committed_txns@.len() && ct_matches(
                    #[trigger] engine.mvcc.committed_txns@[j],
                    old(engine).mvcc.committed_txns@[i],
                ) by {
                assert(all[i] == old(engine).mvcc.committed_txns@[i]);
                assert(i >= dropped);
                assert(engine.mvcc.committed_txns@[i - dropped] == all[i]);
                assert(ct_matches(engine.mvcc.committed_txns@[i - dropped], all[i]));
            }
            assert forall|j: int| 0 <= j < engine.mvcc.committed_txns@.len() implies (#[trigger]
            engine.mvcc.committed_txns@[j]).commit_version >= old(
                engine,
            ).mvcc.spec_watermark() by {
                assert(engine.mvcc.committed_txns@[j] == all[dropped + j]);
                if j > 0 {
                    assert(all[dropped as int].commit_version < all[dropped + j].commit_version);
                }
            }
        }
        Ok(cv)
    }

    /// Stages a delete: a write of the empty value, the tombstone.
    pub fn delete(&mut self, key: &[u8]) -> (r: Result<(), Error>)
        requires
            0 < key@.len() <= u16::MAX,
            old(self).wf(),
        ensures
            old(self).committed ==> (r matches Err(e) && e is TxnClosed) && *final(self) == *old(self),
            !old(self).committed ==> {
                &&& r is Ok
                &&& final(self).wf()
                &&& final(self).spec_stage() == old(self).spec_stage().insert(
                    key@,
                    Seq::<u8>::empty(),
                )
                &&& final(self).committed == old(self).committed
                &&& final(self).read_version == old(self).read_version
                &&& final(self).serializable == old(self).serializable
                &&& final(self).spec_read_set() == old(self).spec_read_set()
                &&& final(self).spec_write_set() == if old(self).serializable {
                    old(self).spec_write_set().insert(farmhash32_of(key@))
                } else {
                    old(self).spec_write_set()
                }
            },
    {
        let empty: Vec<u8> = Vec::new();
        let r = self.write(key, empty.as_slice());
        r
    }
}

} // verus!
