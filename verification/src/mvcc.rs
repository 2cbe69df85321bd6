//! MVCC bookkeeping: the latest committed version, the watermark
//! tracker, and the index of committed transactions consulted by the
//! serializability check.

use vstd::prelude::*;

verus! {

use crate::watermark::Watermark;

/// The record kept for a committed transaction while its commit version
/// is above the watermark.
pub struct CommittedTxn {
    /// Hashes of the user keys the transaction wrote.
    pub key_hashes: Vec<u32>,
    pub read_version: u64,
    pub commit_version: u64,
}

impl CommittedTxn {
    /// The write-set as a set of hashes.
    pub open spec fn hashes(&self) -> Set<u32> {
        self.key_hashes@.to_set()
    }
}

pub struct MvccInner {
    /// Latest committed version.
    pub version: u64,
    /// Multiset of read-versions of live transactions.
    pub watermark_tracker: Watermark,
    /// Committed transactions, ascending by commit version.
    pub committed_txns: Vec<CommittedTxn>,
}

impl MvccInner {
    pub open spec fn wf(&self) -> bool {
        &&& forall|i: int, j: int| 0 <= i < j < self.committed_txns@.len()
            ==> (#[trigger] self.committed_txns@[i]).commit_version
            < (#[trigger] self.committed_txns@[j]).commit_version
        &&& forall|i: int| 0 <= i < self.committed_txns@.len()
            ==> (#[trigger] self.committed_txns@[i]).commit_version <= self.version
        &&& forall|v: u64| #[trigger] self.watermark_tracker.present(v) ==> v <= self.version
    }

    /// The garbage-collection horizon: the least live read-version, or
    /// the latest version when no transaction is live.
    pub open spec fn spec_watermark(&self) -> u64 {
        if self.watermark_tracker.spec_len() == 0 {
            self.version
        } else {
            self.watermark_tracker.spec_min()
        }
    }

    pub fn new(init_version: u64) -> (r: MvccInner)
        ensures
            r.wf(),
            r.version == init_version,
            r.watermark_tracker.spec_len() == 0,
            forall|v: u64| #[trigger] r.watermark_tracker.spec_count(v) == 0,
            r.committed_txns@.len() == 0,
    {
        MvccInner {
            version: init_version,
            watermark_tracker: Watermark::new(),
            committed_txns: Vec::new(),
        }
    }

    /// The watermark as a value, for stating how operations move it.
    pub proof fn lemma_watermark_le_version(&self)
        requires
            self.wf(),
        ensures
            self.spec_watermark() <= self.version,
    {
        if self.watermark_tracker.spec_len() > 0 {
            self.watermark_tracker.lemma_min_exists();
            assert(self.watermark_tracker.present(self.spec_watermark()));
        }
    }

    /// Every version strictly below the returned value may be garbage
    /// collected.
    pub fn watermark(&self) -> (r: u64)
        requires
            self.wf(),
        ensures
            r == self.spec_watermark(),
            r <= self.version,
            forall|v: u64| #[trigger] self.watermark_tracker.present(v) ==> r <= v,
    {
        let r = match self.watermark_tracker.watermark() {
            Some(m) => m,
            None => self.version,
        };
        proof {
            if self.watermark_tracker.spec_len() > 0 {
                self.watermark_tracker.lemma_min_exists();
            }
        }
        r
    }
}

/// Law: the watermark never goes backwards. If the version does not
/// shrink and every still-live read-version was either live before or
/// lies at or above the old watermark, the new watermark is at least the
/// old one.
pub proof fn lemma_watermark_monotonic(m0: MvccInner, m1: MvccInner)
    requires
        m0.wf(),
        m1.version >= m0.version,
        forall|v: u64| #[trigger] m1.watermark_tracker.present(v)
            ==> m0.watermark_tracker.present(v) || v >= m0.spec_watermark(),
    ensures
        m1.spec_watermark() >= m0.spec_watermark(),
{
    m0.lemma_watermark_le_version();
    if m1.watermark_tracker.spec_len() == 0 {
    } else {
        m1.watermark_tracker.lemma_min_exists();
        let m = m1.watermark_tracker.spec_min();
        assert(m1.watermark_tracker.present(m));
        if m0.watermark_tracker.present(m) {
            m0.watermark_tracker.lemma_count_le_len(m);
            assert(m0.watermark_tracker.spec_len() > 0);
            m0.watermark_tracker.lemma_min_exists();
        }
    }
}

} // verus!
