use lsm_core::errors::Error;
use lsm_core::key::Key;
use lsm_core::lsm_engine::{LsmEngine, LsmOptions};
use lsm_core::manifest::ManifestRecord;
use lsm_core::memtable::Memtable;
use lsm_core::wal;

#[test]
fn test_write_and_read() {
    let mut table = Memtable::new(1);
    let key = Key::new(b"hello".to_vec(), 1);
    let value = b"world".to_vec();
    assert!(table.write(&key, value.as_slice()).is_ok());
    let ret = table.read(&key);
    assert!(ret.is_some_and(|val| {
        assert_eq!(val, value);
        true
    }));

    assert_eq!(table.size(), key.raw_len() + value.len());
}

#[test]
fn test_memtable_latest_at() {
    let mut table = Memtable::new(1);
    table.write(&Key::new(b"k".to_vec(), 3), b"v3").unwrap();
    table.write(&Key::new(b"k".to_vec(), 7), b"v7").unwrap();
    // version 5 sees version 3; version 9 sees version 7; version 2 sees nothing
    assert_eq!(table.latest_at(b"k", 5), Some((3, b"v3".to_vec())));
    assert_eq!(table.latest_at(b"k", 9), Some((7, b"v7".to_vec())));
    assert_eq!(table.latest_at(b"k", 2), None);
    assert_eq!(table.latest_at(b"other", 9), None);
}

#[test]
fn test_engine_put_get() {
    let mut engine = LsmEngine::create(1, LsmOptions::default());
    let v1 = engine.put(b"hello", b"world").unwrap();
    assert_eq!(v1, 1);
    assert_eq!(engine.get(b"hello").unwrap(), Some(b"world".to_vec()));
    assert_eq!(engine.get(b"missing").unwrap(), None);
}

#[test]
fn test_tombstone_visibility() {
    let mut engine = LsmEngine::create(1, LsmOptions::default());
    let v1 = engine.put(b"k", b"v").unwrap();
    let v2 = engine.delete(b"k").unwrap();
    assert!(v2 > v1);
    assert_eq!(engine.inner.get_with_version(b"k", v1).unwrap(), Some(b"v".to_vec()));
    assert_eq!(engine.inner.get_with_version(b"k", v2).unwrap(), None);
    assert_eq!(engine.get(b"k").unwrap(), None);
}

#[test]
fn test_get_with_version_picks_newest_visible() {
    let mut engine = LsmEngine::create(1, LsmOptions::default());
    let v1 = engine.put(b"k", b"one").unwrap();
    let v2 = engine.put(b"k", b"two").unwrap();
    let v3 = engine.put(b"k", b"three").unwrap();
    assert_eq!(engine.inner.get_with_version(b"k", v1).unwrap(), Some(b"one".to_vec()));
    assert_eq!(engine.inner.get_with_version(b"k", v2).unwrap(), Some(b"two".to_vec()));
    assert_eq!(engine.inner.get_with_version(b"k", v3).unwrap(), Some(b"three".to_vec()));
    assert_eq!(engine.inner.get_with_version(b"k", 0).unwrap(), None);
}

#[test]
fn test_serializability_conflict() {
    let mut engine = LsmEngine::create(1, LsmOptions::default());
    // advance the engine to version 10
    for _ in 0..10 {
        engine.put(b"warmup", b"x").unwrap();
    }
    assert_eq!(engine.inner.mvcc.version, 10);

    let mut t1 = engine.new_txn();
    let mut t2 = engine.new_txn();
    assert_eq!(t1.read_version, 10);
    assert_eq!(t2.read_version, 10);

    let _ = t1.read(&engine.inner, b"a").unwrap();
    t2.write(b"a", b"x").unwrap();
    let cv2 = t2.commit(&mut engine.inner).unwrap();
    assert_eq!(cv2, 11);

    t1.write(b"b", b"y").unwrap();
    let r1 = t1.commit(&mut engine.inner);
    assert!(matches!(r1, Err(Error::SerializabilityConflict)));

    // the same interleaving without tracking commits
    let mut t3 = engine.inner.new_txn(false);
    let _ = t3.read(&engine.inner, b"a").unwrap();
    let mut t4 = engine.inner.new_txn(true);
    t4.write(b"a", b"z").unwrap();
    t4.commit(&mut engine.inner).unwrap();
    t3.write(b"b", b"y").unwrap();
    let cv3 = t3.commit(&mut engine.inner).unwrap();
    assert_eq!(cv3, 13);
}

#[test]
fn test_txn_closed() {
    let mut engine = LsmEngine::create(1, LsmOptions::default());
    let mut t = engine.new_txn();
    t.write(b"a", b"1").unwrap();
    t.commit(&mut engine.inner).unwrap();
    assert!(matches!(t.read(&engine.inner, b"a"), Err(Error::TxnClosed)));
    assert!(matches!(t.write(b"a", b"2"), Err(Error::TxnClosed)));
    assert!(matches!(t.commit(&mut engine.inner), Err(Error::TxnClosed)));
}

#[test]
fn test_txn_reads_own_stage_and_tombstone() {
    let mut engine = LsmEngine::create(1, LsmOptions::default());
    engine.put(b"k", b"committed").unwrap();
    let mut t = engine.new_txn();
    assert_eq!(t.read(&engine.inner, b"k").unwrap(), Some(b"committed".to_vec()));
    t.write(b"k", b"staged").unwrap();
    assert_eq!(t.read(&engine.inner, b"k").unwrap(), Some(b"staged".to_vec()));
    t.delete(b"k").unwrap();
    assert_eq!(t.read(&engine.inner, b"k").unwrap(), None);
    engine.inner.drop_txn(t);
    // nothing staged ever reached the engine
    assert_eq!(engine.get(b"k").unwrap(), Some(b"committed".to_vec()));
}

#[test]
fn test_commit_applies_batch() {
    let mut engine = LsmEngine::create(1, LsmOptions::default());
    let mut t = engine.new_txn();
    t.write(b"a", b"1").unwrap();
    t.write(b"b", b"2").unwrap();
    t.delete(b"a").unwrap();
    let cv = t.commit(&mut engine.inner).unwrap();
    assert_eq!(cv, 1);
    assert_eq!(engine.get(b"a").unwrap(), None);
    assert_eq!(engine.get(b"b").unwrap(), Some(b"2".to_vec()));
}

#[test]
fn test_watermark_monotonic_over_lifecycles() {
    let mut engine = LsmEngine::create(1, LsmOptions::default());
    let mut seen: Vec<u64> = Vec::new();
    seen.push(engine.inner.mvcc.watermark());

    let t1 = engine.new_txn();
    seen.push(engine.inner.mvcc.watermark());
    engine.put(b"k", b"v").unwrap();
    seen.push(engine.inner.mvcc.watermark());
    let mut t2 = engine.new_txn();
    seen.push(engine.inner.mvcc.watermark());
    engine.inner.drop_txn(t1);
    seen.push(engine.inner.mvcc.watermark());
    t2.write(b"k", b"w").unwrap();
    t2.commit(&mut engine.inner).unwrap();
    seen.push(engine.inner.mvcc.watermark());

    for w in seen.windows(2) {
        assert!(w[0] <= w[1]);
    }
}

#[test]
fn test_recover_from_manifest_and_wal() {
    // what the shell would have persisted
    let mut manifest_bytes = ManifestRecord::NewMemtable(7).encode_framed();
    manifest_bytes.extend_from_slice(&ManifestRecord::Flush(3).encode_framed());

    let batch1 = vec![(Key::new(b"hello".to_vec(), 1), b"world".to_vec())];
    let batch2 = vec![(Key::new(b"hello".to_vec(), 2), Vec::new())];
    let mut wal_bytes = wal::encode_batch(&batch1);
    wal_bytes.extend_from_slice(&wal::encode_batch(&batch2));

    let (engine, corrupt) = LsmEngine::recover(
        manifest_bytes.as_slice(),
        wal_bytes.as_slice(),
        LsmOptions::default(),
    )
        .unwrap();
    assert!(!corrupt);
    assert_eq!(engine.inner.state.memtable.id(), 7);
    assert_eq!(engine.inner.mvcc.version, 2);
    assert_eq!(engine.inner.get_with_version(b"hello", 1).unwrap(), Some(b"world".to_vec()));
    assert_eq!(engine.inner.get_with_version(b"hello", 2).unwrap(), None);
}

#[test]
fn test_memtable_roll() {
    let options = LsmOptions {
        block_size: 4096,
        memtable_size_limit: 16,
        serializable: true,
        sync_on_commit: true,
    };
    let mut engine = LsmEngine::create(1, options);
    engine.put(b"hello", b"world").unwrap();
    // the entry takes 5 + 8 + 5 = 18 bytes, above the 16-byte limit
    assert!(engine.should_roll());
    let (frozen, rec) = engine.roll_memtable(2);
    assert!(matches!(rec, ManifestRecord::NewMemtable(2)));
    assert_eq!(frozen.id(), 1);
    assert_eq!(frozen.read(&Key::new(b"hello".to_vec(), 1)), Some(b"world".to_vec()));
    assert_eq!(engine.inner.state.memtable.id(), 2);
    assert!(!engine.should_roll());
}
