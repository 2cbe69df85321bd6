use lsm_core::block::Block;
use lsm_core::block_builder::BlockBuilder;
use lsm_core::block_meta::{BlockMeta, BlockMetaVec};
use lsm_core::key::Key;
use lsm_core::errors::Error;
use lsm_core::manifest::{recover_records, CompactionTask, ManifestRecord};
use lsm_core::wal;

#[test]
fn test_compare_key() {
    let key_a = Key::new(b"hello".to_vec(), 1);
    let key_b = Key::new(b"world".to_vec(), 1);
    let key_c = Key::new(b"hello".to_vec(), 2);
    let key_d = Key::new(b"hello".to_vec(), 2);
    // same user key: the newer version sorts first
    assert!(key_c < key_a);
    assert!(key_b > key_a);
    assert!(key_b > key_a);
    assert_eq!(key_c, key_d);
}

#[test]
fn test_vk_order() {
    let h1 = Key::new(b"hello".to_vec(), 1);
    let h2 = Key::new(b"hello".to_vec(), 2);
    let w1 = Key::new(b"world".to_vec(), 1);
    assert!(!(h1 < h2));
    assert!(h2 < h1);
    assert!(h1 < w1);
}

#[test]
fn test_encode_decode_block() {
    let mut builder = BlockBuilder::new(1024);
    assert!(builder.add(&Key::new(b"hello".to_vec(), 1), b"world"));
    assert!(builder.add(&Key::new(b"test".to_vec(), 1), b"case"));

    let block = builder.finalize();
    let encode_bytes = block.encode();
    let decode_block = Block::decode(encode_bytes.as_slice()).unwrap();
    assert_eq!(block, decode_block);
}

#[test]
fn test_block_entries_round_trip() {
    let mut builder = BlockBuilder::new(1024);
    assert!(builder.add(&Key::new(b"hello".to_vec(), 7), b"world"));
    assert!(builder.add(&Key::new(b"help".to_vec(), 3), b"me"));
    let block = builder.finalize();
    let entries = lsm_core::block_builder::read_block_entries(&block).unwrap();
    assert_eq!(entries.len(), 2);
    assert_eq!(entries[0].0, Key::new(b"hello".to_vec(), 7));
    assert_eq!(entries[0].1, b"world".to_vec());
    assert_eq!(entries[1].0, Key::new(b"help".to_vec(), 3));
    assert_eq!(entries[1].1, b"me".to_vec());
}

#[test]
fn test_block_decode_garbage() {
    let r = Block::decode(&[9]);
    assert!(matches!(r, Err(Error::Corruption { .. })));
}

#[test]
fn test_encode_decode_block_meta() {
    let first_key = Key::new(b"hello".to_vec(), 1);
    let last_key = Key::new(b"world".to_vec(), 12);
    let offset = 100;

    let meta = BlockMeta { first_key, last_key, offset };

    let estimated_size = meta.estimated_size();
    let mut buf = Vec::with_capacity(estimated_size);
    meta.encode(&mut buf);
    assert_eq!(estimated_size, buf.len());

    let (decode_meta, next) = BlockMeta::decode(buf.as_slice(), 0).unwrap();

    assert_eq!(meta, decode_meta);
    assert_eq!(next, buf.len());
}

#[test]
fn test_encode_decode_block_meta_vector() {
    let mut meta_vec = Vec::new();
    let key_tuples = vec![("first", "last"), ("hello", "world")];
    for (first_key, last_key) in key_tuples {
        let first_key = Key::new(first_key.as_bytes().to_vec(), 1);
        let last_key = Key::new(last_key.as_bytes().to_vec(), 12);
        let offset = 100;

        let meta = BlockMeta { first_key, last_key, offset };
        meta_vec.push(meta);
    }
    let block_meta_vec = BlockMetaVec::with(meta_vec);
    let mut buf = Vec::new();
    let version = 101;
    block_meta_vec.encode(version, &mut buf);

    let (decode_version, decode_meta_vec) = BlockMetaVec::decode(buf.as_slice()).unwrap();

    assert_eq!(version, decode_version);
    assert_eq!(block_meta_vec.0, decode_meta_vec.0);
}

#[test]
fn test_block_meta_vector_checksum() {
    let meta = BlockMeta {
        first_key: Key::new(b"a".to_vec(), 1),
        last_key: Key::new(b"b".to_vec(), 2),
        offset: 0,
    };
    let v = BlockMetaVec::with(vec![meta]);
    let mut buf = Vec::new();
    v.encode(9, &mut buf);
    // flip one payload byte: the stored checksum must catch it
    let mid = buf.len() / 2;
    buf[mid] ^= 0xff;
    let r = BlockMetaVec::decode(buf.as_slice());
    assert!(matches!(r, Err(Error::Corruption { .. })));
}

#[test]
fn test_wal_round_trip() {
    let batch1 = vec![
        (Key::new(b"hello".to_vec(), 1), b"world".to_vec()),
        (Key::new(b"k".to_vec(), 1), Vec::new()),
    ];
    let batch2 = vec![(Key::new(b"other".to_vec(), 2), b"value".to_vec())];
    let mut log = wal::encode_batch(&batch1);
    log.extend_from_slice(&wal::encode_batch(&batch2));

    let (batches, consumed) = wal::replay(log.as_slice()).unwrap();
    assert_eq!(consumed, log.len());
    assert_eq!(batches.len(), 2);
    assert_eq!(batches[0], batch1);
    assert_eq!(batches[1], batch2);
}

#[test]
fn test_wal_truncated_tail() {
    let batch = vec![(Key::new(b"hello".to_vec(), 1), b"world".to_vec())];
    let mut log = wal::encode_batch(&batch);
    let full = log.len();
    // an incomplete trailing record is a clean cutoff
    log.extend_from_slice(&[0, 0, 0]);
    let (batches, consumed) = wal::replay(log.as_slice()).unwrap();
    assert_eq!(batches.len(), 1);
    assert_eq!(consumed, full);
}

#[test]
fn test_wal_checksum_mismatch() {
    let batch = vec![(Key::new(b"hello".to_vec(), 1), b"world".to_vec())];
    let mut log = wal::encode_batch(&batch);
    let n = log.len();
    log[n - 1] ^= 0xff;
    let r = wal::replay(log.as_slice());
    assert!(matches!(r, Err(Error::Corruption { .. })));
}

#[test]
fn test_manifest_round_trip() {
    let records = vec![
        ManifestRecord::NewMemtable(1),
        ManifestRecord::Flush(1),
        ManifestRecord::Compaction(CompactionTask { input_sst_ids: vec![1, 2] }, vec![3]),
    ];
    let mut log: Vec<u8> = Vec::new();
    for r in &records {
        log.extend_from_slice(&r.encode_framed());
    }
    let (recovered, consumed, corrupt) = recover_records(log.as_slice());
    assert_eq!(consumed, log.len());
    assert!(!corrupt);
    assert_eq!(recovered.len(), 3);
    assert!(matches!(recovered[0], ManifestRecord::NewMemtable(1)));
    assert!(matches!(recovered[1], ManifestRecord::Flush(1)));
    match &recovered[2] {
        ManifestRecord::Compaction(task, outs) => {
            assert_eq!(task.input_sst_ids, vec![1, 2]);
            assert_eq!(*outs, vec![3]);
        },
        _ => panic!("wrong record"),
    }
}

#[test]
fn test_manifest_truncates_corrupt_tail() {
    let mut log = ManifestRecord::NewMemtable(1).encode_framed();
    let clean = log.len();
    let mut second = ManifestRecord::Flush(1).encode_framed();
    let n = second.len();
    second[n - 1] ^= 0xff;
    log.extend_from_slice(&second);
    let (recovered, consumed, corrupt) = recover_records(log.as_slice());
    assert_eq!(recovered.len(), 1);
    assert_eq!(consumed, clean);
    assert!(corrupt);
}
