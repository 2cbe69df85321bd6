use lsm_core::errors::Error;
use lsm_core::key::Key;
use lsm_core::table::read_sst_blocks;
use lsm_core::table_builder::SsTableBuilder;

#[test]
fn test_sst_build_and_read_back() {
    // a tiny block size forces several blocks
    let mut builder = SsTableBuilder::create(64).unwrap();
    let mut expected: Vec<(Key, Vec<u8>)> = Vec::new();
    for i in 0..20u8 {
        let key = Key::new(vec![b'k', b'0' + (i / 10), b'0' + (i % 10)], (i as u64) + 1);
        let value = vec![b'v', b'0' + (i % 10), b'x', b'y'];
        builder.add(&key, value.as_slice()).unwrap();
        expected.push((key, value));
    }
    let (meta, bytes) = builder.build(5).unwrap();
    assert_eq!(meta.id, 5);
    assert_eq!(meta.max_version, 20);
    assert!(meta.block_meta_vec.len() > 1);
    assert_eq!(meta.first_key, Key::new(b"k00".to_vec(), 1));
    assert_eq!(meta.last_key, Key::new(b"k19".to_vec(), 20));

    let entries = read_sst_blocks(bytes.as_slice(), &meta.block_meta_vec, meta.block_meta_offset)
        .unwrap();
    assert_eq!(entries.len(), expected.len());
    for (got, want) in entries.iter().zip(expected.iter()) {
        assert_eq!(got.0, want.0);
        assert_eq!(got.1, want.1);
    }
}

#[test]
fn test_sst_single_block() {
    let mut builder = SsTableBuilder::create(4096).unwrap();
    builder.add(&Key::new(b"hello".to_vec(), 1), b"world").unwrap();
    builder.add(&Key::new(b"test".to_vec(), 12), b"case").unwrap();
    let (meta, bytes) = builder.build(1).unwrap();
    assert_eq!(meta.block_meta_vec.len(), 1);
    assert_eq!(meta.max_version, 12);
    let entries = read_sst_blocks(bytes.as_slice(), &meta.block_meta_vec, meta.block_meta_offset)
        .unwrap();
    assert_eq!(entries.len(), 2);
    assert_eq!(entries[0].0, Key::new(b"hello".to_vec(), 1));
    assert_eq!(entries[0].1, b"world".to_vec());
    assert_eq!(entries[1].0, Key::new(b"test".to_vec(), 12));
    assert_eq!(entries[1].1, b"case".to_vec());
}

#[test]
fn test_sst_block_checksum_detects_corruption() {
    let mut builder = SsTableBuilder::create(4096).unwrap();
    builder.add(&Key::new(b"hello".to_vec(), 1), b"world").unwrap();
    let (meta, mut bytes) = builder.build(1).unwrap();
    bytes[2] ^= 0xff;
    let r = read_sst_blocks(bytes.as_slice(), &meta.block_meta_vec, meta.block_meta_offset);
    assert!(matches!(r, Err(Error::Corruption { .. })));
}

#[test]
fn test_sst_filter_membership() {
    let mut builder = SsTableBuilder::create(4096).unwrap();
    builder.add(&Key::new(b"present".to_vec(), 1), b"v").unwrap();
    assert!(builder.filter_may_contain(b"present"));
}

#[test]
fn test_sst_filter_fills_up() {
    let mut builder = SsTableBuilder::create(1 << 20).unwrap();
    let mut failed = None;
    'outer: for hi in 0..200u8 {
        for lo in 0..200u8 {
            let key = Key::new(vec![hi.wrapping_add(1), lo.wrapping_add(1), b'k'], 1);
            match builder.add(&key, b"v") {
                Ok(()) => {},
                Err(e) => {
                    failed = Some(e);
                    break 'outer;
                },
            }
        }
    }
    // the fixed-capacity filter must eventually refuse an insertion
    assert!(matches!(failed, Some(Error::Filter { .. })));
}
