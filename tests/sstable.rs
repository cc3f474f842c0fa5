use mini_lsm::block::iterator::BlockIterator;
use mini_lsm::error::Error;
use mini_lsm::iterators::StorageIterator;
use mini_lsm::sstable::builder::SSTableBuilder;
use mini_lsm::sstable::iterator::SSTableIterator;
use mini_lsm::sstable::{BlockMeta, FileObject, SSTable};
use std::sync::Arc;

fn sst_build_test<T, K>(id: usize, map: T, test: K)
where
    T: Fn(&mut SSTableBuilder),
    K: Fn(Arc<SSTable>),
{
    let mut builder = SSTableBuilder::new(300);
    map(&mut builder);
    let sst = builder.build(id, None).unwrap();
    test(Arc::new(sst));
}

fn key_of(val: usize) -> Vec<u8> {
    format!("key_{:05}", val).into_bytes()
}

fn value_of(val: usize) -> Vec<u8> {
    format!("val_{:010}", val).into_bytes()
}

fn assert_kv(i: usize, key: &[u8], value: &[u8]) {
    assert_eq!(key, key_of(i), "expected key: {:?}, actual key: {:?}", key_of(i), key);
    assert_eq!(value, value_of(i), "expected value: {:?}, actual value: {:?}", value_of(i), value);
}

#[test]
fn test_sst_build_single_key() {
    let map = |builder: &mut SSTableBuilder| {
        builder.add(b"233", b"23333");
    };

    let test = |sst: Arc<SSTable>| {
        let it = SSTableIterator::create_and_seek_to_first(sst).unwrap();

        assert_eq!(it.key(), b"233");
        assert_eq!(it.value(), b"23333");
    };

    sst_build_test(1, map, test);
}

#[test]
fn test_sst_build_two_key() {
    let map = |builder: &mut SSTableBuilder| {
        builder.add(b"233", b"23333");
        builder.add(b"233", b"23333");
    };

    let test = |sst: Arc<SSTable>| {
        let mut it = SSTableIterator::create_and_seek_to_first(sst).unwrap();

        assert_eq!(it.key(), b"233");
        assert_eq!(it.value(), b"23333");
        it.next().unwrap();
        assert_eq!(it.key(), b"233");
        assert_eq!(it.value(), b"23333");
    };

    sst_build_test(2, map, test);
}

#[test]
fn test_sst_build_multiple_keys_print() {
    let map = |builder: &mut SSTableBuilder| {
        for i in 0..100 {
            let key = key_of(i);
            let value = value_of(i);
            builder.add(&key, &value);
        }
    };

    let test = |sst: Arc<SSTable>| {
        for i in 0..sst.num_blocks() {
            let block = sst.read_block(i).unwrap();
            let mut iter = BlockIterator::create_and_seek_to_first(block);
            while iter.is_valid() {
                println!("key:{:?}, value:{:?}", iter.key(), iter.value());
                iter.next();
            }
        }
    };

    sst_build_test(3, map, test);
}

#[test]
fn test_sst_build_multiple_keys() {
    let map = |builder: &mut SSTableBuilder| {
        for i in 0..100 {
            let key = key_of(i);
            let value = value_of(i);
            builder.add(&key, &value);
        }
    };

    let test = |sst: Arc<SSTable>| {
        let mut iter = SSTableIterator::create_and_seek_to_first(sst).unwrap();
        for i in 0..100 {
            assert!(iter.is_valid(), "idx:{i}");
            assert_kv(i, iter.key(), iter.value());
            iter.next().unwrap();
        }
    };

    sst_build_test(4, map, test);
}

#[test]
fn test_sst_build_multiple_keys_plus() {
    let map = |builder: &mut SSTableBuilder| {
        for i in 0..1090 {
            let key = key_of(i);
            let value = value_of(i);
            builder.add(&key, &value);
        }
    };

    let test = |sst: Arc<SSTable>| {
        let mut iter = SSTableIterator::create_and_seek_to_first(sst).unwrap();
        for i in 0..1000 {
            assert!(iter.is_valid(), "idx:{i}");
            assert_kv(i, iter.key(), iter.value());
            iter.next().unwrap();
        }
    };

    sst_build_test(5, map, test);
}

#[test]
fn test_sst_iterator() {
    let map = |builder: &mut SSTableBuilder| {
        for i in 0..1100 {
            let key = key_of(i);
            let value = value_of(i);
            builder.add(&key, &value);
        }
    };

    let test = |sst: Arc<SSTable>| {
        for start in 0..1100 {
            let mut iter =
                SSTableIterator::create_and_seek_to_key(Arc::clone(&sst), &key_of(start)).unwrap();
            for i in start..1000 {
                assert!(iter.is_valid(), "idx:{i}");
                assert_kv(i, iter.key(), iter.value());
                iter.next().unwrap();
            }
        }
    };

    sst_build_test(6, map, test);
}

fn built_table(n: usize) -> SSTable {
    let mut builder = SSTableBuilder::new(300);
    for i in 0..n {
        builder.add(&key_of(i), &value_of(i));
    }
    builder.build(7, None).unwrap()
}

#[test]
fn sst_reopen_yields_all_entries_in_order() {
    let sst = built_table(100);
    let bytes = sst.file().as_bytes().to_vec();
    let reopened = SSTable::open(7, None, FileObject::from_bytes(bytes)).unwrap();
    assert_eq!(reopened.num_blocks(), sst.num_blocks());
    let mut iter = SSTableIterator::create_and_seek_to_first(Arc::new(reopened)).unwrap();
    for i in 0..100 {
        assert!(iter.is_valid());
        assert_kv(i, iter.key(), iter.value());
        iter.next().unwrap();
    }
    assert!(!iter.is_valid());
}

#[test]
fn sst_file_layout_trailer_and_meta() {
    let mut builder = SSTableBuilder::new(300);
    builder.add(b"a", b"b");
    let sst = builder.build(0, None).unwrap();
    let bytes = sst.file().as_bytes().to_vec();
    // one block: entry (6 bytes), one offset, count
    let block = vec![0, 1, b'a', 0, 1, b'b', 0, 0, 0, 1];
    let meta = vec![0, 0, 0, 0, 0, 1, b'a'];
    let mut expected = block.clone();
    expected.extend_from_slice(&meta);
    expected.extend_from_slice(&(block.len() as u64).to_be_bytes());
    assert_eq!(bytes, expected);
}

#[test]
fn sst_open_rejects_bad_files() {
    assert!(matches!(SSTable::open(0, None, FileObject::from_bytes(vec![])), Err(Error::Corrupt)));
    // meta offset beyond the file
    let bytes = vec![0, 0, 0, 0, 0, 0, 0, 9];
    assert!(matches!(SSTable::open(0, None, FileObject::from_bytes(bytes)), Err(Error::Corrupt)));
}

#[test]
fn sst_empty_builder_gives_empty_table() {
    let sst = SSTableBuilder::new(300).build(0, None).unwrap();
    assert_eq!(sst.num_blocks(), 0);
    let iter = SSTableIterator::create_and_seek_to_first(Arc::new(sst)).unwrap();
    assert!(!iter.is_valid());
}

#[test]
fn sst_find_block_idx_picks_last_block_not_above_key() {
    let sst = built_table(1100);
    assert!(sst.num_blocks() > 2);
    assert_eq!(sst.find_block_idx(b"a"), 0);
    assert_eq!(sst.find_block_idx(&key_of(0)), 0);
    assert_eq!(sst.find_block_idx(b"z"), sst.num_blocks() - 1);
}

#[test]
fn sst_seek_past_all_keys_is_invalid() {
    let sst = Arc::new(built_table(100));
    let iter = SSTableIterator::create_and_seek_to_key(sst, b"zzz").unwrap();
    assert!(!iter.is_valid());
}

#[test]
fn sst_seek_between_blocks_moves_to_next_block() {
    let sst = Arc::new(built_table(100));
    // a key after key_00010 and before key_00011 sorts past any block end
    for i in 0..99 {
        let mut probe = key_of(i);
        probe.push(b'~');
        let iter = SSTableIterator::create_and_seek_to_key(Arc::clone(&sst), &probe).unwrap();
        assert!(iter.is_valid());
        assert_kv(i + 1, iter.key(), iter.value());
    }
}

#[test]
fn sst_read_block_cached_without_cache_fails() {
    let sst = built_table(10);
    assert!(matches!(sst.read_block_cached(0), Err(Error::NoBlockCache)));
}

#[test]
fn sst_block_meta_round_trip() {
    let metas = vec![
        BlockMeta { offset: 0, first_key: b"a".to_vec() },
        BlockMeta { offset: 300, first_key: b"key".to_vec() },
    ];
    let mut buf = Vec::new();
    BlockMeta::encode_block_meta(&metas, &mut buf);
    assert_eq!(buf, vec![0, 0, 0, 0, 0, 1, b'a', 0, 0, 1, 44, 0, 3, b'k', b'e', b'y']);
    assert_eq!(BlockMeta::decode_block_meta(&buf).unwrap(), metas);
    assert!(BlockMeta::decode_block_meta(&buf[..5]).is_none());
}

#[test]
fn sst_estimated_size_counts_finished_blocks() {
    let mut builder = SSTableBuilder::new(300);
    assert_eq!(builder.estimated_size(), 0);
    for i in 0..100 {
        builder.add(&key_of(i), &value_of(i));
    }
    assert!(builder.estimated_size() > 0);
}

#[test]
fn sst_read_block_cached_returns_the_same_block_twice() {
    let cache = Arc::new(mini_lsm::lsm_storage::BlockCache::new(1024));
    let mut builder = SSTableBuilder::new(300);
    for i in 0..100 {
        builder.add(&key_of(i), &value_of(i));
    }
    let sst = builder.build(3, Some(cache)).unwrap();
    let first = sst.read_block_cached(1).unwrap();
    let second = sst.read_block_cached(1).unwrap();
    assert!(Arc::ptr_eq(&first, &second));
    let direct = sst.read_block(1).unwrap();
    assert_eq!(first.data, direct.data);
    assert_eq!(first.offsets, direct.offsets);
}

#[test]
fn sst_iterator_seek_again_on_the_same_table() {
    let sst = Arc::new(built_table(300));
    let mut iter = SSTableIterator::create_and_seek_to_first(Arc::clone(&sst)).unwrap();
    for _ in 0..150 {
        iter.next().unwrap();
    }
    assert_kv(150, iter.key(), iter.value());
    iter.seek_to_first().unwrap();
    assert_kv(0, iter.key(), iter.value());
    iter.seek_to_key(&key_of(200)).unwrap();
    assert_kv(200, iter.key(), iter.value());
    iter.seek_to_key(b"zzz").unwrap();
    assert!(!iter.is_valid());
}
