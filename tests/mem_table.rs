use mini_lsm::iterators::StorageIterator;
use mini_lsm::mem_table::MemTable;
use mini_lsm::sstable::builder::SSTableBuilder;
use mini_lsm::sstable::iterator::SSTableIterator;
use std::ops::Bound;
use std::sync::Arc;

fn key_of(val: usize) -> Vec<u8> {
    format!("key_{:05}", val).into_bytes()
}

fn value_of(val: usize) -> Vec<u8> {
    format!("val_{:010}", val).into_bytes()
}

fn assert_kv(i: usize, key: &[u8], value: &[u8]) {
    assert_eq!(key, key_of(i), "expected key: {:?}, actual key: {:?}", key_of(i), key);
    assert_eq!(value, value_of(i), "expected value: {:?}, actual value: {:?}", value_of(i), value);
}

#[test]
fn test_memtable_get() {
    let mut memtable = MemTable::create();

    for i in 0..100 {
        let key = key_of(i);
        let val = value_of(i);
        memtable.put(&key, &val);
    }

    for i in 0..100 {
        let key = key_of(i);
        let val = memtable.get(&key).unwrap();
        assert_eq!(val, value_of(i));
    }

    for i in 0..50 {
        let key = key_of(i);
        let val = value_of(i + 100);
        memtable.put(&key, &val);
    }

    for i in 0..50 {
        let key = key_of(i);
        let val = memtable.get(&key).unwrap();
        assert_eq!(val, value_of(i + 100));
    }
}

#[test]
fn test_memtable_iter() {
    let mut memtable = MemTable::create();
    for i in 0..100 {
        let key = key_of(i);
        let val = value_of(i);
        memtable.put(&key, &val);
    }

    {
        let mut iter = memtable.scan(Bound::Unbounded, Bound::Unbounded);
        for i in 0..100 {
            assert!(iter.is_valid(), "{i}");
            let key = key_of(i);
            let value = value_of(i);
            assert_kv(i, &key, &value);
            iter.next().unwrap();
        }
    }

    for idx in 0..100 {
        let mut iter = memtable.scan(Bound::Included(&key_of(idx)), Bound::Unbounded);
        for i in idx..100 {
            assert!(iter.is_valid(), "{i}");
            let key = key_of(i);
            let value = value_of(i);
            assert_kv(i, &key, &value);
            iter.next().unwrap();
        }
    }

    {
        let mut iter = memtable.scan(Bound::Included(&key_of(12)), Bound::Excluded(&key_of(46)));
        for i in 12..46 {
            assert!(iter.is_valid(), "{i}");
            let key = key_of(i);
            let value = value_of(i);
            assert_kv(i, &key, &value);
            iter.next().unwrap();
        }
        assert!(!iter.is_valid());
    }
}

#[test]
fn test_memtable_to_sst() {
    let mut memtable = MemTable::create();
    for i in 0..100 {
        let key = key_of(i);
        let val = value_of(i);
        memtable.put(&key, &val);
    }

    let mut builder = SSTableBuilder::new(100);
    memtable.flush(&mut builder);
    let sst = builder.build(1, None).unwrap();
    let mut iter = SSTableIterator::create_and_seek_to_first(Arc::new(sst)).unwrap();
    for i in 0..100 {
        assert!(iter.is_valid(), "{i}");
        let key = key_of(i);
        let val = value_of(i);
        assert_kv(i, &key, &val);
        iter.next().unwrap();
    }
    assert!(!iter.is_valid());
}

#[test]
fn memtable_overwrite_returns_latest() {
    let mut t = MemTable::create();
    t.put(b"k", b"v1");
    t.put(b"k", b"v2");
    assert_eq!(t.get(b"k"), Some(b"v2".to_vec()));
    assert_eq!(t.get(b"other"), None);
    // the size counts every put, overwritten ones included
    assert_eq!(t.estimated_size(), 6);
}

#[test]
fn memtable_scan_yields_actual_entries_in_range() {
    let mut t = MemTable::create();
    for i in (0..20).rev() {
        t.put(&key_of(i), &value_of(i));
    }
    let mut iter = t.scan(Bound::Excluded(&key_of(12)), Bound::Included(&key_of(15)));
    for i in 13..=15 {
        assert!(iter.is_valid());
        assert_kv(i, iter.key(), iter.value());
        iter.next().unwrap();
    }
    assert!(!iter.is_valid());
    let empty = t.scan(Bound::Included(&key_of(30)), Bound::Unbounded);
    assert!(!empty.is_valid());
}
