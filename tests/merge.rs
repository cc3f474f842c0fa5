use mini_lsm::iterators::merge_iterator::MergeIterator;
use mini_lsm::iterators::StorageIterator;
use mini_lsm::mem_table::MemTable;
use mini_lsm::sstable::builder::SSTableBuilder;
use mini_lsm::sstable::iterator::SSTableIterator;
use std::ops::Bound;
use std::sync::Arc;

fn key_of(val: usize) -> Vec<u8> {
    format!("key_{:05}", val).into_bytes()
}

fn value_of(val: usize) -> Vec<u8> {
    format!("val_{:010}", val).into_bytes()
}

fn assert_kv(i: usize, key: &[u8], value: &[u8]) {
    assert_eq!(key, key_of(i), "expected key: {:?}, actual key: {:?}", key_of(i), key);
    assert_eq!(value, value_of(i), "expected value: {:?}, actual value: {:?}", value_of(i), value);
}

fn generate_sstable_test<T, K>(size: usize, map: T, reduce: K)
where
    T: Fn(&mut Vec<SSTableBuilder>),
    K: Fn(Vec<Box<SSTableIterator>>),
{
    let mut builder = Vec::new();
    for _ in 0..size {
        builder.push(SSTableBuilder::new(300));
    }

    map(&mut builder);

    let mut iters = vec![];
    for (idx, sst) in builder.into_iter().enumerate() {
        let sst = Arc::new(sst.build(idx, None).unwrap());
        iters.push(Box::new(SSTableIterator::create_and_seek_to_first(sst).unwrap()));
    }

    reduce(iters);
}

#[test]
fn test_merge_iterator_non_overlap() {
    let map = |sst: &mut Vec<SSTableBuilder>| {
        for i in 0..100 {
            let key = key_of(i);
            let value = value_of(i);
            if i & 1 == 0 {
                sst[0].add(&key, &value)
            } else {
                sst[1].add(&key, &value)
            }
        }
    };

    let reduce = |iters: Vec<Box<SSTableIterator>>| {
        let mut iter = MergeIterator::create(iters);
        for i in 0..100 {
            assert!(iter.is_valid(), "{i}");
            let key = iter.key();
            let value = iter.value();
            assert_kv(i, &key, &value);
            iter.next().unwrap();
        }
    };

    generate_sstable_test(2, map, reduce);
}

#[test]
fn test_merge_iterator_overlap() {
    let map = |sst: &mut Vec<SSTableBuilder>| {
        for idx in 0..3 {
            for i in 0..100 {
                let key = key_of(i);
                let value = value_of(0);
                sst[idx].add(&key, &value);
            }
        }
    };

    let reduce = |iters: Vec<Box<SSTableIterator>>| {
        let mut iter = MergeIterator::create(iters);
        for i in 0..100 {
            assert!(iter.is_valid(), "{i}");
            let key = iter.key();
            let value = iter.value();
            assert_eq!(key, key_of(i), "expected key: {:?}, actual key: {:?}", key_of(i), key);
            assert_eq!(value, value_of(0), "expected value: {:?}, actual value: {:?}", value_of(0), value);
            iter.next().unwrap();
        }
    };

    generate_sstable_test(3, map, reduce);
}

#[test]
fn test_merge_iterator_test1() {
    let map = |sst: &mut Vec<SSTableBuilder>| {
        for i in 0..100 {
            let key = key_of(i);
            if i & 1 == 0 {
                sst[0].add(&key, &value_of(0));
            } else {
                sst[1].add(&key, &value_of(1));
            }
            sst[2].add(&key, &value_of(2));
        }
    };

    let reduce = |iters: Vec<Box<SSTableIterator>>| {
        let mut iter = MergeIterator::create(iters);
        for i in 0..100 {
            assert!(iter.is_valid(), "{i}");
            let key = iter.key();
            let value = iter.value();
            assert_eq!(key, key_of(i), "expected key: {:?}, actual key: {:?}", key_of(i), key);
            if i & 1 == 0 {
                assert_eq!(value, value_of(0), "expected value: {:?}, actual value: {:?}", value_of(0), value);
            } else {
                assert_eq!(value, value_of(1), "expected value: {:?}, actual value: {:?}", value_of(1), value);
            }
            iter.next().unwrap();
        }
    };

    generate_sstable_test(3, map, reduce);
}

#[test]
fn merge_of_nothing_is_invalid() {
    let iter: MergeIterator<SSTableIterator> = MergeIterator::create(Vec::new());
    assert!(!iter.is_valid());
}

#[test]
fn merge_of_exhausted_iterators_is_invalid() {
    let t = MemTable::create();
    let a = Box::new(t.scan(Bound::Unbounded, Bound::Unbounded));
    let b = Box::new(t.scan(Bound::Unbounded, Bound::Unbounded));
    let iter = MergeIterator::create(vec![a, b]);
    assert!(!iter.is_valid());
}

#[test]
fn merge_prefers_lower_index_and_yields_key_once() {
    let mut newer = MemTable::create();
    newer.put(b"b", b"new");
    let mut older = MemTable::create();
    older.put(b"a", b"1");
    older.put(b"b", b"old");
    older.put(b"c", b"3");
    let iters = vec![
        Box::new(newer.scan(Bound::Unbounded, Bound::Unbounded)),
        Box::new(older.scan(Bound::Unbounded, Bound::Unbounded)),
    ];
    let mut iter = MergeIterator::create(iters);
    let mut seen = Vec::new();
    while iter.is_valid() {
        seen.push((iter.key().to_vec(), iter.value().to_vec()));
        iter.next().unwrap();
    }
    assert_eq!(
        seen,
        vec![
            (b"a".to_vec(), b"1".to_vec()),
            (b"b".to_vec(), b"new".to_vec()),
            (b"c".to_vec(), b"3".to_vec()),
        ]
    );
}

#[test]
fn merge_skips_every_repeat_of_the_key_in_later_sources() {
    let mut first = SSTableBuilder::new(300);
    first.add(b"a", b"1");
    first.add(b"b", b"x");
    let mut second = SSTableBuilder::new(300);
    second.add(b"a", b"2");
    second.add(b"a", b"3");
    second.add(b"b", b"y");
    let iters = vec![
        Box::new(SSTableIterator::create_and_seek_to_first(Arc::new(first.build(0, None).unwrap())).unwrap()),
        Box::new(SSTableIterator::create_and_seek_to_first(Arc::new(second.build(1, None).unwrap())).unwrap()),
    ];
    let mut iter = MergeIterator::create(iters);
    let mut seen = Vec::new();
    while iter.is_valid() {
        seen.push((iter.key().to_vec(), iter.value().to_vec()));
        iter.next().unwrap();
    }
    assert_eq!(seen, vec![(b"a".to_vec(), b"1".to_vec()), (b"b".to_vec(), b"x".to_vec())]);
}
