use mini_lsm::block::builder::BlockBuilder;
use mini_lsm::block::iterator::BlockIterator;
use mini_lsm::block::Block;
use std::sync::Arc;

#[test]
fn test_block_build_single_key() {
    // key_len + val_len + num_of_elemnts = 6
    // key + val = 7
    // offset = 2
    {
        let mut builder = BlockBuilder::new(6 + 7 + 2);
        assert!(builder.add(b"123", b"4567"));
        assert!(!builder.add(b"", b""));
        let block = builder.build();
        assert_eq!(block.len(), 1);
    }

    {
        let mut builder = BlockBuilder::new(6 + 7 + 1);
        assert!(!builder.add(b"123", b"4567"));
        let block = builder.build();
        assert_eq!(block.len(), 0);
    }
}

fn key_of(val: usize) -> Vec<u8> {
    format!("key_{:03}", val).into_bytes()
}

fn value_of(val: usize) -> Vec<u8> {
    format!("val_{:010}", val).into_bytes()
}

fn generate_block_size(idx: usize) -> Block {
    let mut builder = BlockBuilder::new(10000);
    for idx in 0..idx {
        let key = key_of(idx);
        let value = value_of(idx);
        assert!(builder.add(&key[..], &value[..]));
    }
    builder.build()
}

#[test]
fn test_block_build_add() {
    _ = generate_block_size(100);
}

#[test]
fn test_block_encode() {
    let block = generate_block_size(100);
    _ = block.encode();
}

#[test]
fn test_block_decode_empty() {
    let block = generate_block_size(0);
    let encoded = block.encode();
    let decoded_block = Block::decode(&encoded).unwrap();
    assert_eq!(block.offsets, decoded_block.offsets);
    assert_eq!(block.data, decoded_block.data);
}

#[test]
fn test_block_decode_one() {
    let block = generate_block_size(1);
    let encoded = block.encode();
    let decoded_block = Block::decode(&encoded).unwrap();
    assert_eq!(block.offsets, decoded_block.offsets);
    assert_eq!(block.data, decoded_block.data);
}

#[test]
fn test_block_decode() {
    let block = generate_block_size(100);
    let encoded = block.encode();
    let decoded_block = Block::decode(&encoded).unwrap();
    assert_eq!(block.offsets, decoded_block.offsets);
    assert_eq!(block.data, decoded_block.data);
}

#[test]
fn test_block_multiple_keys() {
    let mut builder = BlockBuilder::new(300);
    for idx in 0..11 {
        let key = key_of(idx);
        let value = value_of(idx);
        assert!(builder.add(&key[..], &value[..]));
    }
    let block = builder.build();
    let block = Arc::new(block);
    let mut iter = BlockIterator::create_and_seek_to_first(block);
    for i in 0..11 {
        let key = iter.key();
        let value = iter.value();
        assert_eq!(key, key_of(i), "expected key: {:?}, actual key: {:?}", key_of(i), key);
        assert_eq!(value, value_of(i), "expected value: {:?}, actual value: {:?}", value_of(i), value);
        iter.next();
    }
}

#[test]
fn test_block_iterator() {
    let block = Arc::new(generate_block_size(100));
    let mut iter = BlockIterator::create_and_seek_to_first(block);
    for _ in 0..5 {
        for i in 0..100 {
            let key = iter.key();
            let value = iter.value();
            assert_eq!(key, key_of(i), "expected key: {:?}, actual key: {:?}", key_of(i), key);
            assert_eq!(value, value_of(i), "expected value: {:?}, actual value: {:?}", value_of(i), value);
            iter.next();
        }
        assert!(!iter.is_valid());
        iter.seek_to_first();
    }
}

#[test]
fn test_block_seek_key() {
    let block = Arc::new(generate_block_size(100));
    let mut iter = BlockIterator::create_and_seek_to_first(block);

    for _ in 0..5 {
        for start in 0..100 {
            let key = key_of(start);
            iter.seek_to_key(&key);

            for i in start..100 {
                let key = iter.key();
                let value = iter.value();
                assert_eq!(key, key_of(i), "expected key: {:?}, actual key: {:?}", key_of(i), key);
                assert_eq!(value, value_of(i), "expected value: {:?}, actual value: {:?}", value_of(i), value);
                iter.next();
            }
        }
    }
}

#[test]
fn block_builder_too_small_for_any_entry() {
    let mut builder = BlockBuilder::new(14);
    assert!(!builder.add(b"123", b"4567"));
    assert!(builder.is_empty());
}

#[test]
fn block_encoding_layout() {
    let mut builder = BlockBuilder::new(100);
    assert!(builder.add(b"ab", b"c"));
    assert!(builder.add(b"d", b""));
    let block = builder.build();
    let encoded = block.encode();
    assert_eq!(
        encoded,
        vec![0, 2, b'a', b'b', 0, 1, b'c', 0, 1, b'd', 0, 0, 0, 0, 0, 7, 0, 2]
    );
    assert_eq!(encoded.len(), block.data.len() + 2 * block.offsets.len() + 2);
}

#[test]
fn block_decode_rejects_garbage() {
    assert!(Block::decode(&[]).is_none());
    assert!(Block::decode(&[0]).is_none());
    // count says one entry but there is no room for its offset
    assert!(Block::decode(&[0, 1]).is_none());
    // offset points past the entries
    assert!(Block::decode(&[0, 1, b'a', 0, 0, 0, 3, 0, 1]).is_none());
}

#[test]
fn block_decode_tolerates_slack_before_offsets() {
    let decoded = Block::decode(&[0, 1, b'a', 0, 0, 9, 9, 0, 0, 0, 1]).unwrap();
    assert_eq!(decoded.data, vec![0, 1, b'a', 0, 0]);
    assert_eq!(decoded.offsets, vec![0]);
    assert_eq!(decoded.key_at(0), b"a");
    assert_eq!(decoded.value_at(0), b"");
}

#[test]
fn block_seek_past_last_key_lands_on_last() {
    let block = Arc::new(generate_block_size(10));
    let iter = BlockIterator::create_and_seek_to_key(block, b"zzz");
    assert!(iter.is_valid());
    assert_eq!(iter.key(), key_of(9));
}

#[test]
fn block_seek_between_keys() {
    let block = Arc::new(generate_block_size(10));
    let iter = BlockIterator::create_and_seek_to_key(block, b"key_0045");
    assert_eq!(iter.key(), key_of(5));
}

#[test]
fn block_round_trip_keeps_entries() {
    let block = generate_block_size(100);
    let decoded = Block::decode(&block.encode()).unwrap();
    assert_eq!(decoded.len(), 100);
    for i in 0..100 {
        assert_eq!(decoded.key_at(i), &key_of(i)[..]);
        assert_eq!(decoded.value_at(i), &value_of(i)[..]);
    }
}
