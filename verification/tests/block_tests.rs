use mini_lsm::block::{Block, BlockBuilder};
use mini_lsm::key::KeySlice;

fn key(s: &[u8]) -> KeySlice<'_> {
    KeySlice::from_slice(s)
}

fn build_block(pairs: &[(&[u8], &[u8])], block_size: usize) -> Block {
    let mut builder = BlockBuilder::new(block_size);
    for (k, v) in pairs {
        assert!(builder.add(key(k), v));
    }
    builder.build()
}

#[test]
fn encode_writes_the_documented_layout() {
    let block = build_block(&[(b"ab", b"xyz"), (b"c", b"")], 4096);
    let encoded = block.encode();
    let expected: Vec<u8> = vec![
        0, 2, b'a', b'b', 0, 3, b'x', b'y', b'z', // first entry
        0, 1, b'c', 0, 0, // second entry
        0, 0, 0, 9, // offsets
        0, 2, // number of entries
    ];
    assert_eq!(&encoded[..], &expected[..]);
}

#[test]
fn encode_of_an_empty_block_is_its_count() {
    let block = BlockBuilder::new(64).build();
    assert_eq!(&block.encode()[..], &[0u8, 0][..]);
}

#[test]
fn decode_inverts_encode() {
    let block = build_block(&[(b"key1", b"value1"), (b"key2", b"v2"), (b"key3", b"")], 4096);
    let encoded = block.encode();
    let decoded = Block::decode(&encoded);
    assert_eq!(decoded.data, block.data);
    assert_eq!(decoded.offsets, block.offsets);
    assert_eq!(&decoded.encode()[..], &encoded[..]);
}

#[test]
fn decode_splits_entries_and_offsets() {
    let raw: Vec<u8> = vec![9, 8, 7, 0, 1, 0, 2, 0, 2];
    let block = Block::decode(&raw);
    assert_eq!(block.data, vec![9u8, 8, 7]);
    assert_eq!(block.offsets, vec![1u16, 2]);
}

#[test]
fn built_block_reads_back_keys_and_values() {
    let pairs: Vec<(Vec<u8>, Vec<u8>)> = (0..20u8)
        .map(|i| (vec![b'k', i], vec![i; i as usize]))
        .collect();
    let mut builder = BlockBuilder::new(4096);
    for (k, v) in &pairs {
        assert!(builder.add(key(k), v));
    }
    let block = builder.build();
    for (i, (k, v)) in pairs.iter().enumerate() {
        assert_eq!(block.get_key_at(i).raw_ref(), &k[..]);
        let (start, end) = block.get_value_range_at(i);
        assert_eq!(&block.data[start..end], &v[..]);
        let (k2, (s2, e2)) = block.get_kv_at(i);
        assert_eq!(k2.raw_ref(), &k[..]);
        assert_eq!((s2, e2), (start, end));
    }
}

#[test]
fn value_range_is_exact() {
    let block = build_block(&[(b"ab", b"xyz"), (b"c", b"")], 4096);
    assert_eq!(block.get_value_range_at(0), (6, 9));
    assert_eq!(block.get_value_range_at(1), (14, 14));
}

#[test]
fn binary_search_finds_first_key_not_less() {
    let block = build_block(&[(b"b", b"1"), (b"d", b"2"), (b"f", b"3"), (b"h", b"4")], 4096);
    assert_eq!(block.binary_search(key(b"a")), 0);
    assert_eq!(block.binary_search(key(b"b")), 0);
    assert_eq!(block.binary_search(key(b"c")), 1);
    assert_eq!(block.binary_search(key(b"f")), 2);
    assert_eq!(block.binary_search(key(b"g")), 3);
    assert_eq!(block.binary_search(key(b"h")), 3);
    assert_eq!(block.binary_search(key(b"z")), 4);
    assert_eq!(block.binary_search(key(b"")), 0);
}

#[test]
fn binary_search_on_an_empty_block() {
    let block = BlockBuilder::new(64).build();
    assert_eq!(block.binary_search(key(b"x")), 0);
}

#[test]
fn add_refuses_an_entry_past_the_block_size() {
    // size of a block = entries + 2 per offset + 2; one entry here takes 6 + 1 + 1 bytes.
    let mut builder = BlockBuilder::new(20);
    assert!(builder.add(key(b"a"), b"1"));
    // 8 (entry) + 2 (offset) + 2 (count) + 8 (new entry) = 20: fits exactly.
    assert!(builder.add(key(b"b"), b"2"));
    // 16 + 4 + 2 + 8 = 30 > 20: refused.
    assert!(!builder.add(key(b"c"), b"3"));
    let block = builder.build();
    assert_eq!(block.offsets.len(), 2);
}

#[test]
fn add_takes_an_oversized_first_entry() {
    let mut builder = BlockBuilder::new(4);
    assert!(builder.is_empty());
    assert!(builder.add(key(b"big-key"), b"big-value"));
    assert!(!builder.is_empty());
    assert!(!builder.add(key(b"x"), b""));
}

#[test]
fn a_pair_with_an_empty_key_makes_the_block_non_empty() {
    let mut builder = BlockBuilder::new(4);
    assert!(builder.is_empty());
    assert!(builder.add(key(b""), b"v"));
    assert!(!builder.is_empty());
    // The block now holds a pair, so the next one must fit the target size.
    assert!(!builder.add(key(b""), b"w"));
    assert!(!builder.add(key(b"k"), b"x"));
    assert_eq!(builder.build().offsets, vec![0u16]);
}

#[test]
fn encode_inverts_decode() {
    // Any bytes whose trailing count leaves room for the offset table decode,
    // and encode back to the same bytes.
    let raw: Vec<u8> = vec![1, 2, 3, 4, 5, 0xff, 0xee, 0x12, 0x34, 0, 2];
    let block = Block::decode(&raw);
    assert_eq!(block.data, vec![1u8, 2, 3, 4, 5]);
    assert_eq!(block.offsets, vec![0xffeeu16, 0x1234]);
    assert_eq!(&block.encode()[..], &raw[..]);
}

#[test]
fn a_block_of_several_entries_stays_within_the_target_size() {
    let mut builder = BlockBuilder::new(100);
    let mut added = 0;
    for i in 0..50u8 {
        if builder.add(key(&[b'k', i]), &[i; 7]) {
            added += 1;
        }
    }
    let block = builder.build();
    assert_eq!(block.offsets.len(), added);
    assert!(added >= 2);
    assert!(block.encode().len() <= 100);
    assert_eq!(block.offsets[0], 0);
    assert!(block.offsets.windows(2).all(|w| w[0] < w[1]));
}
