use mini_lsm::block::Block;
use mini_lsm::key::KeySlice;
use mini_lsm::table::SsTableBuilder;
use std::sync::Arc;

fn key_of(i: usize) -> Vec<u8> {
    format!("key_{:03}", i).into_bytes()
}

fn value_of(i: usize) -> Vec<u8> {
    format!("value_{:03}", i).into_bytes()
}

fn filled_builder(n: usize, block_size: usize) -> SsTableBuilder {
    let mut builder = SsTableBuilder::new(block_size);
    for i in 0..n {
        builder.add(KeySlice::from_slice(&key_of(i)), &value_of(i));
    }
    builder
}

#[test]
fn empty_builder_has_no_data() {
    let builder = SsTableBuilder::new(128);
    assert_eq!(builder.estimated_size(), 0);
    let table = builder.build_for_test::<(), ()>();
    assert_eq!(table.block_meta.len(), 0);
    assert_eq!(table.block_meta_offset, 0);
    assert_eq!(table.file_data, vec![0u8; 8]);
    assert_eq!(table.first_key.raw_ref(), b"");
    assert_eq!(table.last_key.raw_ref(), b"");
}

#[test]
fn add_splits_blocks_when_full() {
    // Each entry takes 2 + 7 + 2 + 9 = 20 bytes, 22 with its offset.
    let builder = filled_builder(10, 70);
    // A block of three entries is 3 * 22 + 2 = 68 bytes; a fourth does not fit.
    // Three blocks of three entries are finished, the tenth entry is pending.
    assert_eq!(builder.estimated_size(), 3 * 68);
    let table = builder.build::<(), ()>(7, None);
    assert_eq!(table.id, 7);
    assert_eq!(table.max_ts, 0);
    assert_eq!(table.block_meta.len(), 4);
    for (j, meta) in table.block_meta.iter().enumerate() {
        assert_eq!(meta.offset, j * 68);
        assert_eq!(meta.first_key.raw_ref(), &key_of(3 * j)[..]);
        let last = std::cmp::min(3 * j + 2, 9);
        assert_eq!(meta.last_key.raw_ref(), &key_of(last)[..]);
    }
    assert_eq!(table.first_key.raw_ref(), &key_of(0)[..]);
    assert_eq!(table.last_key.raw_ref(), &key_of(9)[..]);
    assert_eq!(table.block_meta_offset, 3 * 68 + 24);
}

#[test]
fn built_table_blocks_decode_to_the_added_entries() {
    let table = filled_builder(25, 100).build::<(), ()>(1, None);
    let data = &table.file_data;
    let mut next = 0;
    for (j, meta) in table.block_meta.iter().enumerate() {
        let end = if j + 1 < table.block_meta.len() {
            table.block_meta[j + 1].offset
        } else {
            table.block_meta_offset
        };
        let block = Block::decode(&data[meta.offset..end]);
        for i in 0..block.offsets.len() {
            let (k, (s, e)) = block.get_kv_at(i);
            assert_eq!(k.raw_ref(), &key_of(next)[..]);
            assert_eq!(&block.data[s..e], &value_of(next)[..]);
            next += 1;
        }
    }
    assert_eq!(next, 25);
}

#[test]
fn built_table_ends_with_metadata_and_its_offset() {
    let table = filled_builder(2, 4096).build::<(), ()>(3, None);
    let data = &table.file_data;
    let n = data.len();
    let tail: [u8; 8] = data[n - 8..].try_into().unwrap();
    assert_eq!(u64::from_be_bytes(tail) as usize, table.block_meta_offset);
    let meta = &data[table.block_meta_offset..n - 8];
    let mut expected: Vec<u8> = Vec::new();
    expected.extend_from_slice(&0u64.to_be_bytes());
    expected.extend_from_slice(&[0, 7]);
    expected.extend_from_slice(&key_of(0));
    expected.extend_from_slice(&[0, 7]);
    expected.extend_from_slice(&key_of(1));
    assert_eq!(meta, &expected[..]);
    // One block holding both entries: 2 * 20 bytes of entries, 4 of offsets, 2 of count.
    assert_eq!(table.block_meta_offset, 46);
}

#[test]
fn a_large_entry_gets_a_block_of_its_own() {
    let mut builder = SsTableBuilder::new(32);
    builder.add(KeySlice::from_slice(b"a"), &[1u8; 100]);
    builder.add(KeySlice::from_slice(b"b"), b"2");
    let table = builder.build::<(), ()>(0, None);
    assert_eq!(table.block_meta.len(), 2);
    assert_eq!(table.block_meta[0].first_key.raw_ref(), b"a");
    assert_eq!(table.block_meta[1].first_key.raw_ref(), b"b");
    assert_eq!(table.block_meta[1].offset, 2 + 1 + 2 + 100 + 2 + 2);
}

#[test]
fn build_keeps_the_block_cache_and_has_no_bloom_filter() {
    let cache = Arc::new(42u32);
    let table = filled_builder(3, 4096).build::<u32, ()>(5, Some(cache.clone()));
    assert!(Arc::ptr_eq(table.block_cache.as_ref().unwrap(), &cache));
    assert!(table.bloom.is_none());
    assert_eq!(table.max_ts, 0);
    let table = filled_builder(3, 4096).build_for_test::<u32, ()>();
    assert!(table.block_cache.is_none());
    assert_eq!(table.id, 0);
}
