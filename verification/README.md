# mini_lsm

Verified pieces of a small log-structured merge tree, written in Verus.

- `src/block.rs`, `src/block/builder.rs`: the sorted block format (entries,
  offset table, entry count), its encoder and decoder, lookups and binary
  search, and the builder that fills a block up to a target size.
- `src/table.rs`, `src/table/builder.rs`: the table format (encoded blocks,
  block metadata, metadata offset) and the builder that splits entries into
  blocks.
- `src/iterators.rs`, `src/iterators/merge_iterator.rs`: the storage
  iterator interface and the iterator that merges several of them, taking
  the entry of the earliest iterator on equal keys.
- `src/key.rs`: keys and their lexicographic order.
- `src/codec.rs`: big-endian integers and the calls into the `bytes` crate.
- `app/`: writing a built table to a file.
