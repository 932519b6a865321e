use super::{
    blocks_bytes, flatten_blocks, lemma_sorted_flatten, metas_bytes, metas_describe, BlockMeta,
    SsTable,
};
use crate::block::builder::{block_accepts, lemma_block_size_is_encoded_len, within_target};
use crate::block::{
    block_bytes, entries_bytes, entries_fit, entry_offsets, lemma_read_back, Block, BlockBuilder,
    Entry,
};
use crate::codec::{be64, bytes_as_slice, bytes_from_vec};
use crate::iterators::keys_strictly_increasing;
use crate::key::{lemma_lex_transitive, lex_lt, KeyBytes, KeySlice};
use std::sync::Arc;
use vstd::prelude::*;

verus! {

/// Builds an SSTable from key-value pairs.
pub struct SsTableBuilder {
    builder: BlockBuilder,
    first_key: Vec<u8>,
    last_key: Vec<u8>,
    data: Vec<u8>,
    pub(crate) meta: Vec<BlockMeta>,
    block_size: usize,
    /// The entries of each finished block.
    blocks: Ghost<Seq<Seq<Entry>>>,
}

impl SsTableBuilder {
    /// The entries of each finished block, in order.
    pub closed spec fn blocks(&self) -> Seq<Seq<Entry>> {
        self.blocks@
    }

    /// The entries of the block being filled.
    pub closed spec fn pending(&self) -> Seq<Entry> {
        self.builder.entries()
    }

    /// The target block size that the builder was made with.
    pub closed spec fn target_size(&self) -> nat {
        self.block_size as nat
    }

    /// The metadata of the finished blocks.
    pub closed spec fn metas(&self) -> Seq<BlockMeta> {
        self.meta@
    }

    /// The encoded finished blocks, one after another.
    pub closed spec fn data_bytes(&self) -> Seq<u8> {
        self.data@
    }

    /// Every entry added so far, in order.
    pub open spec fn all_entries(&self) -> Seq<Entry> {
        flatten_blocks(self.blocks()) + self.pending()
    }

    /// The key added last, or the empty key before the first entry.
    pub open spec fn last_added_key(&self) -> Seq<u8> {
        if self.all_entries().len() == 0 {
            Seq::empty()
        } else {
            self.all_entries().last().0
        }
    }

    /// The key added first, or the empty key before the first entry.
    pub open spec fn first_added_key(&self) -> Seq<u8> {
        if self.all_entries().len() == 0 {
            Seq::empty()
        } else {
            self.all_entries()[0].0
        }
    }

    /// The finished blocks, and the block being filled if it holds anything.
    pub open spec fn sealed_blocks(&self) -> Seq<Seq<Entry>> {
        if self.pending().len() > 0 {
            self.blocks().push(self.pending())
        } else {
            self.blocks()
        }
    }

    /// Adding an entry with key `key` and value `value` finishes the current
    /// block first, because the entry does not fit in it.
    pub open spec fn add_splits(&self, key: Seq<u8>, value: Seq<u8>) -> bool {
        !block_accepts(self.pending(), self.target_size(), key, value)
    }

    /// The builder's fields hold its finished blocks, their metadata and the
    /// keys seen so far.
    pub closed spec fn wf(&self) -> bool {
        let all = self.all_entries();
        &&& self.builder.wf()
        &&& self.builder.target_size() == self.block_size
        &&& self.data@ == blocks_bytes(self.blocks@)
        &&& metas_describe(self.meta@, self.blocks@)
        &&& forall|j: int| 0 <= j < self.blocks@.len() ==> entries_fit(#[trigger] self.blocks@[j])
            && self.blocks@[j].len() <= 16384
        &&& forall|j: int| 0 <= j < self.blocks@.len() ==> within_target(#[trigger] self.blocks@[j], self.block_size as nat)
        &&& keys_strictly_increasing(all)
        &&& forall|i: int| 0 <= i < all.len() ==> (#[trigger] all[i]).0.len() > 0
        &&& self.first_key@ == self.first_added_key()
        &&& self.last_key@ == self.last_added_key()
    }

    /// What a well-formed builder promises: the keys added are non-empty and
    /// strictly increasing; the sealed blocks hold every entry in order,
    /// each block's keys below the next block's; every sealed block is
    /// well-sized and encodes within the target size unless it holds a
    /// single entry; and between adds the data holds the encoded finished
    /// blocks, the first at offset zero, that the metadata describes.
    pub proof fn lemma_wf(&self)
        requires
            self.wf(),
        ensures
            self.data_bytes() == blocks_bytes(self.blocks()),
            metas_describe(self.metas(), self.blocks()),
            self.metas().len() > 0 ==> self.metas()[0].offset == 0,
            keys_strictly_increasing(self.all_entries()),
            forall|i: int| 0 <= i < self.all_entries().len() ==> (#[trigger] self.all_entries()[i]).0.len() > 0,
            flatten_blocks(self.sealed_blocks()) == self.all_entries(),
            forall|j: int|
                0 <= j < self.sealed_blocks().len() ==> {
                    &&& (#[trigger] self.sealed_blocks()[j]).len() > 0
                    &&& entries_fit(self.sealed_blocks()[j])
                    &&& self.sealed_blocks()[j].len() <= 16384
                    &&& within_target(self.sealed_blocks()[j], self.target_size())
                    &&& keys_strictly_increasing(self.sealed_blocks()[j])
                    &&& (self.sealed_blocks()[j].len() >= 2 ==> block_bytes(
                        entries_bytes(self.sealed_blocks()[j]),
                        entry_offsets(self.sealed_blocks()[j]),
                    ).len() <= self.target_size())
                },
            forall|j: int, k: int, a: int, b: int|
                0 <= j < k < self.sealed_blocks().len() && 0 <= a < self.sealed_blocks()[j].len() && 0 <= b
                    < self.sealed_blocks()[k].len() ==> lex_lt(
                    (#[trigger] self.sealed_blocks()[j][a]).0,
                    (#[trigger] self.sealed_blocks()[k][b]).0,
                ),
    {
        let sb = self.sealed_blocks();
        self.builder.lemma_wf();
        if self.pending().len() > 0 {
            assert(sb.drop_last() =~= self.blocks@);
            assert forall|j: int| 0 <= j < sb.len() implies (#[trigger] sb[j]).len() > 0 && entries_fit(sb[j])
                && sb[j].len() <= 16384 && within_target(sb[j], self.target_size()) by {
                if j < self.blocks@.len() {
                    assert(sb[j] == self.blocks@[j]);
                }
            }
        } else {
            assert(self.all_entries() =~= flatten_blocks(self.blocks@));
        }
        if self.blocks@.len() > 0 {
            assert(self.blocks@.take(0) =~= Seq::<Seq<Entry>>::empty());
        }
        lemma_sorted_flatten(sb);
        assert forall|j: int| 0 <= j < sb.len() && (#[trigger] sb[j]).len() >= 2 implies block_bytes(
            entries_bytes(sb[j]),
            entry_offsets(sb[j]),
        ).len() <= self.target_size() by {
            lemma_block_size_is_encoded_len(sb[j]);
        }
    }

    /// Create a builder based on target block size.
    pub fn new(block_size: usize) -> (b: Self)
        ensures
            b.wf(),
            b.target_size() == block_size,
            b.blocks() == Seq::<Seq<Entry>>::empty(),
            b.pending() == Seq::<Entry>::empty(),
    {
        let b = Self {
            builder: BlockBuilder::new(block_size),
            first_key: Vec::new(),
            last_key: Vec::new(),
            data: Vec::new(),
            meta: Vec::new(),
            block_size,
            blocks: Ghost(Seq::empty()),
        };
        assert(b.all_entries() =~= Seq::<Entry>::empty());
        b
    }

    /// Appends a finished block holding `es` and records its metadata.
    fn push_block(&mut self, block: Block, Ghost(es): Ghost<Seq<Entry>>)
        requires
            block.data_view() == entries_bytes(es),
            block.offsets_view() == crate::block::entry_offsets(es),
            entries_fit(es),
            0 < es.len() <= 16384,
            old(self).data@ == blocks_bytes(old(self).blocks@),
            metas_describe(old(self).meta@, old(self).blocks@),
            forall|j: int| 0 <= j < old(self).blocks@.len() ==> entries_fit(#[trigger] old(self).blocks@[j])
                && old(self).blocks@[j].len() <= 16384,
        ensures
            final(self).blocks@ == old(self).blocks@.push(es),
            final(self).meta@.len() == old(self).meta@.len() + 1,
            final(self).meta@.take(old(self).meta@.len() as int) == old(self).meta@,
            final(self).data@ == blocks_bytes(final(self).blocks@),
            metas_describe(final(self).meta@, final(self).blocks@),
            forall|j: int| 0 <= j < final(self).blocks@.len() ==> entries_fit(#[trigger] final(self).blocks@[j])
                && final(self).blocks@[j].len() <= 16384,
            final(self).builder == old(self).builder,
            final(self).first_key == old(self).first_key,
            final(self).last_key == old(self).last_key,
            final(self).block_size == old(self).block_size,
    {
        proof {
            lemma_read_back(es, 0);
            lemma_read_back(es, es.len() - 1);
        }
        let block_meta = BlockMeta {
            offset: self.data.len(),
            first_key: block.get_key_at(0).into_key_bytes(),
            last_key: block.get_key_at(block.offsets.len() - 1).into_key_bytes(),
        };
        let ghost old_blocks = self.blocks@;
        let ghost old_meta = self.meta@;
        self.meta.push(block_meta);
        assert(self.meta@.take(old_meta.len() as int) =~= old_meta);

        let data = block.encode();
        crate::codec::put_slice(&mut self.data, bytes_as_slice(&data));
        proof {
            let nb = old_blocks.push(es);
            assert(nb.drop_last() =~= old_blocks);
            assert forall|j: int| 0 <= j < nb.len() implies {
                &&& (#[trigger] self.meta@[j]).offset == blocks_bytes(nb.take(j)).len()
                &&& self.meta@[j].first_key@ == nb[j][0].0
                &&& self.meta@[j].last_key@ == nb[j].last().0
            } by {
                if j < old_blocks.len() {
                    assert(nb.take(j) =~= old_blocks.take(j));
                    assert(self.meta@[j] == old_meta[j]);
                    assert(nb[j] == old_blocks[j]);
                } else {
                    assert(nb.take(j) =~= old_blocks);
                }
            }
            assert forall|j: int| 0 <= j < nb.len() implies (#[trigger] nb[j]).len() > 0 by {
                if j < old_blocks.len() {
                    assert(nb[j] == old_blocks[j]);
                }
            }
            assert forall|j: int| 0 <= j < nb.len() implies entries_fit(#[trigger] nb[j]) && nb[j].len()
                <= 16384 by {
                if j < old_blocks.len() {
                    assert(nb[j] == old_blocks[j]);
                }
            }
            self.blocks = Ghost(nb);
        }
    }

    /// Adds a key-value pair to the table; when the current block is full it
    /// is finished first and the pair starts a new block.
    pub fn add(&mut self, key: KeySlice, value: &[u8])
        requires
            old(self).wf(),
            key@.len() <= 65535,
            value@.len() <= 65535,
            lex_lt(old(self).last_added_key(), key@),
            !old(self).add_splits(key@, value@) ==> entries_bytes(old(self).pending()).len() <= 65535,
        ensures
            final(self).wf(),
            final(self).target_size() == old(self).target_size(),
            final(self).all_entries() == old(self).all_entries().push((key@, value@)),
            if old(self).add_splits(key@, value@) {
                &&& final(self).blocks() == old(self).blocks().push(old(self).pending())
                &&& final(self).pending() == seq![(key@, value@)]
            } else {
                &&& final(self).blocks() == old(self).blocks()
                &&& final(self).pending() == old(self).pending().push((key@, value@))
            },
        decreases
            if old(self).add_splits(key@, value@) {
                1int
            } else {
                0int
            },
    {
        let ghost all = self.all_entries();
        let ghost e: Entry = (key@, value@);
        proof {
            self.builder.lemma_wf();
        }
        if self.builder.add(key, value) {
            let new_key = key.to_key_vec().into_inner();
            self.last_key = new_key.clone();
            assert(self.last_key@ =~= new_key@);
            if self.first_key.is_empty() {
                self.first_key = new_key;
            }
            proof {
                let na = all.push(e);
                assert(self.all_entries() =~= na);
                assert forall|a: int, b: int| 0 <= a < b < na.len() implies lex_lt(
                    #[trigger] na[a].0,
                    #[trigger] na[b].0,
                ) by {
                    if b == na.len() - 1 {
                        if a < b - 1 {
                            lemma_lex_transitive(na[a].0, all.last().0, key@);
                        }
                    } else {
                        assert(na[a] == all[a] && na[b] == all[b]);
                    }
                }
                assert forall|i: int| 0 <= i < na.len() implies (#[trigger] na[i]).0.len() > 0 by {
                    if i < all.len() {
                        assert(na[i] == all[i]);
                    }
                }
                if all.len() > 0 {
                    assert(all[0].0.len() > 0);
                }
            }
            return;
        }
        let mut old_builder = BlockBuilder::new(self.block_size);
        std::mem::swap(&mut old_builder, &mut self.builder);
        let ghost es = old_builder.entries();
        proof {
            old_builder.lemma_wf();
        }
        let block = old_builder.build();
        self.push_block(block, Ghost(es));
        proof {
            assert(self.blocks@.drop_last() =~= old(self).blocks@);
            assert(self.all_entries() =~= all);
        }
        self.add(key, value);
    }

    /// The estimated size of the table: the size of its finished data blocks,
    /// which far outweigh the metadata.
    pub fn estimated_size(&self) -> (size: usize)
        requires
            self.wf(),
        ensures
            size == blocks_bytes(self.blocks()).len(),
    {
        self.data.len()
    }

    /// Builds the SSTable: finishes the last block and appends the block
    /// metadata; the returned table holds the bytes of its file.
    pub fn build<C, F>(self, id: usize, block_cache: Option<Arc<C>>) -> (table: SsTable<C, F>)
        requires
            self.wf(),
        ensures
            table.block_meta@.len() == self.metas().len() + if self.pending().len() > 0 {
                1int
            } else {
                0int
            },
            table.block_meta@.take(self.metas().len() as int) == self.metas(),
            forall|j: int| 0 <= j < self.sealed_blocks().len() ==> entries_fit(#[trigger] self.sealed_blocks()[j])
                && self.sealed_blocks()[j].len() <= 16384,
            table.block_cache == block_cache,
            table.bloom is None,
            table.block_meta_offset == blocks_bytes(self.sealed_blocks()).len(),
            metas_describe(table.block_meta@, self.sealed_blocks()),
            table.file_data@ == blocks_bytes(self.sealed_blocks()) + metas_bytes(table.block_meta@) + be64(
                table.block_meta_offset as u64,
            ),
            table.id == id,
            table.first_key@ == self.first_added_key(),
            table.last_key@ == self.last_added_key(),
            table.max_ts == 0,
    {
        let mut this = self;
        proof {
            this.builder.lemma_wf();
        }
        if !this.builder.is_empty() {
            let mut old_builder = BlockBuilder::new(this.block_size);
            std::mem::swap(&mut old_builder, &mut this.builder);
            let ghost es = old_builder.entries();
            proof {
                old_builder.lemma_wf();
            }
            let block = old_builder.build();
            this.push_block(block, Ghost(es));
        } else {
            assert(this.meta@.take(self.meta@.len() as int) =~= self.meta@);
        }
        assert(this.blocks@ == self.sealed_blocks());
        proof {
            let bs = this.blocks@;
            assert forall|j: int| 0 <= j < this.meta@.len() implies (#[trigger] this.meta@[j]).first_key@.len()
                <= 65535 && this.meta@[j].last_key@.len() <= 65535 by {
                assert(entries_fit(bs[j]));
                assert(bs[j][0].0.len() <= 65535);
                assert(bs[j][bs[j].len() - 1].0.len() <= 65535);
            }
        }
        let block_meta_offset = BlockMeta::encode_block_meta(this.meta.as_slice(), &mut this.data);
        SsTable {
            file_data: this.data,
            block_meta: this.meta,
            block_meta_offset,
            id,
            first_key: KeyBytes::from_bytes(bytes_from_vec(this.first_key)),
            last_key: KeyBytes::from_bytes(bytes_from_vec(this.last_key)),
            block_cache,
            bloom: None,
            max_ts: 0,
        }
    }

    /// Builds the SSTable with id 0.
    pub fn build_for_test<C, F>(self) -> (table: SsTable<C, F>)
        requires
            self.wf(),
        ensures
            table.block_meta@.len() == self.metas().len() + if self.pending().len() > 0 {
                1int
            } else {
                0int
            },
            table.block_meta@.take(self.metas().len() as int) == self.metas(),
            table.block_cache is None,
            table.bloom is None,
            table.max_ts == 0,
            table.block_meta_offset == blocks_bytes(self.sealed_blocks()).len(),
            metas_describe(table.block_meta@, self.sealed_blocks()),
            table.file_data@ == blocks_bytes(self.sealed_blocks()) + metas_bytes(table.block_meta@) + be64(
                table.block_meta_offset as u64,
            ),
            table.id == 0,
            table.first_key@ == self.first_added_key(),
            table.last_key@ == self.last_added_key(),
    {
        self.build(0, None)
    }
}

} // verus!
