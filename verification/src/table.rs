//! Sorted string tables: a run of encoded blocks followed by the block
//! metadata and the position where that metadata starts.
//!
//! Layout: `block* | meta* | meta offset (u64)`, where each meta is
//! `block offset (u64) | first_key_len (u16) | first_key | last_key_len (u16) | last_key`,
//! all integers big-endian.

pub mod builder;

pub use builder::SsTableBuilder;

use crate::block::{
    block_bytes, decodable, decode_spec, entries_bytes, entries_fit, entry_offsets, key_at,
    lemma_decode_encode, lemma_read_back, value_len_in_bounds, value_range_at, Entry,
};
use crate::codec::{
    be16, be16_value, be64, be_value, lemma_be16_value, lemma_be64_value, put_slice, put_u16, put_u64,
};
use crate::iterators::keys_strictly_increasing;
use crate::key::{lex_lt, KeyBytes};
use vstd::prelude::*;

verus! {

/// The encodings of the blocks holding `bs`, one after another.
pub open spec fn blocks_bytes(bs: Seq<Seq<Entry>>) -> Seq<u8>
    decreases bs.len(),
{
    if bs.len() == 0 {
        Seq::empty()
    } else {
        blocks_bytes(bs.drop_last()) + block_bytes(entries_bytes(bs.last()), entry_offsets(bs.last()))
    }
}

/// The entries of all blocks, in order.
pub open spec fn flatten_blocks(bs: Seq<Seq<Entry>>) -> Seq<Entry>
    decreases bs.len(),
{
    if bs.len() == 0 {
        Seq::empty()
    } else {
        flatten_blocks(bs.drop_last()) + bs.last()
    }
}

/// The entries of the first `i + 1` blocks are those of the first `i`
/// followed by block `i`'s.
pub proof fn lemma_flatten_step(bs: Seq<Seq<Entry>>, i: int)
    requires
        0 <= i < bs.len(),
    ensures
        flatten_blocks(bs.take(i + 1)) == flatten_blocks(bs.take(i)) + bs[i],
{
    assert(bs.take(i + 1).drop_last() =~= bs.take(i));
    assert(bs.take(i + 1).last() == bs[i]);
}

/// Later blocks start further into the flattened entries.
pub proof fn lemma_flatten_len_mono(bs: Seq<Seq<Entry>>, i: int, k: int)
    requires
        0 <= i < k <= bs.len(),
    ensures
        flatten_blocks(bs.take(i)).len() + bs[i].len() <= flatten_blocks(bs.take(k)).len(),
    decreases k - i,
{
    lemma_flatten_step(bs, i);
    if i + 1 < k {
        lemma_flatten_len_mono(bs, i + 1, k);
    }
}

/// Entry `a` of block `j` sits in the flattened entries right after the
/// entries of the blocks before it.
pub proof fn lemma_flatten_index(bs: Seq<Seq<Entry>>, j: int, a: int)
    requires
        0 <= j < bs.len(),
        0 <= a < bs[j].len(),
    ensures
        flatten_blocks(bs.take(j)).len() + a < flatten_blocks(bs).len(),
        flatten_blocks(bs)[flatten_blocks(bs.take(j)).len() + a] == bs[j][a],
    decreases bs.len(),
{
    let d = bs.drop_last();
    if j == bs.len() - 1 {
        assert(bs.take(j) =~= d);
    } else {
        assert(d.take(j) =~= bs.take(j));
        lemma_flatten_index(d, j, a);
    }
}

/// When all entries are in strictly increasing key order, so is each
/// block, and every key of a block is below every key of a later block.
pub proof fn lemma_sorted_flatten(bs: Seq<Seq<Entry>>)
    requires
        keys_strictly_increasing(flatten_blocks(bs)),
    ensures
        forall|j: int| 0 <= j < bs.len() ==> keys_strictly_increasing(#[trigger] bs[j]),
        forall|j: int, k: int, a: int, b: int|
            0 <= j < k < bs.len() && 0 <= a < bs[j].len() && 0 <= b < bs[k].len() ==> lex_lt(
                (#[trigger] bs[j][a]).0,
                (#[trigger] bs[k][b]).0,
            ),
{
    let f = flatten_blocks(bs);
    assert forall|j: int| 0 <= j < bs.len() implies keys_strictly_increasing(#[trigger] bs[j]) by {
        assert forall|a: int, b: int| 0 <= a < b < bs[j].len() implies lex_lt(
            #[trigger] bs[j][a].0,
            #[trigger] bs[j][b].0,
        ) by {
            lemma_flatten_index(bs, j, a);
            lemma_flatten_index(bs, j, b);
        }
    }
    assert forall|j: int, k: int, a: int, b: int|
        0 <= j < k < bs.len() && 0 <= a < bs[j].len() && 0 <= b < bs[k].len() implies lex_lt(
        (#[trigger] bs[j][a]).0,
        (#[trigger] bs[k][b]).0,
    ) by {
        lemma_flatten_index(bs, j, a);
        lemma_flatten_index(bs, k, b);
        lemma_flatten_len_mono(bs, j, k);
    }
}

/// Where a block starts in the table, and its first and last keys.
pub struct BlockMeta {
    /// Offset of this data block.
    pub offset: usize,
    /// The first key of the data block.
    pub first_key: KeyBytes,
    /// The last key of the data block.
    pub last_key: KeyBytes,
}

/// One block's metadata as the table stores it.
pub open spec fn meta_bytes(m: BlockMeta) -> Seq<u8> {
    be64(m.offset as u64) + be16(m.first_key@.len() as u16) + m.first_key@ + be16(
        m.last_key@.len() as u16,
    ) + m.last_key@
}

/// The metadata of all blocks, one after another.
pub open spec fn metas_bytes(ms: Seq<BlockMeta>) -> Seq<u8>
    decreases ms.len(),
{
    if ms.len() == 0 {
        Seq::empty()
    } else {
        metas_bytes(ms.drop_last()) + meta_bytes(ms.last())
    }
}

/// The metadata of the first `j` blocks is a prefix of the metadata of all
/// of them.
pub proof fn lemma_metas_bytes_prefix(ms: Seq<BlockMeta>, j: int)
    requires
        0 <= j <= ms.len(),
    ensures
        metas_bytes(ms.take(j)).len() <= metas_bytes(ms).len(),
        metas_bytes(ms).take(metas_bytes(ms.take(j)).len() as int) == metas_bytes(ms.take(j)),
    decreases ms.len(),
{
    if j == ms.len() {
        assert(ms.take(j) =~= ms);
        assert(metas_bytes(ms).take(metas_bytes(ms).len() as int) =~= metas_bytes(ms));
    } else {
        let d = ms.drop_last();
        assert(d.take(j) =~= ms.take(j));
        lemma_metas_bytes_prefix(d, j);
        let a = metas_bytes(d);
        let l = metas_bytes(ms.take(j)).len() as int;
        assert((a + meta_bytes(ms.last())).take(l) =~= a.take(l));
    }
}

/// Reading the metadata back: the metadata of block `j` starts where that
/// of the blocks before it ends, and holds the block's offset in eight
/// big-endian bytes, then the first key's length in two, the first key, the
/// last key's length in two, and the last key.
pub proof fn lemma_metas_read_back(ms: Seq<BlockMeta>, j: int)
    requires
        0 <= j < ms.len(),
        ms[j].first_key@.len() <= 65535,
        ms[j].last_key@.len() <= 65535,
    ensures
        ({
            let s = metas_bytes(ms);
            let p = metas_bytes(ms.take(j)).len() as int;
            let f = ms[j].first_key@.len() as int;
            let l = ms[j].last_key@.len() as int;
            &&& metas_bytes(ms.take(j + 1)).len() == p + 12 + f + l
            &&& p + 12 + f + l <= s.len()
            &&& be_value(s.subrange(p, p + 8)) == ms[j].offset
            &&& be16_value(s[p + 8], s[p + 9]) == f
            &&& s.subrange(p + 10, p + 10 + f) == ms[j].first_key@
            &&& be16_value(s[p + 10 + f], s[p + 11 + f]) == l
            &&& s.subrange(p + 12 + f, p + 12 + f + l) == ms[j].last_key@
        }),
{
    let s = metas_bytes(ms);
    let m = ms[j];
    let mb = meta_bytes(m);
    let t = ms.take(j + 1);
    assert(t.drop_last() =~= ms.take(j));
    assert(t.last() == m);
    lemma_metas_bytes_prefix(ms, j + 1);
    let p = metas_bytes(ms.take(j)).len() as int;
    let f = m.first_key@.len() as int;
    let l = m.last_key@.len() as int;
    assert forall|x: int| 0 <= x < mb.len() implies s[p + x] == #[trigger] mb[x] by {
        assert(s.take(p + mb.len())[p + x] == (metas_bytes(ms.take(j)) + mb)[p + x]);
    }
    lemma_be64_value(m.offset as u64);
    lemma_be16_value(f as u16);
    lemma_be16_value(l as u16);
    assert(s.subrange(p, p + 8) =~= be64(m.offset as u64)) by {
        assert forall|x: int| 0 <= x < 8 implies #[trigger] s.subrange(p, p + 8)[x] == be64(m.offset as u64)[x] by {
            assert(s[p + x] == mb[x]);
        }
    }
    assert(s[p + 8] == mb[8] && s[p + 9] == mb[9]);
    assert(s.subrange(p + 10, p + 10 + f) =~= m.first_key@) by {
        assert forall|x: int| 0 <= x < f implies #[trigger] s.subrange(p + 10, p + 10 + f)[x] == m.first_key@[x] by {
            assert(s[p + 10 + x] == mb[10 + x]);
        }
    }
    assert(s[p + 10 + f] == mb[10 + f] && s[p + 11 + f] == mb[11 + f]);
    assert(s.subrange(p + 12 + f, p + 12 + f + l) =~= m.last_key@) by {
        assert forall|x: int| 0 <= x < l implies #[trigger] s.subrange(p + 12 + f, p + 12 + f + l)[x] == m.last_key@[x] by {
            assert(s[p + 12 + f + x] == mb[12 + f + x]);
        }
    }
}

/// The metadata `ms` describes the blocks holding `bs`, laid out one after
/// another from the start of the table.
pub open spec fn metas_describe(ms: Seq<BlockMeta>, bs: Seq<Seq<Entry>>) -> bool {
    &&& ms.len() == bs.len()
    &&& forall|j: int| 0 <= j < bs.len() ==> (#[trigger] bs[j]).len() > 0
    &&& forall|j: int|
        0 <= j < bs.len() ==> {
            &&& (#[trigger] ms[j]).offset == blocks_bytes(bs.take(j)).len()
            &&& ms[j].first_key@ == bs[j][0].0
            &&& ms[j].last_key@ == bs[j].last().0
        }
}

/// The encodings of the first `j` blocks are a prefix of the encodings of
/// all of them.
pub proof fn lemma_blocks_bytes_prefix(bs: Seq<Seq<Entry>>, j: int)
    requires
        0 <= j <= bs.len(),
    ensures
        blocks_bytes(bs.take(j)).len() <= blocks_bytes(bs).len(),
        blocks_bytes(bs).take(blocks_bytes(bs.take(j)).len() as int) == blocks_bytes(bs.take(j)),
    decreases bs.len(),
{
    if j == bs.len() {
        assert(bs.take(j) =~= bs);
        assert(blocks_bytes(bs).take(blocks_bytes(bs).len() as int) =~= blocks_bytes(bs));
    } else {
        let d = bs.drop_last();
        assert(d.take(j) =~= bs.take(j));
        lemma_blocks_bytes_prefix(d, j);
        let a = blocks_bytes(d);
        let l = blocks_bytes(bs.take(j)).len() as int;
        assert((a + block_bytes(entries_bytes(bs.last()), entry_offsets(bs.last()))).take(l) =~= a.take(l));
    }
}

/// Reading a table back: in a file that starts with the blocks (`extra` is
/// what follows them, such as the metadata), the bytes between block `j`'s
/// offset and the next block's (or the end of the blocks) are block `j`'s
/// encoding, which decodes to exactly that block's entry area and offsets.
pub proof fn lemma_table_block_read_back(bs: Seq<Seq<Entry>>, ms: Seq<BlockMeta>, extra: Seq<u8>, j: int)
    requires
        metas_describe(ms, bs),
        forall|k: int| 0 <= k < bs.len() ==> (#[trigger] bs[k]).len() <= 65535,
        0 <= j < bs.len(),
    ensures
        ({
            let end = if j + 1 < bs.len() {
                ms[j + 1].offset as int
            } else {
                blocks_bytes(bs).len() as int
            };
            let raw = (blocks_bytes(bs) + extra).subrange(ms[j].offset as int, end);
            &&& ms[j].offset <= end <= blocks_bytes(bs).len()
            &&& raw == block_bytes(entries_bytes(bs[j]), entry_offsets(bs[j]))
            &&& decodable(raw)
            &&& decode_spec(raw) == (entries_bytes(bs[j]), entry_offsets(bs[j]))
        }),
{
    let b = block_bytes(entries_bytes(bs[j]), entry_offsets(bs[j]));
    let t = bs.take(j + 1);
    assert(t.drop_last() =~= bs.take(j));
    assert(t.last() == bs[j]);
    assert(blocks_bytes(t) == blocks_bytes(bs.take(j)) + b);
    lemma_blocks_bytes_prefix(bs, j + 1);
    let start = ms[j].offset as int;
    let end = start + b.len();
    assert(start == blocks_bytes(bs.take(j)).len());
    if j + 1 < bs.len() {
        assert(ms[j + 1].offset == blocks_bytes(bs.take(j + 1)).len());
    } else {
        assert(bs.take(j + 1) =~= bs);
    }
    let all = blocks_bytes(bs);
    assert(all.subrange(start, end) =~= b) by {
        assert forall|x: int| 0 <= x < b.len() implies all.subrange(start, end)[x] == b[x] by {
            assert(all.take(end)[start + x] == blocks_bytes(t)[start + x]);
        }
    }
    assert((all + extra).subrange(start, end) =~= all.subrange(start, end));
    assert(entry_offsets(bs[j]).len() == bs[j].len());
    lemma_decode_encode(entries_bytes(bs[j]), entry_offsets(bs[j]));
}

/// Reading one entry of a table back: decoding block `j`'s bytes from the
/// file as above, its `t`-th entry reads back as the block's `t`-th key and
/// value.
pub proof fn lemma_table_entry_read_back(
    bs: Seq<Seq<Entry>>,
    ms: Seq<BlockMeta>,
    extra: Seq<u8>,
    j: int,
    t: int,
)
    requires
        metas_describe(ms, bs),
        forall|k: int| 0 <= k < bs.len() ==> (#[trigger] bs[k]).len() <= 65535 && entries_fit(bs[k]),
        0 <= j < bs.len(),
        0 <= t < bs[j].len(),
    ensures
        ({
            let end = if j + 1 < bs.len() {
                ms[j + 1].offset as int
            } else {
                blocks_bytes(bs).len() as int
            };
            let raw = (blocks_bytes(bs) + extra).subrange(ms[j].offset as int, end);
            let d = decode_spec(raw).0;
            let off = decode_spec(raw).1[t] as int;
            &&& decodable(raw)
            &&& value_len_in_bounds(d, off)
            &&& key_at(d, off) == bs[j][t].0
            &&& d.subrange(value_range_at(d, off).0, value_range_at(d, off).1) == bs[j][t].1
        }),
{
    lemma_table_block_read_back(bs, ms, extra, j);
    assert(entries_fit(bs[j]));
    lemma_read_back(bs[j], t);
}

impl BlockMeta {
    /// Encode block meta to a buffer, followed by the position in the buffer
    /// where the metadata starts, and return that position.
    pub fn encode_block_meta(block_meta: &[BlockMeta], buf: &mut Vec<u8>) -> (meta_offset: usize)
        requires
            forall|j: int| 0 <= j < block_meta@.len() ==> (#[trigger] block_meta@[j]).first_key@.len() <= 65535
                && block_meta@[j].last_key@.len() <= 65535,
        ensures
            meta_offset == old(buf)@.len(),
            final(buf)@ == old(buf)@ + metas_bytes(block_meta@) + be64(meta_offset as u64),
    {
        let offset = buf.len();
        let mut i: usize = 0;
        while i < block_meta.len()
            invariant
                i <= block_meta@.len(),
                offset == old(buf)@.len(),
                buf@ == old(buf)@ + metas_bytes(block_meta@.take(i as int)),
                forall|j: int| 0 <= j < block_meta@.len() ==> (#[trigger] block_meta@[j]).first_key@.len() <= 65535
                    && block_meta@[j].last_key@.len() <= 65535,
            decreases block_meta@.len() - i,
        {
            let meta = &block_meta[i];
            assert(block_meta@.take(i + 1).drop_last() =~= block_meta@.take(i as int));
            assert(*meta == block_meta@[i as int]);
            let ghost before = buf@;
            put_u64(buf, meta.offset as u64);
            let first_key = meta.first_key.raw_ref();
            put_u16(buf, first_key.len() as u16);
            put_slice(buf, first_key);
            let last_key = meta.last_key.raw_ref();
            put_u16(buf, last_key.len() as u16);
            put_slice(buf, last_key);
            assert(buf@ =~= before + meta_bytes(block_meta@[i as int]));
            i = i + 1;
        }
        assert(block_meta@.take(i as int) =~= block_meta@);
        put_u64(buf, offset as u64);
        offset
    }
}

/// A built table: the bytes that go to its file, and what it knows of its
/// blocks. `C` is the type of the block cache that the table shares and `F`
/// that of its bloom filter.
pub struct SsTable<C, F> {
    /// The bytes of the table file.
    pub file_data: Vec<u8>,
    /// The metadata of the data blocks.
    pub block_meta: Vec<BlockMeta>,
    /// Where the metadata starts in the file.
    pub block_meta_offset: usize,
    /// The table's id.
    pub id: usize,
    /// The smallest key in the table.
    pub first_key: KeyBytes,
    /// The largest key in the table.
    pub last_key: KeyBytes,
    /// The cache of decoded blocks that the table shares, if any.
    pub block_cache: Option<std::sync::Arc<C>>,
    /// The table's bloom filter, if any.
    pub bloom: Option<F>,
    /// The largest timestamp in the table.
    pub max_ts: u64,
}

} // verus!
