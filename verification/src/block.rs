//! A block: a run of sorted key-value entries with an offset table.
//!
//! Layout of an encoded block:
//! `entry* | offset (u16)* | number of entries (u16)`, where each entry is
//! `key_len (u16) | key | value_len (u16) | value`, all integers big-endian.

pub mod builder;

use crate::codec::{
    be16, be16_value, bytes_view, get_u16, lemma_be16_bytes, lemma_be16_value, put_slice, put_u16,
    bytes_from_vec,
};
use crate::key::{compare_keys, lemma_lex_transitive, lex_lt, KeyOrder, KeySlice, KeyVec};
use bytes::Bytes;

pub use builder::BlockBuilder;
use vstd::prelude::*;


verus! {

/// A key and its value, as byte strings.
pub type Entry = (Seq<u8>, Seq<u8>);

/// One entry as a block stores it.
pub open spec fn entry_bytes(e: Entry) -> Seq<u8> {
    be16(e.0.len() as u16) + e.0 + be16(e.1.len() as u16) + e.1
}

/// The entries one after another, as a block stores them.
pub open spec fn entries_bytes(es: Seq<Entry>) -> Seq<u8>
    decreases es.len(),
{
    if es.len() == 0 {
        Seq::empty()
    } else {
        entries_bytes(es.drop_last()) + entry_bytes(es.last())
    }
}

/// Where each entry starts in `entries_bytes(es)`.
pub open spec fn entry_offsets(es: Seq<Entry>) -> Seq<u16> {
    Seq::new(es.len(), |i: int| entries_bytes(es.take(i)).len() as u16)
}

/// Every key and value is at most `u16::MAX` bytes long and every entry
/// starts at an offset that a `u16` holds.
pub open spec fn entries_fit(es: Seq<Entry>) -> bool {
    &&& forall|i: int| 0 <= i < es.len() ==> #[trigger] es[i].0.len() <= 65535 && es[i].1.len() <= 65535
    &&& forall|i: int| 0 <= i < es.len() ==> #[trigger] entries_bytes(es.take(i)).len() <= 65535
}

/// The offset table as a block stores it.
pub open spec fn offsets_bytes(offsets: Seq<u16>) -> Seq<u8>
    decreases offsets.len(),
{
    if offsets.len() == 0 {
        Seq::empty()
    } else {
        offsets_bytes(offsets.drop_last()) + be16(offsets.last())
    }
}

/// The encoding of a block with entry area `data` and offset table `offsets`.
pub open spec fn block_bytes(data: Seq<u8>, offsets: Seq<u16>) -> Seq<u8> {
    data + offsets_bytes(offsets) + be16(offsets.len() as u16)
}

/// The number of entries that the last two bytes of `s` announce.
pub open spec fn entry_count(s: Seq<u8>) -> int {
    be16_value(s[s.len() - 2], s[s.len() - 1])
}

/// `s` is long enough for the entry count at its end and the offset table
/// before it.
pub open spec fn decodable(s: Seq<u8>) -> bool {
    s.len() >= 2 && 2 + 2 * entry_count(s) <= s.len()
}

/// The entry area and offset table that `s` holds.
pub open spec fn decode_spec(s: Seq<u8>) -> (Seq<u8>, Seq<u16>) {
    let n = entry_count(s);
    let start = s.len() - 2 - 2 * n;
    (s.take(start), Seq::new(n as nat, |i: int| be16_value(s[start + 2 * i], s[start + 2 * i + 1]) as u16))
}

/// The length of the key of the entry at `off`.
pub open spec fn key_len_at(data: Seq<u8>, off: int) -> int {
    be16_value(data[off], data[off + 1])
}

/// The key of the entry at `off`.
pub open spec fn key_at(data: Seq<u8>, off: int) -> Seq<u8> {
    data.subrange(off + 2, off + 2 + key_len_at(data, off))
}

/// The key of the entry at `off` lies inside `data`.
pub open spec fn key_in_bounds(data: Seq<u8>, off: int) -> bool {
    0 <= off && off + 2 <= data.len() && off + 2 + key_len_at(data, off) <= data.len()
}

/// The value length of the entry at `off` lies inside `data` too.
pub open spec fn value_len_in_bounds(data: Seq<u8>, off: int) -> bool {
    key_in_bounds(data, off) && off + 2 + key_len_at(data, off) + 2 <= data.len()
}

/// The positions in `data` where the value of the entry at `off` begins and
/// ends, as its value length announces them.
pub open spec fn value_range_at(data: Seq<u8>, off: int) -> (int, int) {
    let vpos = off + 2 + key_len_at(data, off);
    (vpos + 2, vpos + 2 + be16_value(data[vpos], data[vpos + 1]))
}

/// A block is the smallest unit of read and caching in an LSM tree: a
/// collection of sorted key-value pairs.
pub struct Block {
    pub data: Vec<u8>,
    pub offsets: Vec<u16>,
}

impl Block {
    /// The entry area.
    pub open spec fn data_view(&self) -> Seq<u8> {
        self.data@
    }

    /// The offset table.
    pub open spec fn offsets_view(&self) -> Seq<u16> {
        self.offsets@
    }

    /// The key of entry `i`.
    pub open spec fn key_of(&self, i: int) -> Seq<u8> {
        key_at(self.data_view(), self.offsets_view()[i] as int)
    }

    /// Every entry's key lies inside the entry area.
    pub open spec fn keys_in_bounds(&self) -> bool {
        forall|i: int| 0 <= i < self.offsets_view().len() ==> #[trigger] key_in_bounds(self.data_view(), self.offsets_view()[i] as int)
    }

    /// Every key that a binary search for `key` over entries `l..r` reads lies
    /// inside the entry area.
    pub open spec fn search_in_bounds(&self, key: Seq<u8>, l: int, r: int) -> bool
        decreases r - l,
    {
        if l >= r {
            true
        } else {
            let mid = l + (r - l) / 2;
            &&& 0 <= mid < self.offsets_view().len()
            &&& key_in_bounds(self.data_view(), self.offsets_view()[mid] as int)
            &&& if !lex_lt(self.key_of(mid), key) {
                self.search_in_bounds(key, l, mid)
            } else {
                self.search_in_bounds(key, mid + 1, r)
            }
        }
    }

    /// A binary search reads only keys inside the entry area when every key
    /// lies there.
    pub proof fn lemma_search_in_bounds(&self, key: Seq<u8>, l: int, r: int)
        requires
            self.keys_in_bounds(),
            0 <= l,
            r <= self.offsets_view().len(),
        ensures
            self.search_in_bounds(key, l, r),
        decreases r - l,
    {
        if l < r {
            let mid = l + (r - l) / 2;
            self.lemma_search_in_bounds(key, l, mid);
            self.lemma_search_in_bounds(key, mid + 1, r);
        }
    }

    /// The keys are in strictly increasing order.
    pub open spec fn keys_sorted(&self) -> bool {
        forall|i: int, j: int| 0 <= i < j < self.offsets_view().len() ==> lex_lt(#[trigger] self.key_of(i), #[trigger] self.key_of(j))
    }

    /// Encodes the block in the layout described at the top of this module.
    pub fn encode(&self) -> (encoded: Bytes)
        requires
            self.offsets_view().len() <= 65535,
        ensures
            bytes_view(encoded) == block_bytes(self.data_view(), self.offsets_view()),
    {
        let mut buf: Vec<u8> = Vec::new();
        put_slice(&mut buf, self.data.as_slice());
        let mut i: usize = 0;
        while i < self.offsets.len()
            invariant
                i <= self.offsets@.len(),
                buf@ == self.data@ + offsets_bytes(self.offsets@.take(i as int)),
            decreases self.offsets@.len() - i,
        {
            assert(self.offsets@.take(i + 1).drop_last() =~= self.offsets@.take(i as int));
            put_u16(&mut buf, self.offsets[i]);
            i = i + 1;
        }
        assert(self.offsets@.take(i as int) =~= self.offsets@);
        let offset_len = self.offsets.len() as u16;
        put_u16(&mut buf, offset_len);
        bytes_from_vec(buf)
    }

    /// Decodes a block from the layout described at the top of this module.
    pub fn decode(data: &[u8]) -> (block: Self)
        requires
            decodable(data@),
        ensures
            (block.data_view(), block.offsets_view()) == decode_spec(data@),
    {
        let len = data.len();

        let mut count_buf = &data[len - 2..len];
        let count = get_u16(&mut count_buf) as usize;

        let offset_start = len - 2 - count * 2;
        let block_data = vstd::slice::slice_to_vec(&data[0..offset_start]);

        let mut offset_buf = &data[offset_start..len - 2];
        let mut offsets: Vec<u16> = Vec::with_capacity(count);

        let ghost spec_offsets = decode_spec(data@).1;
        let mut i: usize = 0;
        while i < count
            invariant
                count == entry_count(data@),
                offset_start == len - 2 - 2 * count,
                len == data@.len(),
                i <= count,
                offset_buf@ == data@.subrange(offset_start + 2 * i, len - 2),
                spec_offsets == decode_spec(data@).1,
                offsets@ == spec_offsets.take(i as int),
            decreases count - i,
        {
            let o = get_u16(&mut offset_buf);
            offsets.push(o);
            assert(offsets@ =~= spec_offsets.take(i + 1));
            assert(offset_buf@ =~= data@.subrange(offset_start + 2 * (i + 1), len - 2));
            i = i + 1;
        }
        assert(offsets@ =~= spec_offsets);

        Block { data: block_data, offsets }
    }

    /// The key of entry `index`.
    pub fn get_key_at(&self, index: usize) -> (key: KeyVec)
        requires
            index < self.offsets_view().len(),
            key_in_bounds(self.data_view(), self.offsets_view()[index as int] as int),
        ensures
            key@ == self.key_of(index as int),
    {
        let mut offset = self.offsets[index] as usize;

        let mut key_len_buf = &self.data.as_slice()[offset..offset + 2];
        let key_len = get_u16(&mut key_len_buf) as usize;

        offset += 2;
        let key_buf = vstd::slice::slice_to_vec(&self.data.as_slice()[offset..offset + key_len]);

        KeyVec::from_vec(key_buf)
    }

    /// The range of the entry area that holds the value of entry `index`.
    pub fn get_value_range_at(&self, index: usize) -> (range: (usize, usize))
        requires
            index < self.offsets_view().len(),
            value_len_in_bounds(self.data_view(), self.offsets_view()[index as int] as int),
        ensures
            range.0 == value_range_at(self.data_view(), self.offsets_view()[index as int] as int).0,
            range.1 == value_range_at(self.data_view(), self.offsets_view()[index as int] as int).1,
    {
        let mut offset = self.offsets[index] as usize;
        let mut key_len_buf = &self.data.as_slice()[offset..offset + 2];
        let key_len = get_u16(&mut key_len_buf) as usize;

        offset += 2 + key_len;
        let mut value_len_buf = &self.data.as_slice()[offset..offset + 2];
        let value_len = get_u16(&mut value_len_buf) as usize;
        offset += 2;
        (offset, offset + value_len)
    }

    /// The key of entry `index` and the range of its value.
    pub fn get_kv_at(&self, index: usize) -> (kv: (KeyVec, (usize, usize)))
        requires
            index < self.offsets_view().len(),
            value_len_in_bounds(self.data_view(), self.offsets_view()[index as int] as int),
        ensures
            kv.0@ == self.key_of(index as int),
            kv.1.0 == value_range_at(self.data_view(), self.offsets_view()[index as int] as int).0,
            kv.1.1 == value_range_at(self.data_view(), self.offsets_view()[index as int] as int).1,
    {
        let mut offset = self.offsets[index] as usize;

        let mut key_len_buf = &self.data.as_slice()[offset..offset + 2];
        let key_len = get_u16(&mut key_len_buf) as usize;

        offset += 2;
        let key_buf = vstd::slice::slice_to_vec(&self.data.as_slice()[offset..offset + key_len]);
        let key = KeyVec::from_vec(key_buf);

        offset += key_len;
        let mut value_len_buf = &self.data.as_slice()[offset..offset + 2];
        let value_len = get_u16(&mut value_len_buf) as usize;
        offset += 2;

        (key, (offset, offset + value_len))
    }

    /// The index of the first entry whose key is not less than `key`.
    pub fn binary_search(&self, key: KeySlice) -> (idx: usize)
        requires
            self.search_in_bounds(key@, 0, self.offsets_view().len() as int),
        ensures
            idx <= self.offsets_view().len(),
            idx < self.offsets_view().len() ==> !lex_lt(self.key_of(idx as int), key@),
            idx > 0 ==> lex_lt(self.key_of(idx - 1), key@),
            self.keys_sorted() ==> forall|i: int| 0 <= i < self.offsets_view().len() ==>
                (lex_lt(#[trigger] self.key_of(i), key@) <==> i < idx),
    {
        let offset_len = self.offsets.len();
        let mut l: usize = 0;
        let mut r: usize = offset_len;
        while l < r
            invariant
                offset_len == self.offsets_view().len(),
                self.search_in_bounds(key@, l as int, r as int),
                l <= r <= offset_len,
                r < offset_len ==> !lex_lt(self.key_of(r as int), key@),
                l > 0 ==> lex_lt(self.key_of(l - 1), key@),
            decreases r - l,
        {
            let mid = l + (r - l) / 2;
            let k = self.get_key_at(mid);
            if compare_keys(k.raw_ref(), key.raw_ref()) != KeyOrder::Less {
                r = mid;
            } else {
                l = mid + 1;
            }
        }
        proof {
            if self.keys_sorted() {
                assert forall|i: int| 0 <= i < offset_len implies (lex_lt(#[trigger] self.key_of(i), key@) <==> i < l) by {
                    if i < l - 1 {
                        lemma_lex_transitive(self.key_of(i), self.key_of(l - 1), key@);
                    }
                    if i > l && lex_lt(self.key_of(i), key@) {
                        lemma_lex_transitive(self.key_of(l as int), self.key_of(i), key@);
                    }
                }
            }
        }
        l
    }
}

/// Both the length of `offsets_bytes` and the two bytes of each offset in it.
pub proof fn lemma_offsets_bytes(offsets: Seq<u16>)
    ensures
        offsets_bytes(offsets).len() == 2 * offsets.len(),
        forall|i: int| 0 <= i < offsets.len() ==> {
            &&& #[trigger] offsets_bytes(offsets)[2 * i] == be16(offsets[i])[0]
            &&& offsets_bytes(offsets)[2 * i + 1] == be16(offsets[i])[1]
        },
    decreases offsets.len(),
{
    if offsets.len() > 0 {
        lemma_offsets_bytes(offsets.drop_last());
    }
}

/// Decoding the encoding of a block gives back that block.
pub proof fn lemma_decode_encode(data: Seq<u8>, offsets: Seq<u16>)
    requires
        offsets.len() <= 65535,
    ensures
        decodable(block_bytes(data, offsets)),
        decode_spec(block_bytes(data, offsets)) == (data, offsets),
{
    let s = block_bytes(data, offsets);
    lemma_offsets_bytes(offsets);
    lemma_be16_value(offsets.len() as u16);
    let n = offsets.len();
    assert(s[s.len() - 2] == be16(n as u16)[0]);
    assert(s[s.len() - 1] == be16(n as u16)[1]);
    assert(entry_count(s) == n);
    let start = s.len() - 2 - 2 * n;
    assert(start == data.len());
    assert(s.take(start) =~= data);
    let parsed = decode_spec(s).1;
    assert forall|i: int| 0 <= i < n implies parsed[i] == offsets[i] by {
        assert(s[start + 2 * i] == offsets_bytes(offsets)[2 * i]);
        assert(s[start + 2 * i + 1] == offsets_bytes(offsets)[2 * i + 1]);
        lemma_be16_value(offsets[i]);
    }
    assert(parsed =~= offsets);
}

/// Encoding the block that `s` decodes to gives back `s`.
pub proof fn lemma_encode_decode(s: Seq<u8>)
    requires
        decodable(s),
    ensures
        decode_spec(s).1.len() <= 65535,
        block_bytes(decode_spec(s).0, decode_spec(s).1) == s,
{
    let (data, offsets) = decode_spec(s);
    let n = entry_count(s);
    lemma_be16_bytes(s[s.len() - 2], s[s.len() - 1]);
    let start = s.len() - 2 - 2 * n;
    lemma_offsets_bytes(offsets);
    let t = block_bytes(data, offsets);
    assert(t.len() == s.len());
    assert(be16(offsets.len() as u16) == seq![s[s.len() - 2], s[s.len() - 1]]);
    assert forall|j: int| 0 <= j < s.len() implies t[j] == s[j] by {
        if j < start {
            assert(t[j] == data[j]);
            assert(t[j] == s[j]);
        } else if j >= s.len() - 2 {
            assert(t[j] == be16(offsets.len() as u16)[j - (s.len() - 2)]);
            assert(t[j] == s[j]);
        } else {
            assert(t[j] == offsets_bytes(offsets)[j - start]);
            let i = (j - start) / 2;
            lemma_be16_bytes(s[start + 2 * i], s[start + 2 * i + 1]);
            assert(0 <= i < n);
            assert(offsets[i] == be16_value(s[start + 2 * i], s[start + 2 * i + 1]) as u16);
            if (j - start) % 2 == 0 {
                assert(j == start + 2 * i);
                assert(t[j] == offsets_bytes(offsets)[2 * i]);
                assert(t[j] == s[j]);
            } else {
                assert(j == start + 2 * i + 1);
                assert(t[j] == offsets_bytes(offsets)[2 * i + 1]);
                assert(offsets_bytes(offsets)[2 * i] == be16(offsets[i])[0]);
                assert(t[j] == s[j]);
            }
        }
    }
    assert(t =~= s);
}

/// The encoding of a prefix of the entries is a prefix of the encoding of
/// all of them.
pub proof fn lemma_entries_bytes_prefix(es: Seq<Entry>, j: int)
    requires
        0 <= j <= es.len(),
    ensures
        entries_bytes(es.take(j)).len() <= entries_bytes(es).len(),
        entries_bytes(es).take(entries_bytes(es.take(j)).len() as int) == entries_bytes(es.take(j)),
    decreases es.len(),
{
    if j == es.len() {
        assert(es.take(j) =~= es);
        assert(entries_bytes(es).take(entries_bytes(es).len() as int) =~= entries_bytes(es));
    } else {
        let d = es.drop_last();
        assert(d.take(j) =~= es.take(j));
        lemma_entries_bytes_prefix(d, j);
        let a = entries_bytes(d);
        let l = entries_bytes(es.take(j)).len() as int;
        assert((a + entry_bytes(es.last())).take(l) =~= a.take(l));
    }
}

/// Appending an entry appends its encoding.
pub proof fn lemma_entries_bytes_push(es: Seq<Entry>, e: Entry)
    ensures
        entries_bytes(es.push(e)) == entries_bytes(es) + entry_bytes(e),
        entry_offsets(es.push(e)) == entry_offsets(es).push(entries_bytes(es).len() as u16),
{
    assert(es.push(e).drop_last() =~= es);
    assert forall|i: int| 0 <= i <= es.len() implies #[trigger] es.push(e).take(i) == es.take(i) by {
        assert(es.push(e).take(i) =~= es.take(i));
    }
    assert(es.push(e).take(es.len() as int) =~= es);
    assert(entry_offsets(es.push(e)) =~= entry_offsets(es).push(entries_bytes(es).len() as u16));
}

/// Each entry takes at least four bytes.
pub proof fn lemma_entries_bytes_len(es: Seq<Entry>)
    ensures
        entries_bytes(es).len() >= 4 * es.len(),
    decreases es.len(),
{
    if es.len() > 0 {
        lemma_entries_bytes_len(es.drop_last());
    }
}

/// The offsets of well-sized entries start at zero, strictly increase, and
/// each lies inside the entry area.
pub proof fn lemma_entry_offsets(es: Seq<Entry>)
    requires
        entries_fit(es),
    ensures
        es.len() > 0 ==> entry_offsets(es)[0] == 0,
        forall|i: int, j: int| 0 <= i < j < es.len() ==> #[trigger] entry_offsets(es)[i] < #[trigger] entry_offsets(es)[j],
        forall|i: int| 0 <= i < es.len() ==> (#[trigger] entry_offsets(es)[i]) < entries_bytes(es).len(),
{
    assert forall|i: int| 0 <= i < es.len() implies entries_bytes(#[trigger] es.take(i)).len() + 4 <= entries_bytes(
        es.take(i + 1),
    ).len() by {
        assert(es.take(i + 1).drop_last() =~= es.take(i));
    }
    if es.len() > 0 {
        assert(es.take(0) =~= Seq::<Entry>::empty());
    }
    assert forall|i: int, j: int| 0 <= i < j < es.len() implies #[trigger] entry_offsets(es)[i]
        < #[trigger] entry_offsets(es)[j] by {
        assert(es.take(j).take(i + 1) =~= es.take(i + 1));
        lemma_entries_bytes_prefix(es.take(j), i + 1);
        assert(entries_bytes(es.take(i)).len() <= 65535);
        assert(entries_bytes(es.take(j)).len() <= 65535);
    }
    assert forall|i: int| 0 <= i < es.len() implies (#[trigger] entry_offsets(es)[i]) < entries_bytes(es).len() by {
        lemma_entries_bytes_prefix(es, i + 1);
        assert(entries_bytes(es.take(i)).len() <= 65535);
    }
}

/// In the encoding of well-sized entries, the entry at the `i`-th offset reads
/// back as the `i`-th key and value.
pub proof fn lemma_read_back(es: Seq<Entry>, i: int)
    requires
        entries_fit(es),
        0 <= i < es.len(),
    ensures
        entry_offsets(es)[i] as int == entries_bytes(es.take(i)).len(),
        value_len_in_bounds(entries_bytes(es), entry_offsets(es)[i] as int),
        key_at(entries_bytes(es), entry_offsets(es)[i] as int) == es[i].0,
        value_range_at(entries_bytes(es), entry_offsets(es)[i] as int).1 <= entries_bytes(es).len(),
        entries_bytes(es).subrange(
            value_range_at(entries_bytes(es), entry_offsets(es)[i] as int).0,
            value_range_at(entries_bytes(es), entry_offsets(es)[i] as int).1,
        ) == es[i].1,
{
    let data = entries_bytes(es);
    let a = entries_bytes(es.take(i));
    let e = es[i];
    let eb = entry_bytes(e);
    assert(es.take(i + 1).drop_last() =~= es.take(i));
    assert(es.take(i + 1).last() == e);
    assert(entries_bytes(es.take(i + 1)) == a + eb);
    lemma_entries_bytes_prefix(es, i + 1);
    assert(es[i].0.len() <= 65535 && es[i].1.len() <= 65535);
    assert(a.len() <= 65535);
    let off = a.len() as int;
    assert(entry_offsets(es)[i] as int == off);
    let klen = e.0.len() as int;
    let vlen = e.1.len() as int;
    lemma_be16_value(klen as u16);
    lemma_be16_value(vlen as u16);
    assert forall|t: int| 0 <= t < eb.len() implies data[off + t] == #[trigger] eb[t] by {
        assert(data.take(off + eb.len())[off + t] == (a + eb)[off + t]);
    }
    assert(data[off] == eb[0]);
    assert(data[off + 1] == eb[1]);
    assert(key_len_at(data, off) == klen);
    assert(key_at(data, off) =~= e.0) by {
        assert forall|t: int| 0 <= t < klen implies key_at(data, off)[t] == e.0[t] by {
            assert(data[off + 2 + t] == eb[2 + t]);
        }
    }
    assert(data[off + 2 + klen] == eb[2 + klen]);
    assert(data[off + 2 + klen + 1] == eb[2 + klen + 1]);
    let r = value_range_at(data, off);
    assert(r.1 == off + 4 + klen + vlen);
    assert(data.subrange(r.0, r.1) =~= e.1) by {
        assert forall|t: int| 0 <= t < vlen implies data.subrange(r.0, r.1)[t] == e.1[t] by {
            assert(data[off + 4 + klen + t] == eb[4 + klen + t]);
        }
    }
}

} // verus!
