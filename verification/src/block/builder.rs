use super::{
    block_bytes, entries_bytes, entries_fit, entry_offsets, lemma_entries_bytes_len,
    lemma_entries_bytes_push, lemma_entry_offsets, lemma_offsets_bytes, Block, Entry,
};
use crate::codec::{put_slice, put_u16};
use crate::key::{KeySlice, KeyVec};
use vstd::prelude::*;

verus! {

/// The first non-empty key among the entries, or the empty key if there is none.
pub open spec fn first_nonempty_key(es: Seq<Entry>) -> Seq<u8>
    decreases es.len(),
{
    if es.len() == 0 {
        Seq::empty()
    } else {
        let p = first_nonempty_key(es.drop_last());
        if p.len() > 0 {
            p
        } else {
            es.last().0
        }
    }
}

/// The size of the encoded block that holds `es`.
pub open spec fn block_size_of(es: Seq<Entry>) -> nat {
    entries_bytes(es).len() + 2 * es.len() + 2
}

/// Whether a block builder holding `es`, made with expected size `target`,
/// takes an entry with key `key` and value `value`: the block is empty, or
/// the entry fits in the expected size.
pub open spec fn block_accepts(es: Seq<Entry>, target: nat, key: Seq<u8>, value: Seq<u8>) -> bool {
    es.len() == 0 || block_size_of(es) + 6 + key.len() + value.len() <= target
}

/// A block holding `es` fits in `target` bytes, unless it holds a single
/// entry: only one oversized pair can make a block exceed its target size.
pub open spec fn within_target(es: Seq<Entry>, target: nat) -> bool {
    es.len() >= 2 ==> block_size_of(es) <= target
}

/// `block_size_of` is the length of the encoded block that a builder of
/// `es` builds.
pub proof fn lemma_block_size_is_encoded_len(es: Seq<Entry>)
    ensures
        block_bytes(entries_bytes(es), entry_offsets(es)).len() == block_size_of(es),
{
    lemma_offsets_bytes(entry_offsets(es));
}

/// A builder takes an entry exactly when it is empty or the block with the
/// entry added encodes within the target size.
pub proof fn lemma_accepts_iff_fits(es: Seq<Entry>, target: nat, key: Seq<u8>, value: Seq<u8>)
    ensures
        block_accepts(es, target, key, value) <==> (es.len() == 0 || block_bytes(
            entries_bytes(es.push((key, value))),
            entry_offsets(es.push((key, value))),
        ).len() <= target),
{
    lemma_block_size_is_encoded_len(es.push((key, value)));
    lemma_block_size_push(es, (key, value));
}

/// Appending an entry grows the block by the entry and its offset.
pub proof fn lemma_block_size_push(es: Seq<Entry>, e: Entry)
    ensures
        block_size_of(es.push(e)) == block_size_of(es) + 6 + e.0.len() + e.1.len(),
{
    lemma_entries_bytes_push(es, e);
}

/// Builds a block.
pub struct BlockBuilder {
    /// Offsets of each key-value entries.
    offsets: Vec<u16>,
    /// All serialized key-value pairs in the block.
    data: Vec<u8>,
    /// The expected block size.
    block_size: usize,
    /// The first key in the block
    first_key: KeyVec,
    /// The entries added so far, in order.
    entries: Ghost<Seq<Entry>>,
}

impl BlockBuilder {
    /// The entries added so far, in order.
    pub closed spec fn entries(&self) -> Seq<Entry> {
        self.entries@
    }

    /// The expected block size that the builder was made with.
    pub closed spec fn target_size(&self) -> nat {
        self.block_size as nat
    }

    /// The builder's fields hold the encoding of its entries.
    pub closed spec fn wf(&self) -> bool {
        let es = self.entries@;
        &&& self.data@ == entries_bytes(es)
        &&& self.offsets@ == entry_offsets(es)
        &&& self.first_key@ == first_nonempty_key(es)
        &&& entries_fit(es)
        &&& es.len() <= 16384
        &&& entries_bytes(es).len() <= 196609
        &&& within_target(es, self.block_size as nat)
    }

    /// Whether `add` takes an entry with key `key` and value `value`: the block
    /// still counts as empty, or the entry fits in the expected size.
    pub open spec fn accepts(&self, key: Seq<u8>, value: Seq<u8>) -> bool {
        block_accepts(self.entries(), self.target_size(), key, value)
    }

    /// What the well-formedness of a builder says of its entries: they are
    /// well-sized, their offsets start at zero, strictly increase and lie
    /// inside the entry area, and the block exceeds the target size only
    /// when it holds a single entry.
    pub proof fn lemma_wf(&self)
        requires
            self.wf(),
        ensures
            entries_fit(self.entries()),
            self.entries().len() <= 16384,
            within_target(self.entries(), self.target_size()),
            self.entries().len() > 0 ==> entry_offsets(self.entries())[0] == 0,
            forall|i: int, j: int|
                0 <= i < j < self.entries().len() ==> #[trigger] entry_offsets(self.entries())[i]
                    < #[trigger] entry_offsets(self.entries())[j],
            forall|i: int|
                0 <= i < self.entries().len() ==> (#[trigger] entry_offsets(self.entries())[i]) < entries_bytes(
                    self.entries(),
                ).len(),
    {
        lemma_entry_offsets(self.entries());
    }

    /// Creates a new block builder.
    pub fn new(block_size: usize) -> (b: Self)
        ensures
            b.wf(),
            b.entries() == Seq::<Entry>::empty(),
            b.target_size() == block_size,
    {
        let b = Self {
            offsets: Vec::new(),
            data: Vec::new(),
            block_size,
            first_key: KeyVec::new(),
            entries: Ghost(Seq::empty()),
        };
        assert(entry_offsets(Seq::<Entry>::empty()) =~= Seq::<u16>::empty());
        b
    }

    fn get_size(&self) -> (size: usize)
        requires
            self.wf(),
        ensures
            size == block_size_of(self.entries()),
    {
        self.data.len() + self.offsets.len() * 2 + 2
    }

    /// Adds a key-value pair to the block. Returns false when the block is full.
    #[must_use]
    pub fn add(&mut self, key: KeySlice, value: &[u8]) -> (added: bool)
        requires
            old(self).wf(),
            key@.len() <= 65535,
            value@.len() <= 65535,
            old(self).accepts(key@, value@) ==> entries_bytes(old(self).entries()).len() <= 65535,
        ensures
            final(self).wf(),
            final(self).target_size() == old(self).target_size(),
            added == old(self).accepts(key@, value@),
            added <==> (old(self).entries().len() == 0 || block_bytes(
                entries_bytes(old(self).entries().push((key@, value@))),
                entry_offsets(old(self).entries().push((key@, value@))),
            ).len() <= old(self).target_size()),
            final(self).entries() == if added {
                old(self).entries().push((key@, value@))
            } else {
                old(self).entries()
            },
    {
        proof {
            lemma_accepts_iff_fits(self.entries@, self.block_size as nat, key@, value@);
        }
        let key_len = key.len() as u16;
        let value_len = value.len() as u16;
        let new_size = 2 + key.len() + 2 + value.len() + 2;
        if !self.is_empty() && self.get_size() + new_size > self.block_size {
            return false;
        }
        let ghost es = self.entries@;
        let ghost e: Entry = (key@, value@);
        let offset = self.data.len() as u16;
        self.offsets.push(offset);

        put_u16(&mut self.data, key_len);
        put_slice(&mut self.data, key.raw_ref());
        put_u16(&mut self.data, value_len);
        put_slice(&mut self.data, value);
        if self.first_key.is_empty() {
            self.first_key.append(key.raw_ref());
        }
        proof {
            lemma_entries_bytes_push(es, e);
            lemma_block_size_push(es, e);
            lemma_entries_bytes_len(es);
            let nes = es.push(e);
            assert(es.push(e).drop_last() =~= es);
            assert(self.data@ =~= entries_bytes(nes));
            assert forall|i: int| 0 <= i < nes.len() implies #[trigger] nes[i].0.len() <= 65535
                && nes[i].1.len() <= 65535 by {
                if i < es.len() {
                    assert(nes[i] == es[i]);
                    assert(es[i].0.len() <= 65535 && es[i].1.len() <= 65535);
                } else {
                    assert(nes[i] == e);
                    assert(e.0 == key@ && e.1 == value@);
                }
            }
            assert forall|i: int| 0 <= i < nes.len() implies #[trigger] entries_bytes(nes.take(i)).len()
                <= 65535 by {
                if i < es.len() {
                    assert(nes.take(i) =~= es.take(i));
                } else {
                    assert(nes.take(i) =~= es);
                }
            }
            self.entries = Ghost(nes);
        }
        true
    }

    /// Check if there is no key-value pair in the block.
    pub fn is_empty(&self) -> (empty: bool)
        requires
            self.wf(),
        ensures
            empty == (self.entries().len() == 0),
    {
        self.offsets.is_empty()
    }

    /// Finalize the block.
    pub fn build(self) -> (block: Block)
        requires
            self.wf(),
        ensures
            block.data_view() == entries_bytes(self.entries()),
            block.offsets_view() == entry_offsets(self.entries()),
    {
        Block { data: self.data, offsets: self.offsets }
    }
}

} // verus!
