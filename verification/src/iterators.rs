//! Iterators over sorted key-value entries.

pub mod merge_iterator;

use crate::block::Entry;
use crate::key::{lex_lt, KeySlice};
use vstd::prelude::*;

verus! {

#[verifier::external_type_specification]
#[verifier::external_body]
pub struct ExAnyhowError(anyhow::Error);

/// Dropping the first entry keeps the keys in strictly increasing order.
pub proof fn lemma_drop_first_sorted(es: Seq<Entry>)
    requires
        keys_strictly_increasing(es),
        es.len() > 0,
    ensures
        keys_strictly_increasing(es.drop_first()),
{
    assert forall|i: int, j: int| 0 <= i < j < es.len() - 1 implies lex_lt(
        #[trigger] es.drop_first()[i].0,
        #[trigger] es.drop_first()[j].0,
    ) by {
        assert(es.drop_first()[i] == es[i + 1]);
        assert(es.drop_first()[j] == es[j + 1]);
    }
}

/// The keys of `es` are in strictly increasing order.
pub open spec fn keys_strictly_increasing(es: Seq<Entry>) -> bool {
    forall|i: int, j: int| 0 <= i < j < es.len() ==> lex_lt(#[trigger] es[i].0, #[trigger] es[j].0)
}

/// An iterator over key-value entries in strictly increasing key order.
pub trait StorageIterator {
    /// The entries that the iterator has yet to yield, the current one first.
    /// Every implementation must define it: the default, no entries, holds
    /// only of an iterator that is never valid.
    open spec fn entries(&self) -> Seq<Entry> {
        Seq::empty()
    }

    /// Get the current value.
    fn value(&self) -> (value: &[u8])
        ensures
            self.entries().len() > 0 ==> value@ == self.entries()[0].1,
    ;

    /// Get the current key.
    fn key(&self) -> (key: KeySlice<'_>)
        ensures
            self.entries().len() > 0 ==> key@ == self.entries()[0].0,
    ;

    /// Check if the current iterator is valid; the entries left come in
    /// strictly increasing key order.
    fn is_valid(&self) -> (valid: bool)
        ensures
            valid == (self.entries().len() > 0),
            keys_strictly_increasing(self.entries()),
    ;

    /// Move to the next position.
    fn next(&mut self) -> (r: Result<(), anyhow::Error>)
        requires
            old(self).entries().len() > 0,
        ensures
            r is Ok ==> final(self).entries() == old(self).entries().drop_first(),
    ;
}

} // verus!
