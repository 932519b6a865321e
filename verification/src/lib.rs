//! Verified building blocks of a small log-structured merge tree: the
//! sorted block format, block and table builders, and a merging iterator.

pub mod block;
pub mod codec;
pub mod iterators;
pub mod key;
pub mod table;
