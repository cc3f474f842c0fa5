//! The common interface of the sorted iterators, and their k-way merge.
use crate::error::Error;
use vstd::prelude::*;

pub mod merge_iterator;

verus! {

/// A forward iterator over key/value entries.
pub trait StorageIterator {
    /// Whether the iterator's own state is consistent.
    spec fn inv(&self) -> bool;

    /// The entries still to come, the current one first; empty once the
    /// iterator is exhausted.
    spec fn remaining(&self) -> Seq<(Seq<u8>, Seq<u8>)>;

    /// Whether `next` is sure to succeed, now and after it.
    spec fn next_ok(&self) -> bool;

    /// The key of the current entry.
    fn key(&self) -> (r: &[u8])
        requires
            self.inv(),
            self.remaining().len() > 0,
        ensures
            r@ == self.remaining()[0].0,
    ;

    /// The value of the current entry.
    fn value(&self) -> (r: &[u8])
        requires
            self.inv(),
            self.remaining().len() > 0,
        ensures
            r@ == self.remaining()[0].1,
    ;

    /// Whether there is a current entry.
    fn is_valid(&self) -> (r: bool)
        requires
            self.inv(),
        ensures
            r == (self.remaining().len() > 0),
    ;

    /// Moves to the next entry.
    fn next(&mut self) -> (r: Result<(), Error>)
        requires
            old(self).inv(),
            old(self).remaining().len() > 0,
        ensures
            final(self).inv(),
            r is Ok ==> final(self).remaining() == old(self).remaining().drop_first(),
            old(self).next_ok() ==> r is Ok && final(self).next_ok(),
    ;
}

} // verus!
