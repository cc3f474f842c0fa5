use super::Block;
use crate::codec::{key_le, key_lt, key_less, lemma_key_lt_transitive};
use std::sync::Arc;
use vstd::prelude::*;
use vstd::slice::slice_to_vec;

verus! {

/// A cursor over the entries of one block, holding copies of the current
/// key and value.
pub struct BlockIterator {
    block: Arc<Block>,
    key: Vec<u8>,
    value: Vec<u8>,
    idx: usize,
}

impl BlockIterator {
    /// The entries of the block.
    pub closed spec fn entries(&self) -> Seq<(Seq<u8>, Seq<u8>)> {
        self.block@
    }

    /// The position of the current entry.
    pub closed spec fn index(&self) -> int {
        self.idx as int
    }

    pub proof fn lemma_index_bounds(&self)
        requires
            self.wf(),
        ensures
            0 <= self.index() <= self.entries().len(),
    {
    }

    pub closed spec fn wf(&self) -> bool {
        &&& self.block.wf()
        &&& self.idx <= self.block@.len()
        &&& self.idx < self.block@.len() ==> self.key@ == self.block@[self.idx as int].0
            && self.value@ == self.block@[self.idx as int].1
    }

    fn new(block: Arc<Block>) -> (r: Self)
        requires
            block.wf(),
        ensures
            r.block@ == block@,
            r.block.wf(),
            r.idx == 0,
    {
        Self { block, key: Vec::new(), value: Vec::new(), idx: 0 }
    }

    /// An iterator at the first entry of `block`.
    pub fn create_and_seek_to_first(block: Arc<Block>) -> (r: Self)
        requires
            block.wf(),
        ensures
            r.wf(),
            r.entries() == block@,
            r.index() == 0,
    {
        let mut it = Self::new(block);
        if it.block.len() > 0 {
            it.set_entry_idx(0);
        }
        it
    }

    /// An iterator at the first entry whose key is not below `key`; at the
    /// last entry when every key is below it.
    pub fn create_and_seek_to_key(block: Arc<Block>, key: &[u8]) -> (r: Self)
        requires
            block.wf(),
            block@.len() > 0,
        ensures
            r.wf(),
            r.entries() == block@,
            r.seeked(key@),
    {
        let mut it = Self::create_and_seek_to_first(block);
        it.seek_to_key(key);
        it
    }

    /// Where `seek_to_key(k)` leaves the iterator: at an entry, every entry
    /// before which sorts below `k`; at the last one only if its key is
    /// below `k` too.
    pub open spec fn seeked(&self, k: Seq<u8>) -> bool {
        &&& 0 <= self.index() < self.entries().len()
        &&& self.index() > 0 ==> key_lt(self.entries()[self.index() - 1].0, k)
        &&& key_lt(self.entries()[self.index()].0, k) ==> self.index() == self.entries().len() - 1
        &&& crate::block::sorted(self.entries()) ==> forall|j: int|
            0 <= j < self.index() ==> key_lt(#[trigger] self.entries()[j].0, k)
    }

    /// The key of the current entry.
    pub fn key(&self) -> (r: &[u8])
        requires
            self.wf(),
            self.index() < self.entries().len(),
        ensures
            r@ == self.entries()[self.index()].0,
    {
        self.key.as_slice()
    }

    /// The value of the current entry.
    pub fn value(&self) -> (r: &[u8])
        requires
            self.wf(),
            self.index() < self.entries().len(),
        ensures
            r@ == self.entries()[self.index()].1,
    {
        self.value.as_slice()
    }

    /// Whether there is a current entry.
    pub fn is_valid(&self) -> (r: bool)
        requires
            self.wf(),
        ensures
            r == (self.index() < self.entries().len()),
    {
        self.idx < self.block.len()
    }

    /// Moves to the first entry.
    pub fn seek_to_first(&mut self)
        requires
            old(self).wf(),
        ensures
            final(self).wf(),
            final(self).entries() == old(self).entries(),
            final(self).entries().len() > 0 ==> final(self).index() == 0,
            final(self).entries().len() == 0 ==> final(self).index() == old(self).index(),
    {
        if self.block.len() >= 1 {
            self.set_entry_idx(0);
        }
    }

    /// Moves to the first entry whose key is not below `key`, by binary
    /// search; to the last entry when every key is below it.
    pub fn seek_to_key(&mut self, key: &[u8])
        requires
            old(self).wf(),
            old(self).entries().len() > 0,
        ensures
            final(self).wf(),
            final(self).entries() == old(self).entries(),
            final(self).seeked(key@),
    {
        let ghost es = self.block@;
        let mut l: usize = 0;
        let mut r: usize = self.block.len() - 1;
        while l < r
            invariant
                self.wf(),
                es == self.block@,
                l <= r < es.len(),
                l > 0 ==> key_lt(es[l - 1].0, key@),
                r < es.len() - 1 ==> !key_lt(es[r as int].0, key@),
            decreases r - l,
        {
            let m = l + (r - l) / 2;
            if key_less(self.block.key_at(m), key) {
                l = m + 1;
            } else {
                r = m;
            }
        }
        self.set_entry_idx(l);
        proof {
            if crate::block::sorted(es) {
                assert forall|j: int| 0 <= j < l implies key_lt(#[trigger] es[j].0, key@) by {
                    if j < l - 1 {
                        assert(key_le(es[j].0, es[l - 1].0));
                        if es[j].0 != es[l - 1].0 {
                            lemma_key_lt_transitive(es[j].0, es[l - 1].0, key@);
                        }
                    }
                }
            }
        }
    }

    /// Moves to the next entry; stays put once past the last.
    pub fn next(&mut self)
        requires
            old(self).wf(),
        ensures
            final(self).wf(),
            final(self).entries() == old(self).entries(),
            final(self).index() == if old(self).index() < old(self).entries().len() {
                old(self).index() + 1
            } else {
                old(self).index()
            },
    {
        if self.idx < self.block.len() {
            self.idx = self.idx + 1;
            if self.idx < self.block.len() {
                self.set_entry_idx(self.idx);
            }
        }
    }

    fn set_entry_idx(&mut self, idx: usize)
        requires
            old(self).block.wf(),
            idx < old(self).block@.len(),
        ensures
            final(self).wf(),
            final(self).block == old(self).block,
            final(self).idx == idx,
    {
        self.key = slice_to_vec(self.block.key_at(idx));
        self.value = slice_to_vec(self.block.value_at(idx));
        self.idx = idx;
    }
}

} // verus!
