use super::{
    entries_bytes, entry_bytes, entry_offset, lemma_entries_bytes_push, valid_entries, Block,
};
use crate::codec::put_u16;
use vstd::prelude::*;

verus! {

/// The largest block size: entry offsets are 16-bit.
pub const MAX_BLOCK_SIZE: usize = 65536;

/// The encoded size of a block holding `es`: entries, offsets and count.
pub open spec fn encoded_size(es: Seq<(Seq<u8>, Seq<u8>)>) -> int {
    entries_bytes(es).len() + 2 * es.len() + 2int
}

/// Packs entries into one block of at most `block_size` encoded bytes.
pub struct BlockBuilder {
    data: Vec<u8>,
    offsets: Vec<u16>,
    block_size: usize,
    curr_size: usize,
    entries: Ghost<Seq<(Seq<u8>, Seq<u8>)>>,
}

impl BlockBuilder {
    /// The entries added so far.
    pub closed spec fn entries(&self) -> Seq<(Seq<u8>, Seq<u8>)> {
        self.entries@
    }

    /// The budget the builder was made with.
    pub closed spec fn block_size(&self) -> usize {
        self.block_size
    }

    pub closed spec fn wf(&self) -> bool {
        &&& self.block_size <= MAX_BLOCK_SIZE
        &&& self.curr_size == encoded_size(self.entries@)
        &&& self.curr_size <= self.block_size || self.entries@.len() == 0
        &&& (Block { data: self.data, offsets: self.offsets, entries: self.entries }).wf()
    }

    /// An empty builder with the given budget.
    pub fn new(block_size: usize) -> (r: Self)
        requires
            block_size <= MAX_BLOCK_SIZE,
        ensures
            r.wf(),
            r.entries() == Seq::<(Seq<u8>, Seq<u8>)>::empty(),
            r.block_size() == block_size,
    {
        let r = BlockBuilder {
            data: Vec::new(),
            offsets: Vec::new(),
            block_size,
            curr_size: 2,
            entries: Ghost(Seq::empty()),
        };
        assert(r.data@ =~= entries_bytes(r.entries@));
        r
    }

    /// Whether nothing was added.
    pub fn is_empty(&self) -> (r: bool)
        requires
            self.wf(),
        ensures
            r == (self.entries().len() == 0),
    {
        self.offsets.len() == 0
    }

    /// Appends the entry if the block then still fits in its budget, and
    /// says whether it did; otherwise leaves the builder as it was.
    pub fn add(&mut self, key: &[u8], value: &[u8]) -> (r: bool)
        requires
            old(self).wf(),
        ensures
            final(self).wf(),
            final(self).block_size() == old(self).block_size(),
            r == (encoded_size(old(self).entries()) + 6 + key@.len() + value@.len()
                <= old(self).block_size()),
            r ==> final(self).entries() == old(self).entries().push((key@, value@)),
            !r ==> final(self).entries() == old(self).entries(),
    {
        let ghost es = self.entries@;
        let ghost b = Block { data: self.data, offsets: self.offsets, entries: self.entries };
        if key.len() > self.block_size || value.len() > self.block_size {
            return false;
        }
        let key_len = key.len();
        let value_len = value.len();
        let add_len = 6 + key_len + value_len;
        if self.curr_size + add_len > self.block_size {
            return false;
        }
        let ghost e = (key@, value@);
        proof {
            lemma_entries_bytes_push(es, e);
        }
        let curr_offset = self.data.len() as u16;
        self.offsets.push(curr_offset);
        put_u16(&mut self.data, key_len as u16);
        self.data.extend_from_slice(key);
        put_u16(&mut self.data, value_len as u16);
        self.data.extend_from_slice(value);
        self.curr_size = self.curr_size + add_len;
        proof {
            self.entries = Ghost(es.push(e));
            assert(self.data@ =~= entries_bytes(es) + entry_bytes(e));
            let ne = es.push(e);
            assert forall|i: int| 0 <= i < ne.len() implies #[trigger] entry_offset(ne, i)
                == self.offsets@[i] by {
                if i < es.len() {
                    assert(ne.take(i) =~= es.take(i));
                } else {
                    assert(ne.take(i) =~= es);
                }
            }
            assert forall|i: int| 0 <= i < ne.len() implies #[trigger] ne[i].0.len() <= 65535
                && ne[i].1.len() <= 65535 by {
                if i < es.len() {
                    assert(ne[i] == es[i]);
                }
            }
            assert(ne.len() <= 65535);
            assert(valid_entries(ne));
        }
        true
    }

    /// The block holding the entries added.
    pub fn build(self) -> (r: Block)
        requires
            self.wf(),
        ensures
            r.wf(),
            r@ == self.entries(),
    {
        Block { data: self.data, offsets: self.offsets, entries: self.entries }
    }
}

} // verus!
