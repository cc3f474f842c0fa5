use super::{flatten, lemma_flatten_first, lemma_flatten_split, flat_start, strictly_sorted, SSTable};
use crate::block::iterator::BlockIterator;
use crate::block::Block;
use crate::codec::{key_le, key_less, key_lt, lemma_key_lt_total};
use crate::error::Error;
use crate::iterators::StorageIterator;
use std::sync::Arc;
use vstd::prelude::*;

verus! {

proof fn lemma_not_both(a: Seq<u8>, k: Seq<u8>)
    requires
        key_lt(a, k),
    ensures
        !key_le(k, a),
{
    if key_le(k, a) {
        crate::codec::lemma_key_lt_le_transitive(a, k, a);
        crate::codec::lemma_key_lt_irreflexive(a);
    }
}

proof fn lemma_below_prefix(e: Seq<(Seq<u8>, Seq<u8>)>, p: int, k: Seq<u8>)
    requires
        strictly_sorted(e),
        0 < p <= e.len(),
        key_lt(e[p - 1].0, k),
    ensures
        forall|j: int| 0 <= j < p ==> key_lt(#[trigger] e[j].0, k),
{
    assert forall|j: int| 0 <= j < p implies key_lt(#[trigger] e[j].0, k) by {
        if j < p - 1 {
            crate::codec::lemma_key_lt_transitive(e[j].0, e[p - 1].0, k);
        }
    }
}

/// Relies on `Arc::clone`: a second handle to the same value.
#[verifier::external_body]
fn share<T>(a: &Arc<T>) -> (r: Arc<T>)
    ensures
        *r == **a,
{
    Arc::clone(a)
}

/// A cursor over a table, one block at a time.
pub struct SSTableIterator {
    table: Arc<SSTable>,
    block_iterator: BlockIterator,
    block_idx: usize,
}

impl SSTableIterator {
    /// The table iterated over.
    pub closed spec fn table(&self) -> SSTable {
        *self.table
    }

    pub closed spec fn wf(&self) -> bool {
        &&& self.table.wf()
        &&& self.block_iterator.wf()
        &&& self.block_idx <= self.table.blocks().len()
        &&& self.block_idx < self.table.blocks().len() ==> self.block_iterator.entries()
            == self.table.blocks()[self.block_idx as int] && self.block_iterator.index()
            < self.block_iterator.entries().len()
        &&& self.block_idx == self.table.blocks().len() ==> self.block_iterator.index()
            >= self.block_iterator.entries().len()
    }

    pub closed spec fn rest(&self) -> Seq<(Seq<u8>, Seq<u8>)> {
        if self.block_idx < self.table.blocks().len() {
            self.block_iterator.entries().skip(self.block_iterator.index()) + flatten(
                self.table.blocks().subrange(self.block_idx + 1, self.table.blocks().len() as int),
            )
        } else {
            Seq::empty()
        }
    }

    fn exhausted(table: Arc<SSTable>) -> (r: Self)
        requires
            table.wf(),
            table.blocks().len() == 0,
        ensures
            r.wf(),
            r.table() == *table,
            r.rest() == Seq::<(Seq<u8>, Seq<u8>)>::empty(),
    {
        let block_iterator = BlockIterator::create_and_seek_to_first(Arc::new(Block::empty()));
        SSTableIterator { table, block_iterator, block_idx: 0 }
    }

    /// An iterator at the first entry of `table`.
    pub fn create_and_seek_to_first(table: Arc<SSTable>) -> (r: Result<Self, Error>)
        requires
            table.wf(),
        ensures
            r is Ok,
            r->Ok_0.wf(),
            r->Ok_0.table() == *table,
            r->Ok_0.rest() == table.entries(),
    {
        if table.num_blocks() == 0 {
            return Ok(Self::exhausted(table));
        }
        let read_block = table.read_block(0)?;
        let block_iterator = BlockIterator::create_and_seek_to_first(read_block);
        let r = SSTableIterator { table, block_iterator, block_idx: 0 };
        proof {
            let bs = r.table.blocks();
            lemma_flatten_first(bs);
            assert(bs.subrange(1, bs.len() as int) =~= bs.drop_first());
            assert(r.block_iterator.entries().skip(0) =~= bs[0]);
        }
        Ok(r)
    }

    /// Moves to the first entry of the table.
    pub fn seek_to_first(&mut self) -> (r: Result<(), Error>)
        requires
            old(self).wf(),
        ensures
            r is Ok,
            final(self).wf(),
            final(self).table() == old(self).table(),
            final(self).rest() == old(self).table().entries(),
    {
        let table = share(&self.table);
        *self = Self::create_and_seek_to_first(table)?;
        Ok(())
    }
}

impl SSTableIterator {
    /// An iterator at the first entry whose key is not below `key`;
    /// exhausted when there is none in the block that may hold it.
    pub fn create_and_seek_to_key(table: Arc<SSTable>, key: &[u8]) -> (r: Result<Self, Error>)
        requires
            table.wf(),
        ensures
            r is Ok,
            r->Ok_0.wf(),
            r->Ok_0.table() == *table,
            r->Ok_0.remaining().len() > 0 ==> key_le(key@, r->Ok_0.remaining()[0].0),
            exists|p: int| 0 <= p <= table.entries().len() && r->Ok_0.remaining() == table.entries().skip(p),
            crate::block::sorted(table.entries()) && r->Ok_0.remaining().len() > 0 ==> forall|j: int|
                0 <= j < table.entries().len() && key_le(key@, #[trigger] table.entries()[j].0) ==> key_le(
                    r->Ok_0.remaining()[0].0,
                    table.entries()[j].0,
                ),
            crate::block::sorted(table.entries()) && r->Ok_0.remaining().len() == 0 ==> forall|j: int|
                0 <= j < table.entries().len() ==> key_lt(#[trigger] table.entries()[j].0, key@),
            strictly_sorted(table.entries()) ==> exists|p: int|
                0 <= p <= table.entries().len() && r->Ok_0.remaining() == table.entries().skip(p)
                    && forall|j: int| 0 <= j < p ==> key_lt(#[trigger] table.entries()[j].0, key@),
    {
        if table.num_blocks() == 0 {
            let r = Self::exhausted(table);
            proof {
                let e = r.table().entries();
                assert(e.skip(0) =~= e);
                assert(r.table().blocks() =~= Seq::<Seq<(Seq<u8>, Seq<u8>)>>::empty());
                assert(e =~= Seq::<(Seq<u8>, Seq<u8>)>::empty());
            }
            return Ok(r);
        }
        let block_idx = table.find_block_idx(key);
        let block = table.read_block(block_idx)?;
        let block_iterator = BlockIterator::create_and_seek_to_key(block, key);
        let mut it = SSTableIterator { table, block_iterator, block_idx };
        let ghost bs = it.table.blocks();
        let ghost e = it.table.entries();
        let ghost i0 = it.block_iterator.index();
        let ghost here = flat_start(bs, block_idx as int) + i0;
        proof {
            it.block_iterator.lemma_index_bounds();
            it.lemma_rest_first();
            lemma_flatten_split(bs, block_idx as int);
            assert(it.rest() == e.skip(here));
        }
        if key_less(it.block_iterator.key(), key) {
            let ghost rest0 = it.rest();
            proof {
                let e = it.block_iterator.entries();
                assert(it.block_iterator.index() == e.len() - 1);
                assert(e.skip(e.len() - 1) =~= seq![e[e.len() - 1]]);
                assert(rest0.drop_first() =~= flatten(bs.subrange(block_idx + 1, bs.len() as int)));
            }
            it.advance()?;
            proof {
                assert(e.skip(here).drop_first() =~= e.skip(here + 1));
                assert(e[here] == bs[block_idx as int][i0]);
                if strictly_sorted(e) {
                    lemma_below_prefix(e, here + 1, key@);
                }
                if crate::block::sorted(e) && it.rest().len() > 0 {
                    assert(it.rest() == e.skip(here + 1));
                    assert(it.rest()[0] == e[here + 1]);
                    assert forall|j: int| 0 <= j < e.len() && key_le(key@, #[trigger] e[j].0) implies key_le(
                        it.rest()[0].0,
                        e[j].0,
                    ) by {
                        if j <= here {
                            if j < here {
                                assert(key_le(e[j].0, e[here].0));
                                crate::codec::lemma_key_le_lt_transitive(e[j].0, e[here].0, key@);
                            }
                            lemma_not_both(e[j].0, key@);
                        } else if j > here + 1 {
                            assert(key_le(e[here + 1].0, e[j].0));
                        }
                    }
                }
                if crate::block::sorted(e) && it.rest().len() == 0 {
                    assert(e.len() == here + 1);
                    assert forall|j: int| 0 <= j < e.len() implies key_lt(#[trigger] e[j].0, key@) by {
                        if j < here {
                            assert(key_le(e[j].0, e[here].0));
                            crate::codec::lemma_key_le_lt_transitive(e[j].0, e[here].0, key@);
                        }
                    }
                }
                if block_idx + 1 < bs.len() {
                    lemma_flatten_first(bs.subrange(block_idx + 1, bs.len() as int));
                    assert(it.rest().len() > 0 ==> it.rest()[0] == bs[block_idx + 1][0]);
                } else {
                    assert(bs.subrange(block_idx + 1, bs.len() as int) =~= Seq::<Seq<(Seq<u8>, Seq<u8>)>>::empty());
                }
            }
        } else {
            proof {
                lemma_key_lt_total(key@, it.block_iterator.entries()[it.block_iterator.index()].0);
                if strictly_sorted(e) && here > 0 {
                    if i0 > 0 {
                        assert(e[here - 1] == bs[block_idx as int][i0 - 1]);
                    } else {
                        assert(block_idx > 0) by {
                            if block_idx == 0 {
                                assert(bs.take(0) =~= Seq::<Seq<(Seq<u8>, Seq<u8>)>>::empty());
                            }
                        }
                        assert(e[here] == bs[block_idx as int][0]);
                        assert(key_lt(e[here - 1].0, e[here].0));
                        crate::codec::lemma_key_lt_le_transitive(e[here - 1].0, e[here].0, key@);
                    }
                    lemma_below_prefix(e, here, key@);
                }
                if crate::block::sorted(e) {
                    assert(it.rest()[0] == e[here]);
                    assert forall|j: int| 0 <= j < e.len() && key_le(key@, #[trigger] e[j].0) implies key_le(
                        it.rest()[0].0,
                        e[j].0,
                    ) by {
                        if j < here {
                            if i0 > 0 {
                                assert(e[here - 1] == bs[block_idx as int][i0 - 1]);
                                if j < here - 1 {
                                    assert(key_le(e[j].0, e[here - 1].0));
                                    crate::codec::lemma_key_le_lt_transitive(e[j].0, e[here - 1].0, key@);
                                }
                                lemma_not_both(e[j].0, key@);
                            } else {
                                assert(block_idx > 0) by {
                                    if block_idx == 0 {
                                        assert(bs.take(0) =~= Seq::<Seq<(Seq<u8>, Seq<u8>)>>::empty());
                                    }
                                }
                                assert(e[here] == bs[block_idx as int][0]);
                                crate::codec::lemma_key_le_transitive(e[here].0, key@, e[j].0);
                            }
                        } else if j > here {
                            assert(key_le(e[here].0, e[j].0));
                        }
                    }
                }
            }
        }
        Ok(it)
    }

    /// Moves to the first entry whose key is not below `key`.
    pub fn seek_to_key(&mut self, key: &[u8]) -> (r: Result<(), Error>)
        requires
            old(self).wf(),
        ensures
            r is Ok,
            final(self).wf(),
            final(self).table() == old(self).table(),
            final(self).remaining().len() > 0 ==> key_le(key@, final(self).remaining()[0].0),
            exists|p: int|
                0 <= p <= old(self).table().entries().len() && final(self).remaining()
                    == old(self).table().entries().skip(p),
            crate::block::sorted(old(self).table().entries()) && final(self).remaining().len() > 0
                ==> forall|j: int|
                0 <= j < old(self).table().entries().len() && key_le(
                    key@,
                    #[trigger] old(self).table().entries()[j].0,
                ) ==> key_le(final(self).remaining()[0].0, old(self).table().entries()[j].0),
            crate::block::sorted(old(self).table().entries()) && final(self).remaining().len() == 0
                ==> forall|j: int|
                0 <= j < old(self).table().entries().len() ==> key_lt(
                    #[trigger] old(self).table().entries()[j].0,
                    key@,
                ),
            strictly_sorted(old(self).table().entries()) ==> exists|p: int|
                0 <= p <= old(self).table().entries().len() && final(self).remaining()
                    == old(self).table().entries().skip(p) && forall|j: int|
                    0 <= j < p ==> key_lt(#[trigger] old(self).table().entries()[j].0, key@),
    {
        let table = share(&self.table);
        *self = Self::create_and_seek_to_key(table, key)?;
        Ok(())
    }
}

impl SSTableIterator {
    proof fn lemma_rest_first(&self)
        requires
            self.wf(),
        ensures
            self.rest().len() > 0 <==> self.block_iterator.index() < self.block_iterator.entries().len(),
            self.rest().len() > 0 ==> self.rest()[0] == self.block_iterator.entries()[self.block_iterator.index()],
    {
        self.block_iterator.lemma_index_bounds();
        if self.block_idx < self.table.blocks().len() {
            let s = self.block_iterator.entries().skip(self.block_iterator.index());
            assert(s.len() > 0);
            assert(s[0] == self.block_iterator.entries()[self.block_iterator.index()]);
        }
    }
}

impl SSTableIterator {
    /// Moves to the next entry, into the next block when this one is done.
    pub fn advance(&mut self) -> (r: Result<(), Error>)
        requires
            old(self).wf(),
            old(self).rest().len() > 0,
        ensures
            r is Ok,
            final(self).wf(),
            final(self).table() == old(self).table(),
            final(self).rest() == old(self).rest().drop_first(),
    {
        let ghost bs = self.table.blocks();
        let ghost b = self.block_idx as int;
        let ghost old_rest = self.rest();
        proof {
            self.block_iterator.lemma_index_bounds();
        }
        let n = self.table.num_blocks();
        self.block_iterator.next();
        if !self.block_iterator.is_valid() {
            self.block_idx = self.block_idx + 1;
            if self.block_idx >= n {
                assert(bs.subrange(b + 1, bs.len() as int) =~= Seq::<Seq<(Seq<u8>, Seq<u8>)>>::empty());
                assert(old_rest.drop_first() =~= self.rest());
                return Ok(());
            }
            let block = self.table.read_block(self.block_idx)?;
            self.block_iterator = BlockIterator::create_and_seek_to_first(block);
            proof {
                lemma_flatten_first(bs.subrange(b + 1, bs.len() as int));
                assert(bs.subrange(b + 1, bs.len() as int).drop_first() =~= bs.subrange(b + 2, bs.len() as int));
                assert(self.block_iterator.entries().skip(0) =~= bs[b + 1]);
                assert(old_rest.drop_first() =~= self.rest());
            }
        } else {
            assert(old_rest.drop_first() =~= self.rest());
        }
        Ok(())
    }
}

impl StorageIterator for SSTableIterator {
    open spec fn inv(&self) -> bool {
        self.wf()
    }

    open spec fn remaining(&self) -> Seq<(Seq<u8>, Seq<u8>)> {
        self.rest()
    }

    open spec fn next_ok(&self) -> bool {
        true
    }

    fn key(&self) -> (r: &[u8]) {
        proof {
            self.lemma_rest_first();
        }
        self.block_iterator.key()
    }

    fn value(&self) -> (r: &[u8]) {
        proof {
            self.lemma_rest_first();
        }
        self.block_iterator.value()
    }

    fn is_valid(&self) -> (r: bool) {
        proof {
            self.lemma_rest_first();
        }
        self.block_iterator.is_valid()
    }

    fn next(&mut self) -> (r: Result<(), Error>) {
        self.advance()
    }
}

} // verus!
