use super::{flatten, valid_metas, block_end, metas_bytes, table_file, table_layout, BlockMeta, FileObject, SSTable};
use crate::block::builder::{encoded_size, BlockBuilder, MAX_BLOCK_SIZE};
use crate::block::{block_bytes, decodes_to, valid_entries};
use crate::codec::{be64, lemma_be64_read, put_u64, read64};
use crate::error::Error;
use crate::lsm_storage::BlockCache;
use std::sync::Arc;
use vstd::prelude::*;
use vstd::slice::slice_to_vec;

verus! {

/// The encodings of consecutive blocks, one after another.
pub open spec fn blocks_bytes(blocks: Seq<Seq<(Seq<u8>, Seq<u8>)>>) -> Seq<u8>
    decreases blocks.len(),
{
    if blocks.len() == 0 {
        Seq::empty()
    } else {
        blocks_bytes(blocks.drop_last()) + block_bytes(blocks.last())
    }
}

/// Where block `i` starts.
pub open spec fn block_start(blocks: Seq<Seq<(Seq<u8>, Seq<u8>)>>, i: int) -> int {
    blocks_bytes(blocks.take(i)).len() as int
}

proof fn lemma_blocks_prefix(blocks: Seq<Seq<(Seq<u8>, Seq<u8>)>>, i: int)
    requires
        0 <= i <= blocks.len(),
    ensures
        blocks_bytes(blocks.take(i)).len() <= blocks_bytes(blocks).len(),
        blocks_bytes(blocks).subrange(0, block_start(blocks, i)) == blocks_bytes(blocks.take(i)),
    decreases blocks.len() - i,
{
    if i == blocks.len() {
        assert(blocks.take(i) =~= blocks);
    } else {
        lemma_blocks_prefix(blocks, i + 1);
        assert(blocks.take(i + 1).drop_last() =~= blocks.take(i));
        let a = blocks_bytes(blocks.take(i));
        let b = blocks_bytes(blocks.take(i + 1));
        assert(blocks_bytes(blocks).subrange(0, a.len() as int) =~= b.subrange(0, a.len() as int));
        assert(b.subrange(0, a.len() as int) =~= a);
    }
}

/// Block `i` lies at its start, and the next block follows it.
proof fn lemma_block_at(blocks: Seq<Seq<(Seq<u8>, Seq<u8>)>>, i: int)
    requires
        0 <= i < blocks.len(),
    ensures
        block_start(blocks, i + 1) == block_start(blocks, i) + block_bytes(blocks[i]).len(),
        block_start(blocks, i + 1) <= blocks_bytes(blocks).len(),
        blocks_bytes(blocks).subrange(block_start(blocks, i), block_start(blocks, i + 1))
            == block_bytes(blocks[i]),
{
    lemma_blocks_prefix(blocks, i + 1);
    assert(blocks.take(i + 1).drop_last() =~= blocks.take(i));
    let a = blocks_bytes(blocks.take(i));
    let b = blocks_bytes(blocks.take(i + 1));
    assert(blocks_bytes(blocks).subrange(a.len() as int, b.len() as int) =~= b.subrange(
        a.len() as int,
        b.len() as int,
    ));
    assert(b.subrange(a.len() as int, b.len() as int) =~= block_bytes(blocks[i]));
}

/// One meta entry per block, giving where it starts (block 0 at offset 0,
/// each next one where the previous ends) and its first key.
pub open spec fn builder_layout(blocks: Seq<Seq<(Seq<u8>, Seq<u8>)>>, metas: Seq<BlockMeta>) -> bool {
    &&& metas.len() == blocks.len()
    &&& forall|i: int|
        0 <= i < blocks.len() ==> #[trigger] metas[i].offset == block_start(blocks, i)
            && metas[i].first_key@ == blocks[i][0].0 && blocks[i].len() > 0
}

/// Streams sorted entries into blocks of a bounded size, and lays them out
/// as a table.
pub struct SSTableBuilder {
    pub(crate) meta: Vec<BlockMeta>,
    max_block_size: usize,
    curr_block: BlockBuilder,
    curr_first_key: Vec<u8>,
    data: Vec<u8>,
    blocks: Ghost<Seq<Seq<(Seq<u8>, Seq<u8>)>>>,
}

impl SSTableBuilder {
    /// The entries added so far, in order.
    pub open spec fn entries(&self) -> Seq<(Seq<u8>, Seq<u8>)> {
        flatten(self.blocks()) + self.pending()
    }

    /// The entries of each finished block.
    pub closed spec fn blocks(&self) -> Seq<Seq<(Seq<u8>, Seq<u8>)>> {
        self.blocks@
    }

    /// The meta entries of the finished blocks.
    pub closed spec fn metas(&self) -> Seq<BlockMeta> {
        self.meta@
    }

    /// The entries of the block being filled.
    pub closed spec fn pending(&self) -> Seq<(Seq<u8>, Seq<u8>)> {
        self.curr_block.entries()
    }

    /// The block size the builder was made with.
    pub closed spec fn block_size(&self) -> usize {
        self.max_block_size
    }

    /// The bytes of the blocks finished so far.
    pub closed spec fn size_spec(&self) -> int {
        self.data@.len() as int
    }

    /// The encoded size of the block being filled.
    pub closed spec fn pending_size(&self) -> int {
        encoded_size(self.curr_block.entries())
    }

    pub closed spec fn wf(&self) -> bool {
        &&& self.max_block_size <= MAX_BLOCK_SIZE
        &&& self.curr_block.wf()
        &&& self.curr_block.block_size() == self.max_block_size
        &&& self.data@ == blocks_bytes(self.blocks@)
        &&& self.meta@.len() == self.blocks@.len()
        &&& forall|i: int|
            0 <= i < self.blocks@.len() ==> #[trigger] self.meta@[i].offset == block_start(
                self.blocks@,
                i,
            ) && self.meta@[i].first_key@ == self.blocks@[i][0].0 && self.blocks@[i].len() > 0
                && valid_entries(self.blocks@[i])
        &&& self.curr_block.entries().len() > 0 ==> self.curr_first_key@
            == self.curr_block.entries()[0].0
    }

    /// A builder whose blocks take at most `block_size` bytes each.
    pub fn new(block_size: usize) -> (r: Self)
        requires
            block_size <= MAX_BLOCK_SIZE,
        ensures
            r.wf(),
            r.entries() == Seq::<(Seq<u8>, Seq<u8>)>::empty(),
            r.blocks() == Seq::<Seq<(Seq<u8>, Seq<u8>)>>::empty(),
            r.block_size() == block_size,
            r.size_spec() == 0,
    {
        let r = Self {
            meta: Vec::new(),
            max_block_size: block_size,
            curr_block: BlockBuilder::new(block_size),
            curr_first_key: Vec::new(),
            data: Vec::new(),
            blocks: Ghost(Seq::empty()),
        };
        assert(r.entries() =~= Seq::<(Seq<u8>, Seq<u8>)>::empty());
        r
    }

    /// Appends the block being filled to the finished ones.
    fn finish_block(&mut self)
        requires
            old(self).wf(),
            old(self).curr_block.entries().len() > 0,
        ensures
            final(self).wf(),
            final(self).entries() == old(self).entries(),
            final(self).curr_block.entries().len() == 0,
            final(self).blocks@ == old(self).blocks@.push(old(self).curr_block.entries()),
            final(self).max_block_size == old(self).max_block_size,
            final(self).size_spec() == old(self).size_spec() + old(self).pending_size(),
    {
        let ghost old_blocks = self.blocks@;
        let ghost cur = self.curr_block.entries();
        let mut full = BlockBuilder::new(self.max_block_size);
        std::mem::swap(&mut self.curr_block, &mut full);
        let block = full.build();
        let encoded = block.encode();
        let mut first_key: Vec<u8> = Vec::new();
        std::mem::swap(&mut self.curr_first_key, &mut first_key);
        let offset = self.data.len();
        self.meta.push(BlockMeta { offset, first_key });
        self.data.extend_from_slice(encoded.as_slice());
        proof {
            let nb = old_blocks.push(cur);
            crate::block::lemma_offsets_len(cur);
            assert(nb.drop_last() =~= old_blocks);
            self.blocks = Ghost(nb);
            assert(self.data@ =~= blocks_bytes(nb));
            assert(nb.take(old_blocks.len() as int) =~= old_blocks);
            assert forall|i: int| 0 <= i < nb.len() implies #[trigger] self.meta@[i].offset
                == block_start(nb, i) && self.meta@[i].first_key@ == nb[i][0].0 && nb[i].len() > 0
                && valid_entries(nb[i]) by {
                if i < old_blocks.len() {
                    assert(nb.take(i) =~= old_blocks.take(i));
                    assert(old_blocks[i] == nb[i]);
                }
            }
            assert(flatten(nb) == flatten(old_blocks) + cur);
            assert(self.entries() =~= flatten(nb) + Seq::<(Seq<u8>, Seq<u8>)>::empty());
        }
    }

    /// Adds an entry. Entries are to come in non-decreasing key order; the
    /// builder does not check it.
    pub fn add(&mut self, key: &[u8], value: &[u8])
        requires
            old(self).wf(),
            encoded_size(Seq::empty()) + 6 + key@.len() + value@.len() <= old(self).block_size(),
        ensures
            final(self).wf(),
            final(self).block_size() == old(self).block_size(),
            final(self).entries() == old(self).entries().push((key@, value@)),
            builder_layout(final(self).blocks(), final(self).metas()),
            final(self).size_spec() == blocks_bytes(final(self).blocks()).len(),
            final(self).blocks() == old(self).blocks() || final(self).blocks() == old(self).blocks().push(
                old(self).pending(),
            ),
    {
        let ghost before = self.entries();
        if self.curr_block.is_empty() {
            self.curr_first_key = slice_to_vec(key);
        }
        if !self.curr_block.add(key, value) {
            self.finish_block();
            self.curr_first_key = slice_to_vec(key);
            let added = self.curr_block.add(key, value);
            assert(added);
        }
        proof {
            assert(self.entries() =~= before.push((key@, value@)));
            assert(self.max_block_size <= MAX_BLOCK_SIZE);
            assert(self.curr_block.wf());
            assert(self.curr_block.block_size() == self.max_block_size);
            assert(self.data@ == blocks_bytes(self.blocks@));
            assert(self.curr_block.entries().len() > 0 ==> self.curr_first_key@
            == self.curr_block.entries()[0].0);
        }
    }

    /// The number of bytes of the blocks finished so far.
    pub fn estimated_size(&self) -> (r: usize)
        requires
            self.wf(),
        ensures
            r == self.size_spec(),
    {
        self.data.len()
    }

    /// Lays out the table: the blocks, the meta section and its offset.
    /// Fails with `TooLarge` only when a block would start beyond the
    /// 32-bit offsets of the meta section.
    pub fn build(self, id: usize, block_cache: Option<Arc<BlockCache>>) -> (r: Result<
        SSTable,
        Error,
    >)
        requires
            self.wf(),
        ensures
            r is Ok ==> r->Ok_0.wf() && r->Ok_0.entries() == self.entries() && r->Ok_0.id() == id
                && r->Ok_0.has_cache() == block_cache is Some,
            r is Ok ==> table_file(r->Ok_0.file_bytes()),
            r is Ok ==> r->Ok_0.blocks() == if self.pending().len() == 0 {
                self.blocks()
            } else {
                self.blocks().push(self.pending())
            },
            r is Ok ==> builder_layout(r->Ok_0.blocks(), r->Ok_0.metas()),
            r is Ok ==> r->Ok_0.file_bytes() == blocks_bytes(r->Ok_0.blocks()) + metas_bytes(
                r->Ok_0.metas(),
            ) + be64(blocks_bytes(r->Ok_0.blocks()).len() as u64),
            r is Ok ==> table_layout(r->Ok_0.file_bytes(), r->Ok_0.metas(), r->Ok_0.blocks()),
            r is Err ==> r->Err_0 == Error::TooLarge && self.size_spec() + self.pending_size()
                > u32::MAX,
    {
        let ghost total = self.size_spec() + self.pending_size();
        let mut this = self;
        if !this.curr_block.is_empty() {
            this.finish_block();
        }
        assert(this.size_spec() <= total);
        assert(this.entries() =~= flatten(this.blocks@)) by {
            assert(this.curr_block.entries() =~= Seq::<(Seq<u8>, Seq<u8>)>::empty());
        }
        let n = this.meta.len();
        let mut i: usize = 0;
        while i < n
            invariant
                n == this.meta@.len(),
                i <= n,
                this.wf(),
                this.size_spec() <= total,
                total == self.size_spec() + self.pending_size(),
                forall|j: int| 0 <= j < i ==> #[trigger] this.meta@[j].offset <= u32::MAX,
            decreases n - i,
        {
            if this.meta[i].offset > 0xffff_ffffusize {
                proof {
                    lemma_blocks_prefix(this.blocks@, i as int);
                }
                return Err(Error::TooLarge);
            }
            i = i + 1;
        }
        let block_meta_offset = this.data.len();
        let ghost blocks = this.blocks@;
        let ghost body = this.data@;
        assert(builder_layout(blocks, this.meta@)) by {
            assert forall|i: int| 0 <= i < blocks.len() implies #[trigger] this.meta@[i].offset
                == block_start(blocks, i) && this.meta@[i].first_key@ == blocks[i][0].0
                && blocks[i].len() > 0 by {
                assert(this.meta@[i].offset == block_start(blocks, i));
            }
        }
        proof {
            assert forall|j: int| 0 <= j < n implies #[trigger] this.meta@[j].offset <= u32::MAX
                && this.meta@[j].first_key@.len() <= 65535 by {
                assert(this.meta@[j].offset == block_start(blocks, j));
                assert(valid_entries(blocks[j]));
                assert(blocks[j][0].0.len() <= 65535);
            }
        }
        BlockMeta::encode_block_meta(this.meta.as_slice(), &mut this.data);
        put_u64(&mut this.data, block_meta_offset as u64);
        let ghost file_bytes = this.data@;
        assert(file_bytes.subrange(0, body.len() as int) =~= body);
        let file = FileObject::from_bytes(this.data);
        let t = SSTable {
            sst_id: id,
            file,
            block_metas: this.meta,
            block_meta_offset,
            block_cache,
            blocks: this.blocks,
        };
        proof {
            lemma_built_table(&t, blocks, body);
            assert(file_bytes =~= body + metas_bytes(t.block_metas@) + be64(block_meta_offset as u64));
            lemma_built_file(&t, blocks, body);
        }
        Ok(t)
    }
}

/// A table laid out from finished blocks is well formed.
proof fn lemma_built_table(t: &SSTable, blocks: Seq<Seq<(Seq<u8>, Seq<u8>)>>, body: Seq<u8>)
    requires
        body == blocks_bytes(blocks),
        t.blocks@ == blocks,
        t.block_metas@.len() == blocks.len(),
        t.block_meta_offset == body.len(),
        body.len() <= t.file@.len(),
        t.file@.subrange(0, body.len() as int) == body,
        forall|i: int|
            0 <= i < blocks.len() ==> #[trigger] t.block_metas@[i].offset == block_start(blocks, i)
                && t.block_metas@[i].first_key@ == blocks[i][0].0 && blocks[i].len() > 0
                && valid_entries(blocks[i]),
    ensures
        t.blocks_ok(),
{
    let n = blocks.len();
    assert forall|j: int| 0 <= j < n implies #[trigger] t.block_metas@[j].offset
        <= block_end(t.block_metas@, t.block_meta_offset as int, j) <= t.block_meta_offset
        && t.block_range(j) == block_bytes(blocks[j]) by {
        lemma_block_at(blocks, j);
        if j + 1 < n {
            lemma_block_at(blocks, j + 1);
            assert(t.block_metas@[j + 1].offset == block_start(blocks, j + 1));
        } else {
            assert(blocks.take(j + 1) =~= blocks);
        }
        let (a, b) = (block_start(blocks, j), block_start(blocks, j + 1));
        assert(block_end(t.block_metas@, t.block_meta_offset as int, j) == b);
        assert forall|k: int| 0 <= k < b - a implies t.file@.subrange(a, b)[k] == body.subrange(a, b)[k] by {
            assert(t.file@.subrange(0, body.len() as int)[a + k] == t.file@[a + k]);
        }
        assert(t.block_range(j) =~= body.subrange(a, b));
    }
    assert forall|j: int| 0 <= j < n implies decodes_to(#[trigger] t.block_range(j), blocks[j]) by {
        assert(t.block_range(j) == block_bytes(blocks[j]));
        lemma_block_decodes(blocks[j]);
    }
    assert forall|j: int| 0 <= j < n implies #[trigger] blocks[j].len() > 0
        && t.block_metas@[j].first_key@ == blocks[j][0].0 by {
        assert(t.block_metas@[j].offset == block_start(blocks, j));
    }
}

/// The laid-out file of a built table is a table file.
proof fn lemma_built_file(t: &SSTable, blocks: Seq<Seq<(Seq<u8>, Seq<u8>)>>, body: Seq<u8>)
    requires
        t.blocks_ok(),
        t.blocks@ == blocks,
        t.block_meta_offset == body.len(),
        valid_metas(t.block_metas@),
        t.file@ == body + metas_bytes(t.block_metas@) + be64(body.len() as u64),
    ensures
        table_layout(t.file@, t.block_metas@, blocks),
        t.block_meta_offset == read64(t.file@, t.file@.len() - 8),
        t.file@.len() >= 8,
{
    let s = t.file@;
    let m = metas_bytes(t.block_metas@);
    assert(s.subrange(s.len() - 8, s.len() as int) =~= be64(body.len() as u64));
    lemma_be64_read(body.len() as u64, s, s.len() - 8);
    assert(s.subrange(body.len() as int, s.len() - 8) =~= m);
    assert forall|i: int| 0 <= i < t.block_metas@.len() implies decodes_to(
        #[trigger] s.subrange(t.block_metas@[i].offset as int, block_end(t.block_metas@, body.len() as int, i)),
        blocks[i],
    ) && blocks[i].len() > 0 && t.block_metas@[i].first_key@ == blocks[i][0].0 by {
        assert(t.block_range(i) == s.subrange(
            t.block_metas@[i].offset as int,
            block_end(t.block_metas@, body.len() as int, i),
        ));
        assert(t.blocks@[i].len() > 0);
    }
    assert forall|i: int| 0 <= i < t.block_metas@.len() implies #[trigger] t.block_metas@[i].offset
        <= block_end(t.block_metas@, body.len() as int, i) <= body.len() by {
        assert(t.blocks@[i].len() > 0);
    }
    assert(table_layout(s, t.block_metas@, blocks));
}

/// The encoding of valid entries decodes to them.
proof fn lemma_block_decodes(es: Seq<(Seq<u8>, Seq<u8>)>)
    requires
        valid_entries(es),
    ensures
        decodes_to(block_bytes(es), es),
{
    crate::block::lemma_offsets_len(es);
    let s = block_bytes(es);
    let eb = crate::block::entries_bytes(es);
    assert(s.subrange(0, eb.len() as int) =~= eb);
    assert(s.subrange(s.len() - 2 - 2 * es.len(), s.len() as int) =~= crate::block::offsets_bytes(es)
        + crate::codec::be16(es.len() as u16));
}

} // verus!
