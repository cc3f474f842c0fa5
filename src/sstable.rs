//! A sorted string table: encoded blocks one after another, then the meta
//! section, one `u32 offset ‖ u16 first_key_len ‖ first_key` per block,
//! then the `u64` offset of the meta section; all integers big-endian.
use crate::block::{decodes_to, Block};
pub use crate::block::strictly_sorted;
use crate::codec::{
    be16, be32, from_be16, get_u16, get_u32, get_u64, key_le, key_less, key_lt,
    lemma_be16_bytes, put_u16, put_u32, read32, read64,
};
use crate::error::Error;
use crate::lsm_storage::{cache_get, cache_insert, BlockCache};
use std::sync::Arc;
use vstd::prelude::*;
use vstd::slice::{slice_subrange, slice_to_vec};

pub mod builder;
pub mod iterator;

verus! {

/// Where a block starts in the table, and its first key.
#[derive(Clone, Debug, PartialEq, Eq)]
pub struct BlockMeta {
    /// Offset of this data block.
    pub offset: usize,
    /// The first key of the data block.
    pub first_key: Vec<u8>,
}

/// The bytes of one meta entry.
pub open spec fn meta_bytes(m: BlockMeta) -> Seq<u8> {
    be32(m.offset as u32) + be16(m.first_key@.len() as u16) + m.first_key@
}

/// The bytes of the meta section.
pub open spec fn metas_bytes(ms: Seq<BlockMeta>) -> Seq<u8>
    decreases ms.len(),
{
    if ms.len() == 0 {
        Seq::empty()
    } else {
        metas_bytes(ms.drop_last()) + meta_bytes(ms.last())
    }
}

/// Meta entries that the format can hold.
pub open spec fn valid_metas(ms: Seq<BlockMeta>) -> bool {
    forall|i: int|
        0 <= i < ms.len() ==> #[trigger] ms[i].offset <= u32::MAX && ms[i].first_key@.len()
            <= 65535
}

/// The entries of consecutive blocks, one run after another.
pub open spec fn flatten(blocks: Seq<Seq<(Seq<u8>, Seq<u8>)>>) -> Seq<(Seq<u8>, Seq<u8>)>
    decreases blocks.len(),
{
    if blocks.len() == 0 {
        Seq::empty()
    } else {
        flatten(blocks.drop_last()) + blocks.last()
    }
}

/// The first run, then the others.
pub proof fn lemma_flatten_first(blocks: Seq<Seq<(Seq<u8>, Seq<u8>)>>)
    requires
        blocks.len() > 0,
    ensures
        flatten(blocks) == blocks[0] + flatten(blocks.drop_first()),
    decreases blocks.len(),
{
    if blocks.len() == 1 {
        assert(blocks.drop_last() =~= Seq::<Seq<(Seq<u8>, Seq<u8>)>>::empty());
        assert(blocks.drop_first() =~= Seq::<Seq<(Seq<u8>, Seq<u8>)>>::empty());
        assert(flatten(blocks) =~= blocks[0] + flatten(blocks.drop_first()));
    } else {
        lemma_flatten_first(blocks.drop_last());
        assert(blocks.drop_last().drop_first() =~= blocks.drop_first().drop_last());
        assert(blocks.drop_first().last() == blocks.last());
        assert(flatten(blocks) =~= blocks[0] + flatten(blocks.drop_first()));
    }
}

/// Where the entries of block `b` start among all entries.
pub open spec fn flat_start(blocks: Seq<Seq<(Seq<u8>, Seq<u8>)>>, b: int) -> int {
    flatten(blocks.take(b)).len() as int
}


pub proof fn lemma_flatten_take(blocks: Seq<Seq<(Seq<u8>, Seq<u8>)>>, b: int)
    requires
        0 <= b <= blocks.len(),
    ensures
        flatten(blocks) == flatten(blocks.take(b)) + flatten(blocks.subrange(b, blocks.len() as int)),
    decreases blocks.len(),
{
    let n = blocks.len() as int;
    if b == n {
        assert(blocks.take(b) =~= blocks);
        assert(blocks.subrange(b, n) =~= Seq::<Seq<(Seq<u8>, Seq<u8>)>>::empty());
        assert(flatten(blocks) + Seq::<(Seq<u8>, Seq<u8>)>::empty() =~= flatten(blocks));
    } else {
        let dl = blocks.drop_last();
        lemma_flatten_take(dl, b);
        assert(dl.take(b) =~= blocks.take(b));
        assert(blocks.subrange(b, n).drop_last() =~= dl.subrange(b, n - 1));
        assert(blocks.subrange(b, n).last() == blocks.last());
        assert(flatten(blocks) =~= flatten(blocks.take(b)) + flatten(blocks.subrange(b, n)));
    }
}

/// Block `b` stands at its start among all entries; what follows entry `i`
/// of it is the rest of the block, then the later blocks.
pub proof fn lemma_flatten_split(blocks: Seq<Seq<(Seq<u8>, Seq<u8>)>>, b: int)
    requires
        0 <= b < blocks.len(),
    ensures
        flat_start(blocks, b) + blocks[b].len() <= flatten(blocks).len(),
        flat_start(blocks, b + 1) == flat_start(blocks, b) + blocks[b].len(),
        forall|i: int|
            0 <= i < blocks[b].len() ==> flatten(blocks)[flat_start(blocks, b) + i] == #[trigger] blocks[b][i],
        forall|i: int|
            0 <= i <= blocks[b].len() ==> flatten(blocks).skip(flat_start(blocks, b) + i) == #[trigger] blocks[b].skip(i)
                + flatten(blocks.subrange(b + 1, blocks.len() as int)),
{
    let n = blocks.len() as int;
    lemma_flatten_take(blocks, b);
    let rest = blocks.subrange(b, n);
    lemma_flatten_first(rest);
    assert(rest.drop_first() =~= blocks.subrange(b + 1, n));
    assert(rest[0] == blocks[b]);
    assert(blocks.take(b + 1).drop_last() =~= blocks.take(b));
    assert(blocks.take(b + 1).last() == blocks[b]);
    let p = flat_start(blocks, b);
    assert forall|i: int| 0 <= i <= blocks[b].len() implies flatten(blocks).skip(p + i) == #[trigger] blocks[b].skip(i)
        + flatten(blocks.subrange(b + 1, n)) by {
        assert(flatten(blocks).skip(p + i) =~= blocks[b].skip(i) + flatten(blocks.subrange(b + 1, n)));
    }
}

/// In a table sorted as a whole, the blocks are ordered too: each key of
/// an earlier block is at most each key of a later one, and each block is
/// sorted.
pub proof fn lemma_sst_order(t: &SSTable)
    requires
        t.wf(),
        crate::block::sorted(t.entries()),
    ensures
        forall|b1: int, b2: int, i: int, j: int|
            0 <= b1 < b2 < t.blocks().len() && 0 <= i < t.blocks()[b1].len() && 0 <= j
                < t.blocks()[b2].len() ==> key_le(
                #[trigger] t.blocks()[b1][i].0,
                #[trigger] t.blocks()[b2][j].0,
            ),
        forall|b: int| 0 <= b < t.blocks().len() ==> crate::block::sorted(#[trigger] t.blocks()[b]),
{
    let bs = t.blocks();
    let e = t.entries();
    assert forall|b1: int, b2: int, i: int, j: int|
        0 <= b1 < b2 < bs.len() && 0 <= i < bs[b1].len() && 0 <= j < bs[b2].len() implies key_le(
        #[trigger] bs[b1][i].0,
        #[trigger] bs[b2][j].0,
    ) by {
        lemma_flatten_split(bs, b1);
        lemma_flatten_split(bs, b2);
        lemma_flat_start_mono(bs, b1 + 1, b2);
        assert(e[flat_start(bs, b1) + i] == bs[b1][i]);
        assert(e[flat_start(bs, b2) + j] == bs[b2][j]);
    }
    assert forall|b: int| 0 <= b < bs.len() implies crate::block::sorted(#[trigger] bs[b]) by {
        lemma_flatten_split(bs, b);
        assert forall|i: int, j: int| 0 <= i < j < bs[b].len() implies key_le(
            #[trigger] bs[b][i].0,
            #[trigger] bs[b][j].0,
        ) by {
            assert(e[flat_start(bs, b) + i] == bs[b][i]);
            assert(e[flat_start(bs, b) + j] == bs[b][j]);
        }
    }
}

proof fn lemma_flat_start_mono(blocks: Seq<Seq<(Seq<u8>, Seq<u8>)>>, a: int, b: int)
    requires
        0 <= a <= b <= blocks.len(),
    ensures
        flat_start(blocks, a) <= flat_start(blocks, b),
{
    lemma_flatten_take(blocks.take(b), a);
    assert(blocks.take(b).take(a) =~= blocks.take(a));
}

impl BlockMeta {
    /// Appends the meta section for `block_meta` to `buf`.
    pub fn encode_block_meta(block_meta: &[BlockMeta], buf: &mut Vec<u8>)
        requires
            valid_metas(block_meta@),
        ensures
            final(buf)@ == old(buf)@ + metas_bytes(block_meta@),
    {
        let mut i: usize = 0;
        assert(block_meta@.take(0) =~= Seq::<BlockMeta>::empty());
        assert(buf@ =~= old(buf)@ + metas_bytes(block_meta@.take(0)));
        while i < block_meta.len()
            invariant
                valid_metas(block_meta@),
                i <= block_meta@.len(),
                buf@ == old(buf)@ + metas_bytes(block_meta@.take(i as int)),
            decreases block_meta@.len() - i,
        {
            let meta = &block_meta[i];
            assert(block_meta@[i as int].offset <= u32::MAX);
            put_u32(buf, meta.offset as u32);
            put_u16(buf, meta.first_key.len() as u16);
            buf.extend_from_slice(meta.first_key.as_slice());
            proof {
                assert(block_meta@.take(i + 1).drop_last() =~= block_meta@.take(i as int));
                assert(buf@ =~= old(buf)@ + metas_bytes(block_meta@.take(i + 1)));
            }
            i = i + 1;
        }
        assert(block_meta@.take(i as int) =~= block_meta@);
    }

    /// Reads a meta section; `None` when the bytes are not one.
    pub fn decode_block_meta(buf: &[u8]) -> (r: Option<Vec<BlockMeta>>)
        ensures
            r is Some ==> buf@ == metas_bytes(r->0@) && valid_metas(r->0@),
            forall|ms: Seq<BlockMeta>|
                valid_metas(ms) && buf@ == #[trigger] metas_bytes(ms) ==> r is Some && metas_view(
                    r->0@,
                ) == metas_view(ms),
    {
        let mut out: Vec<BlockMeta> = Vec::new();
        let mut pos: usize = 0;
        let n = buf.len();
        while pos < n
            invariant
                n == buf@.len(),
                pos <= n,
                buf@.subrange(0, pos as int) == metas_bytes(out@),
                valid_metas(out@),
                forall|ms: Seq<BlockMeta>|
                    valid_metas(ms) && buf@ == #[trigger] metas_bytes(ms) ==> out@.len() <= ms.len()
                        && metas_view(ms.take(out@.len() as int)) == metas_view(out@),
            decreases n - pos,
        {
            proof {
                assert forall|ms: Seq<BlockMeta>|
                    valid_metas(ms) && buf@ == #[trigger] metas_bytes(ms) implies out@.len() < ms.len()
                        && pos + 6 + ms[out@.len() as int].first_key@.len() <= n
                        && from_be16(buf@[pos + 4], buf@[pos + 5])
                            == ms[out@.len() as int].first_key@.len()
                        && read32(buf@, pos as int) == ms[out@.len() as int].offset
                        && buf@.subrange(pos + 6, pos + 6 + ms[out@.len() as int].first_key@.len())
                            == ms[out@.len() as int].first_key@ by {
                    lemma_metas_same_bytes(ms.take(out@.len() as int), out@);
                    lemma_meta_step(buf@, ms, out@.len() as int, pos as int);
                }
            }
            if n - pos < 6 {
                return None;
            }
            let offset = get_u32(buf, pos);
            let klen = get_u16(buf, pos + 4) as usize;
            if n - pos - 6 < klen {
                return None;
            }
            let first_key = slice_to_vec(slice_subrange(buf, pos + 6, pos + 6 + klen));
            let m = BlockMeta { offset: offset as usize, first_key };
            let ghost old_out = out@;
            proof {
                lemma_be32_bytes(buf@, pos as int);
                lemma_be16_bytes(buf@[pos + 4], buf@[pos + 5]);
                assert(buf@.subrange(pos as int, pos + 6 + klen) =~= meta_bytes(m));
                assert(buf@.subrange(0, pos + 6 + klen) =~= buf@.subrange(0, pos as int)
                    + buf@.subrange(pos as int, pos + 6 + klen));
                assert(out@.push(m).drop_last() =~= out@);
                assert(m.offset <= u32::MAX && m.first_key@.len() <= 65535);
            }
            out.push(m);
            proof {
                assert forall|ms: Seq<BlockMeta>|
                    valid_metas(ms) && buf@ == #[trigger] metas_bytes(ms) implies out@.len() <= ms.len()
                        && metas_view(ms.take(out@.len() as int)) == metas_view(out@) by {
                    let k = old_out.len() as int;
                    assert(ms.take(k + 1) =~= ms.take(k).push(ms[k]));
                    assert(metas_view(ms.take(k)) == metas_view(old_out));
                    assert(metas_view(ms.take(k + 1)) =~= metas_view(out@)) by {
                        assert(metas_view(ms.take(k)).len() == k);
                        assert forall|q: int| 0 <= q < k implies #[trigger] metas_view(ms.take(k + 1))[q]
                            == metas_view(out@)[q] by {
                            assert(metas_view(ms.take(k))[q] == metas_view(old_out)[q]);
                        }
                        assert(ms[k].first_key@ =~= m.first_key@);
                    }
                }
            }
            assert(valid_metas(out@)) by {
                assert forall|j: int| 0 <= j < out@.len() implies #[trigger] out@[j].offset <= u32::MAX
                    && out@[j].first_key@.len() <= 65535 by {
                    if j < out@.len() - 1 {
                        assert(out@[j] == old_out[j]);
                    }
                }
            }
            pos = pos + 6 + klen;
        }
        assert(buf@.subrange(0, n as int) =~= buf@);
        proof {
            assert forall|ms: Seq<BlockMeta>|
                valid_metas(ms) && buf@ == #[trigger] metas_bytes(ms) implies metas_view(out@)
                    == metas_view(ms) by {
                let k = out@.len() as int;
                if k < ms.len() {
                    lemma_metas_same_bytes(ms.take(k), out@);
                    lemma_metas_prefix(ms, k);
                    lemma_metas_prefix(ms, k + 1);
                }
                assert(ms.take(k) =~= ms);
            }
        }
        Some(out)
    }
}

/// What the meta section records of each block: its offset and first key.
pub open spec fn metas_view(ms: Seq<BlockMeta>) -> Seq<(int, Seq<u8>)> {
    ms.map_values(|m: BlockMeta| (m.offset as int, m.first_key@))
}

proof fn lemma_metas_same_bytes(a: Seq<BlockMeta>, b: Seq<BlockMeta>)
    requires
        metas_view(a) == metas_view(b),
    ensures
        metas_bytes(a) == metas_bytes(b),
    decreases a.len(),
{
    assert(a.len() == metas_view(a).len());
    assert(b.len() == metas_view(b).len());
    if a.len() > 0 {
        assert forall|q: int| 0 <= q < a.len() - 1 implies #[trigger] metas_view(a.drop_last())[q]
            == metas_view(b.drop_last())[q] by {
            assert(metas_view(a)[q] == metas_view(b)[q]);
        }
        assert(metas_view(a.drop_last()) =~= metas_view(b.drop_last()));
        lemma_metas_same_bytes(a.drop_last(), b.drop_last());
        assert(metas_view(a)[a.len() - 1] == metas_view(b)[b.len() - 1]);
    }
}

proof fn lemma_metas_prefix(ms: Seq<BlockMeta>, k: int)
    requires
        0 <= k <= ms.len(),
    ensures
        metas_bytes(ms.take(k)).len() <= metas_bytes(ms).len(),
        metas_bytes(ms).subrange(0, metas_bytes(ms.take(k)).len() as int) == metas_bytes(ms.take(k)),
        k < ms.len() ==> metas_bytes(ms.take(k + 1)) == metas_bytes(ms.take(k)) + meta_bytes(ms[k]),
    decreases ms.len() - k,
{
    if k == ms.len() {
        assert(ms.take(k) =~= ms);
    } else {
        lemma_metas_prefix(ms, k + 1);
        assert(ms.take(k + 1).drop_last() =~= ms.take(k));
        let a = metas_bytes(ms.take(k));
        let b = metas_bytes(ms.take(k + 1));
        assert(metas_bytes(ms).subrange(0, a.len() as int) =~= b.subrange(0, a.len() as int));
        assert(b.subrange(0, a.len() as int) =~= a);
    }
}

proof fn lemma_meta_step(s: Seq<u8>, ms: Seq<BlockMeta>, k: int, pos: int)
    requires
        valid_metas(ms),
        s == metas_bytes(ms),
        0 <= k <= ms.len(),
        pos == metas_bytes(ms.take(k)).len(),
        pos < s.len(),
    ensures
        k < ms.len(),
        pos + 6 + ms[k].first_key@.len() <= s.len(),
        from_be16(s[pos + 4], s[pos + 5]) == ms[k].first_key@.len(),
        read32(s, pos) == ms[k].offset,
        s.subrange(pos + 6, pos + 6 + ms[k].first_key@.len()) == ms[k].first_key@,
{
    if k == ms.len() {
        assert(ms.take(k) =~= ms);
    }
    lemma_metas_prefix(ms, k);
    lemma_metas_prefix(ms, k + 1);
    let mb = meta_bytes(ms[k]);
    let kl = ms[k].first_key@.len() as int;
    let b = metas_bytes(ms.take(k + 1));
    assert(s.subrange(pos, pos + mb.len()) =~= b.subrange(pos, pos + mb.len()));
    assert(b.subrange(pos, pos + mb.len()) =~= mb);
    let w = s.subrange(pos, pos + mb.len());
    assert(s[pos + 4] == w[4] && s[pos + 5] == w[5]);
    assert(w[4] == be16(kl as u16)[0] && w[5] == be16(kl as u16)[1]);
    assert(ms[k].offset <= u32::MAX && kl <= 65535);
    crate::codec::lemma_be16_read(kl as u16);
    assert(s.subrange(pos, pos + 4) =~= w.subrange(0, 4));
    assert(w.subrange(0, 4) =~= be32(ms[k].offset as u32));
    crate::codec::lemma_be32_read(ms[k].offset as u32, s, pos);
    assert(s.subrange(pos + 6, pos + 6 + kl) =~= w.subrange(6, 6 + kl));
    assert(w.subrange(6, 6 + kl) =~= ms[k].first_key@);
}

proof fn lemma_be32_bytes(s: Seq<u8>, i: int)
    requires
        0 <= i,
        i + 4 <= s.len(),
    ensures
        be32(read32(s, i)) == s.subrange(i, i + 4),
{
    let (a, b, c, d) = (s[i], s[i + 1], s[i + 2], s[i + 3]);
    let x = read32(s, i);
    assert((x >> 24u32) as u8 == a && ((x >> 16u32) & 0xffu32) as u8 == b && ((x >> 8u32)
        & 0xffu32) as u8 == c && (x & 0xffu32) as u8 == d) by (bit_vector)
        requires
            x == ((a as u32) << 24u32) | ((b as u32) << 16u32) | ((c as u32) << 8u32) | (d as u32),
    ;
    assert(be32(x) =~= s.subrange(i, i + 4));
}

/// A table file's bytes, held in memory.
pub struct FileObject {
    data: Vec<u8>,
}

impl View for FileObject {
    type V = Seq<u8>;

    closed spec fn view(&self) -> Seq<u8> {
        self.data@
    }
}

impl FileObject {
    /// The file holding `data`.
    pub fn from_bytes(data: Vec<u8>) -> (r: Self)
        ensures
            r@ == data@,
    {
        FileObject { data }
    }

    /// The file's length.
    pub fn size(&self) -> (r: usize)
        ensures
            r == self@.len(),
    {
        self.data.len()
    }

    /// The file's bytes.
    pub fn as_bytes(&self) -> (r: &[u8])
        ensures
            r@ == self@,
    {
        self.data.as_slice()
    }

    /// The `len` bytes from `offset` on.
    pub fn read(&self, offset: usize, len: usize) -> (r: Vec<u8>)
        requires
            offset + len <= self@.len(),
        ensures
            r@ == self@.subrange(offset as int, offset + len),
    {
        let n = self.data.len();
        assert(offset + len <= n);
        slice_to_vec(slice_subrange(self.data.as_slice(), offset, offset + len))
    }
}

/// A table opened for reading.
pub struct SSTable {
    pub(crate) sst_id: usize,
    pub(crate) file: FileObject,
    pub(crate) block_metas: Vec<BlockMeta>,
    pub(crate) block_meta_offset: usize,
    pub(crate) block_cache: Option<Arc<BlockCache>>,
    pub(crate) blocks: Ghost<Seq<Seq<(Seq<u8>, Seq<u8>)>>>,
}

/// `s` is a table file: its trailer gives where the meta section `ms`
/// starts, and each block lies between its offset and the next, decodes to
/// the entries `bs`, is not empty, and starts with its recorded first key.
pub open spec fn table_layout(
    s: Seq<u8>,
    ms: Seq<BlockMeta>,
    bs: Seq<Seq<(Seq<u8>, Seq<u8>)>>,
) -> bool {
    let mo = read64(s, s.len() - 8) as int;
    &&& s.len() >= 8
    &&& mo <= s.len() - 8
    &&& valid_metas(ms)
    &&& s.subrange(mo, s.len() - 8) == metas_bytes(ms)
    &&& bs.len() == ms.len()
    &&& forall|i: int|
        0 <= i < ms.len() ==> #[trigger] ms[i].offset <= block_end(ms, mo, i) <= mo
    &&& forall|i: int|
        0 <= i < ms.len() ==> decodes_to(#[trigger] s.subrange(ms[i].offset as int, block_end(ms, mo, i)), bs[i])
            && bs[i].len() > 0 && ms[i].first_key@ == bs[i][0].0
}

/// The bytes of block `i` in the file `s` with meta section `ms`: from
/// its offset to the next block's, or to the meta section.
pub open spec fn block_bytes_at(s: Seq<u8>, ms: Seq<BlockMeta>, i: int) -> Seq<u8> {
    s.subrange(ms[i].offset as int, block_end(ms, read64(s, s.len() - 8) as int, i))
}

/// `s` holds a table.
pub open spec fn table_file(s: Seq<u8>) -> bool {
    exists|ms: Seq<BlockMeta>, bs: Seq<Seq<(Seq<u8>, Seq<u8>)>>| #[trigger] table_layout(s, ms, bs)
}

/// Two meta sections with the same view give block `i` the same place.
proof fn lemma_same_layout(s: Seq<u8>, a: Seq<BlockMeta>, b: Seq<BlockMeta>, i: int)
    requires
        metas_view(a) == metas_view(b),
        0 <= i < a.len(),
    ensures
        a.len() == b.len(),
        a[i].offset == b[i].offset,
        a[i].first_key@ == b[i].first_key@,
        forall|mo: int| block_end(a, mo, i) == block_end(b, mo, i),
{
    assert(metas_view(a)[i] == metas_view(b)[i]);
    assert(a.len() == metas_view(a).len() && b.len() == metas_view(b).len());
    if i + 1 < a.len() {
        assert(metas_view(a)[i + 1] == metas_view(b)[i + 1]);
    }
}

/// Where block `i` of `metas` ends: at the next block, or at the meta section.
pub open spec fn block_end(metas: Seq<BlockMeta>, meta_offset: int, i: int) -> int {
    if i + 1 < metas.len() {
        metas[i + 1].offset as int
    } else {
        meta_offset
    }
}

impl SSTable {
    /// The entries of each block.
    pub closed spec fn blocks(&self) -> Seq<Seq<(Seq<u8>, Seq<u8>)>> {
        self.blocks@
    }

    /// All entries, block after block.
    pub open spec fn entries(&self) -> Seq<(Seq<u8>, Seq<u8>)> {
        flatten(self.blocks())
    }

    /// The meta entries.
    pub closed spec fn metas(&self) -> Seq<BlockMeta> {
        self.block_metas@
    }

    /// The bytes of the table's file.
    pub closed spec fn file_bytes(&self) -> Seq<u8> {
        self.file@
    }

    pub closed spec fn id(&self) -> usize {
        self.sst_id
    }

    pub closed spec fn has_cache(&self) -> bool {
        self.block_cache is Some
    }

    /// The bytes of block `i`.
    pub closed spec fn block_range(&self, i: int) -> Seq<u8> {
        self.file@.subrange(
            self.block_metas@[i].offset as int,
            block_end(self.block_metas@, self.block_meta_offset as int, i),
        )
    }

    /// Every block lies before the meta section, in order, decodes to its
    /// entries, is not empty, and its meta entry gives its first key.
    pub closed spec fn wf(&self) -> bool {
        &&& self.blocks_ok()
        &&& self.file@.len() >= 8
        &&& self.block_meta_offset == read64(self.file@, self.file@.len() - 8)
        &&& table_layout(self.file@, self.block_metas@, self.blocks@)
    }

    pub closed spec fn blocks_ok(&self) -> bool {
        &&& self.block_meta_offset <= self.file@.len()
        &&& self.blocks@.len() == self.block_metas@.len()
        &&& forall|i: int|
            0 <= i < self.block_metas@.len() ==> #[trigger] self.block_metas@[i].offset <= block_end(
                self.block_metas@,
                self.block_meta_offset as int,
                i,
            ) <= self.block_meta_offset
        &&& forall|i: int|
            0 <= i < self.block_metas@.len() ==> decodes_to(#[trigger] self.block_range(i), self.blocks@[i])
        &&& forall|i: int|
            0 <= i < self.block_metas@.len() ==> #[trigger] self.blocks@[i].len() > 0
                && self.block_metas@[i].first_key@ == self.blocks@[i][0].0
    }

    /// Opens the table held in `file`. Fails with `Corrupt` unless the
    /// trailer, the meta section and every block follow the format. Each
    /// block is decoded once here and dropped, so that later reads of the
    /// table cannot fail.
    pub fn open(id: usize, block_cache: Option<Arc<BlockCache>>, file: FileObject) -> (r: Result<
        Self,
        Error,
    >)
        ensures
            r is Ok <==> table_file(file@),
            r is Ok ==> r->Ok_0.wf() && r->Ok_0.id() == id && r->Ok_0.has_cache() == block_cache is Some
                && r->Ok_0.file_bytes() == file@,
            r is Ok ==> table_layout(file@, r->Ok_0.metas(), r->Ok_0.blocks()),
            r is Err ==> r->Err_0 == Error::Corrupt,
    {
        let file_len = file.size();
        if file_len < 8 {
            return Err(Error::Corrupt);
        }
        let trailer = get_u64(file.as_bytes(), file_len - 8);
        if trailer > (file_len - 8) as u64 {
            return Err(Error::Corrupt);
        }
        let block_meta_offset = trailer as usize;
        let block_meta_len = file_len - 8 - block_meta_offset;
        let metas_data = file.read(block_meta_offset, block_meta_len);
        let block_metas = match BlockMeta::decode_block_meta(metas_data.as_slice()) {
            Some(m) => m,
            None => {
                proof {
                    assert forall|ms: Seq<BlockMeta>, bs: Seq<Seq<(Seq<u8>, Seq<u8>)>>|
                        !#[trigger] table_layout(file@, ms, bs) by {
                        if table_layout(file@, ms, bs) {
                            assert(metas_bytes(ms) == metas_data@);
                        }
                    }
                }
                return Err(Error::Corrupt);
            },
        };
        let n = block_metas.len();
        let mut i: usize = 0;
        let ghost mut blocks: Seq<Seq<(Seq<u8>, Seq<u8>)>> = Seq::empty();
        while i < n
            invariant
                n == block_metas@.len(),
                i <= n,
                block_meta_offset <= file@.len() - 8,
                file@.len() >= 8,
                block_meta_offset == read64(file@, file@.len() - 8),
                metas_data@ == file@.subrange(block_meta_offset as int, file@.len() - 8),
                metas_data@ == metas_bytes(block_metas@),
                valid_metas(block_metas@),
                forall|ms: Seq<BlockMeta>|
                    valid_metas(ms) && metas_data@ == #[trigger] metas_bytes(ms) ==> metas_view(
                        block_metas@,
                    ) == metas_view(ms),
                blocks.len() == i,
                forall|j: int|
                    0 <= j < i ==> #[trigger] block_metas@[j].offset <= block_end(
                        block_metas@,
                        block_meta_offset as int,
                        j,
                    ) <= block_meta_offset,
                forall|j: int|
                    0 <= j < i ==> decodes_to(
                        #[trigger] file@.subrange(
                            block_metas@[j].offset as int,
                            block_end(block_metas@, block_meta_offset as int, j),
                        ),
                        blocks[j],
                    ),
                forall|j: int|
                    0 <= j < i ==> #[trigger] blocks[j].len() > 0
                        && block_metas@[j].first_key@ == blocks[j][0].0,
            decreases n - i,
        {
            let start = block_metas[i].offset;
            let end = if i + 1 < n {
                block_metas[i + 1].offset
            } else {
                block_meta_offset
            };
            assert(end == block_end(block_metas@, block_meta_offset as int, i as int));
            if start > end || end > block_meta_offset {
                proof {
                    assert forall|ms: Seq<BlockMeta>, bs: Seq<Seq<(Seq<u8>, Seq<u8>)>>|
                        !#[trigger] table_layout(file@, ms, bs) by {
                        if table_layout(file@, ms, bs) {
                            lemma_same_layout(file@, ms, block_metas@, i as int);
                            assert(ms[i as int].offset <= block_end(ms, block_meta_offset as int, i as int));
                        }
                    }
                }
                return Err(Error::Corrupt);
            }
            let bytes = file.read(start, end - start);
            let block = match Block::decode(bytes.as_slice()) {
                Some(b) => b,
                None => {
                    proof {
                        assert forall|ms: Seq<BlockMeta>, bs: Seq<Seq<(Seq<u8>, Seq<u8>)>>|
                            !#[trigger] table_layout(file@, ms, bs) by {
                            if table_layout(file@, ms, bs) {
                                lemma_same_layout(file@, ms, block_metas@, i as int);
                                assert(decodes_to(bytes@, bs[i as int]));
                            }
                        }
                    }
                    return Err(Error::Corrupt);
                },
            };
            if block.len() == 0 || !crate::codec::key_equal(
                block.key_at(0),
                block_metas[i].first_key.as_slice(),
            ) {
                proof {
                    assert forall|ms: Seq<BlockMeta>, bs: Seq<Seq<(Seq<u8>, Seq<u8>)>>|
                        !#[trigger] table_layout(file@, ms, bs) by {
                        if table_layout(file@, ms, bs) {
                            lemma_same_layout(file@, ms, block_metas@, i as int);
                            assert(decodes_to(bytes@, bs[i as int]));
                            assert(bs[i as int].len() > 0);
                        }
                    }
                }
                return Err(Error::Corrupt);
            }
            proof {
                assert(block@[0].0 == block_metas@[i as int].first_key@);
                let nb = blocks.push(block@);
                assert(nb[i as int] == block@);
                assert forall|j: int| 0 <= j < i implies nb[j] == blocks[j] by {}
                blocks = nb;
            }
            i = i + 1;
        }
        let r = Self {
            sst_id: id,
            file,
            block_metas,
            block_meta_offset,
            block_cache,
            blocks: Ghost(blocks),
        };
        assert forall|j: int| 0 <= j < r.block_metas@.len() implies decodes_to(
            #[trigger] r.block_range(j),
            r.blocks@[j],
        ) by {
            assert(r.block_range(j) == r.file@.subrange(
                block_metas@[j].offset as int,
                block_end(block_metas@, block_meta_offset as int, j),
            ));
        }
        assert(table_layout(r.file@, r.block_metas@, blocks));
        Ok(r)
    }

    /// The table's file.
    pub fn file(&self) -> (r: &FileObject)
        ensures
            r@ == self.file_bytes(),
    {
        &self.file
    }

    /// The table's id.
    pub fn sst_id(&self) -> (r: usize)
        ensures
            r == self.id(),
    {
        self.sst_id
    }

    /// A well-formed table lays out its file as its meta section says.
    pub proof fn lemma_layout(&self)
        requires
            self.wf(),
        ensures
            table_layout(self.file_bytes(), self.metas(), self.blocks()),
            self.metas().len() == self.blocks().len(),
    {
    }

    /// The number of blocks.
    pub fn num_blocks(&self) -> (r: usize)
        requires
            self.wf(),
        ensures
            r == self.blocks().len(),
    {
        self.block_metas.len()
    }

    /// Reads block `block_idx`.
    pub fn read_block(&self, block_idx: usize) -> (r: Result<Arc<Block>, Error>)
        requires
            self.wf(),
            block_idx < self.blocks().len(),
        ensures
            r is Ok,
            r->Ok_0.wf(),
            r->Ok_0@ == self.blocks()[block_idx as int],
            r->Ok_0@.len() > 0,
            decodes_to(block_bytes_at(self.file_bytes(), self.metas(), block_idx as int), r->Ok_0@),
    {
        let offset = self.block_metas[block_idx].offset;
        let offset_end = if block_idx < self.block_metas.len() - 1 {
            self.block_metas[block_idx + 1].offset
        } else {
            self.block_meta_offset
        };
        assert(self.block_metas@[block_idx as int].offset <= offset_end);
        let data = self.file.read(offset, offset_end - offset);
        assert(data@ == self.block_range(block_idx as int));
        match Block::decode(data.as_slice()) {
            Some(b) => Ok(Arc::new(b)),
            None => Err(Error::Corrupt),
        }
    }

    /// Reads block `block_idx` through the block cache: the cached block
    /// when there is one, else the block read and then cached. Fails with
    /// `NoBlockCache` when the table has no cache.
    pub fn read_block_cached(&self, block_idx: usize) -> (r: Result<Arc<Block>, Error>)
        requires
            self.wf(),
            block_idx < self.blocks().len(),
        ensures
            r is Err <==> !self.has_cache(),
            r is Err ==> r->Err_0 == Error::NoBlockCache,
    {
        match &self.block_cache {
            None => Err(Error::NoBlockCache),
            Some(cache) => {
                let hit = cache_get(cache, self.sst_id, block_idx);
                let is_miss = hit.is_none();
                let block = self.cached_or_read(block_idx, hit);
                if is_miss {
                    cache_insert(cache, self.sst_id, block_idx, &block);
                }
                Ok(block)
            },
        }
    }

    /// The block found in the cache, if any; otherwise block `block_idx`
    /// read from the table.
    pub fn cached_or_read(&self, block_idx: usize, hit: Option<Arc<Block>>) -> (r: Arc<Block>)
        requires
            self.wf(),
            block_idx < self.blocks().len(),
        ensures
            hit is Some ==> r == hit->0,
            hit is None ==> r.wf() && r@ == self.blocks()[block_idx as int],
    {
        match hit {
            Some(b) => b,
            None => match self.read_block(block_idx) {
                Ok(b) => b,
                Err(_) => Arc::new(Block::empty()),
            },
        }
    }

    /// The block that may hold `key`: the last whose first key is not above
    /// `key`, or the first block when every first key is above it.
    pub fn find_block_idx(&self, key: &[u8]) -> (r: usize)
        requires
            self.wf(),
            self.blocks().len() > 0,
        ensures
            r < self.blocks().len(),
            r > 0 ==> key_le(self.blocks()[r as int][0].0, key@),
            r + 1 < self.blocks().len() ==> key_lt(key@, self.blocks()[r + 1][0].0),
    {
        let mut l: usize = 0;
        let mut r: usize = self.block_metas.len() - 1;
        while l < r
            invariant
                self.wf(),
                l <= r < self.block_metas@.len(),
                l > 0 ==> key_le(self.block_metas@[l as int].first_key@, key@),
                r + 1 < self.block_metas@.len() ==> key_lt(key@, self.block_metas@[r + 1].first_key@),
            decreases r - l,
        {
            let m = l + (r - l - 1) / 2 + 1;
            if key_less(key, self.block_metas[m].first_key.as_slice()) {
                r = m - 1;
            } else {
                proof {
                    crate::codec::lemma_key_lt_total(key@, self.block_metas@[m as int].first_key@);
                }
                l = m;
            }
        }
        assert(self.blocks@[l as int].len() > 0);
        if l + 1 < self.block_metas.len() {
            assert(self.blocks@[l + 1].len() > 0);
        }
        l
    }
}

} // verus!
