//! An immutable sorted run of key/value entries and its binary encoding.
//!
//! A block is laid out as its entries, each `u16 key_len ‖ key ‖ u16
//! value_len ‖ value`, then one `u16` offset per entry, then the `u16`
//! number of entries; all integers big-endian.
use crate::codec::{be16, from_be16, get_u16, lemma_be16_bytes, lemma_be16_read, put_u16};
use vstd::prelude::*;
use vstd::slice::slice_subrange;

pub mod builder;
pub mod iterator;

verus! {

/// The bytes of one entry.
pub open spec fn entry_bytes(e: (Seq<u8>, Seq<u8>)) -> Seq<u8> {
    be16(e.0.len() as u16) + e.0 + be16(e.1.len() as u16) + e.1
}

/// The bytes of a run of entries, one after another.
pub open spec fn entries_bytes(es: Seq<(Seq<u8>, Seq<u8>)>) -> Seq<u8>
    decreases es.len(),
{
    if es.len() == 0 {
        Seq::empty()
    } else {
        entries_bytes(es.drop_last()) + entry_bytes(es.last())
    }
}

/// Where entry `i` starts.
pub open spec fn entry_offset(es: Seq<(Seq<u8>, Seq<u8>)>, i: int) -> int {
    entries_bytes(es.take(i)).len() as int
}

/// The offset table: the start of each entry as a big-endian `u16`.
pub open spec fn offsets_bytes(es: Seq<(Seq<u8>, Seq<u8>)>) -> Seq<u8>
    decreases es.len(),
{
    if es.len() == 0 {
        Seq::empty()
    } else {
        offsets_bytes(es.drop_last()) + be16(entries_bytes(es.drop_last()).len() as u16)
    }
}

/// The encoding of a block holding `es`.
pub open spec fn block_bytes(es: Seq<(Seq<u8>, Seq<u8>)>) -> Seq<u8> {
    entries_bytes(es) + offsets_bytes(es) + be16(es.len() as u16)
}

/// Entries that the format can hold: every length, count and offset fits in 16 bits.
pub open spec fn valid_entries(es: Seq<(Seq<u8>, Seq<u8>)>) -> bool {
    &&& es.len() <= 65535
    &&& forall|i: int| 0 <= i < es.len() ==> #[trigger] es[i].0.len() <= 65535 && es[i].1.len() <= 65535
    &&& forall|i: int| 0 <= i < es.len() ==> #[trigger] entry_offset(es, i) <= 65535
}

/// `s` holds a block with entries `es`: the entries at its start, the offset
/// table and count at its end. Bytes between the two are ignored.
pub open spec fn decodes_to(s: Seq<u8>, es: Seq<(Seq<u8>, Seq<u8>)>) -> bool {
    let tbl = s.len() - 2 - 2 * es.len();
    &&& valid_entries(es)
    &&& tbl >= entries_bytes(es).len()
    &&& s.subrange(0, entries_bytes(es).len() as int) == entries_bytes(es)
    &&& s.subrange(tbl, s.len() as int) == offsets_bytes(es) + be16(es.len() as u16)
}

/// Keys in non-decreasing order.
pub open spec fn sorted(es: Seq<(Seq<u8>, Seq<u8>)>) -> bool {
    forall|i: int, j: int| 0 <= i < j < es.len() ==> crate::codec::key_le(#[trigger] es[i].0, #[trigger] es[j].0)
}

/// Adding entries in key order keeps a block sorted: when the entries are
/// sorted and the new key is not below the last one, every entry's key is
/// at most that of each later entry.
pub proof fn lemma_block_order(es: Seq<(Seq<u8>, Seq<u8>)>, key: Seq<u8>, value: Seq<u8>)
    requires
        sorted(es),
        es.len() > 0 ==> crate::codec::key_le(es.last().0, key),
    ensures
        sorted(es.push((key, value))),
        forall|i: int, j: int|
            0 <= i < j < es.len() + 1 ==> crate::codec::key_le(
                #[trigger] es.push((key, value))[i].0,
                #[trigger] es.push((key, value))[j].0,
            ),
{
    let ne = es.push((key, value));
    assert forall|i: int, j: int| 0 <= i < j < ne.len() implies crate::codec::key_le(
        #[trigger] ne[i].0,
        #[trigger] ne[j].0,
    ) by {
        if j == es.len() {
            if i < es.len() - 1 {
                assert(crate::codec::key_le(es[i].0, es[es.len() - 1].0));
                crate::codec::lemma_key_le_transitive(es[i].0, es.last().0, key);
            }
        } else {
            assert(ne[i] == es[i] && ne[j] == es[j]);
        }
    }
}

/// Keys strictly increasing.
pub open spec fn strictly_sorted(es: Seq<(Seq<u8>, Seq<u8>)>) -> bool {
    forall|i: int, j: int| 0 <= i < j < es.len() ==> crate::codec::key_lt(#[trigger] es[i].0, #[trigger] es[j].0)
}

pub proof fn lemma_entries_bytes_push(es: Seq<(Seq<u8>, Seq<u8>)>, e: (Seq<u8>, Seq<u8>))
    ensures
        entries_bytes(es.push(e)) == entries_bytes(es) + entry_bytes(e),
        offsets_bytes(es.push(e)) == offsets_bytes(es) + be16(entries_bytes(es).len() as u16),
{
    assert(es.push(e).drop_last() =~= es);
}

pub proof fn lemma_take_step(es: Seq<(Seq<u8>, Seq<u8>)>, i: int)
    requires
        0 <= i < es.len(),
    ensures
        entries_bytes(es.take(i + 1)) == entries_bytes(es.take(i)) + entry_bytes(es[i]),
        offsets_bytes(es.take(i + 1)) == offsets_bytes(es.take(i)) + be16(
            entries_bytes(es.take(i)).len() as u16,
        ),
{
    assert(es.take(i + 1) =~= es.take(i).push(es[i]));
    lemma_entries_bytes_push(es.take(i), es[i]);
}

/// The bytes of a prefix of the entries are a prefix of their bytes.
pub proof fn lemma_prefix(es: Seq<(Seq<u8>, Seq<u8>)>, i: int)
    requires
        0 <= i <= es.len(),
    ensures
        entries_bytes(es.take(i)).len() <= entries_bytes(es).len(),
        entries_bytes(es).subrange(0, entries_bytes(es.take(i)).len() as int) == entries_bytes(
            es.take(i),
        ),
        offsets_bytes(es.take(i)).len() == 2 * i,
        offsets_bytes(es).len() == 2 * es.len(),
        offsets_bytes(es).subrange(0, 2 * i) == offsets_bytes(es.take(i)),
    decreases es.len() - i,
{
    if i == es.len() {
        assert(es.take(i) =~= es);
        lemma_offsets_len(es);
    } else {
        lemma_prefix(es, i + 1);
        lemma_take_step(es, i);
        let a = entries_bytes(es.take(i));
        let b = entries_bytes(es.take(i + 1));
        assert(entries_bytes(es).subrange(0, a.len() as int) =~= b.subrange(0, a.len() as int));
        assert(b.subrange(0, a.len() as int) =~= a);
        let oa = offsets_bytes(es.take(i));
        let ob = offsets_bytes(es.take(i + 1));
        assert(offsets_bytes(es).subrange(0, 2 * i) =~= ob.subrange(0, 2 * i));
        assert(ob.subrange(0, 2 * i) =~= oa);
    }
}

pub proof fn lemma_offsets_len(es: Seq<(Seq<u8>, Seq<u8>)>)
    ensures
        offsets_bytes(es).len() == 2 * es.len(),
    decreases es.len(),
{
    if es.len() > 0 {
        lemma_offsets_len(es.drop_last());
    }
}

/// Entry `i` lies in the bytes of the entries, at its offset.
pub proof fn lemma_entry_at(es: Seq<(Seq<u8>, Seq<u8>)>, i: int)
    requires
        0 <= i < es.len(),
    ensures
        entry_offset(es, i) + entry_bytes(es[i]).len() == entry_offset(es, i + 1),
        entry_offset(es, i + 1) <= entries_bytes(es).len(),
        entries_bytes(es).subrange(entry_offset(es, i), entry_offset(es, i + 1)) == entry_bytes(
            es[i],
        ),
        offsets_bytes(es).subrange(2 * i, 2 * i + 2) == be16(entry_offset(es, i) as u16),
{
    lemma_prefix(es, i + 1);
    lemma_take_step(es, i);
    lemma_prefix(es.take(i + 1), i);
    let a = entries_bytes(es.take(i));
    let b = entries_bytes(es.take(i + 1));
    assert(entries_bytes(es).subrange(a.len() as int, b.len() as int) =~= b.subrange(
        a.len() as int,
        b.len() as int,
    ));
    assert(b.subrange(a.len() as int, b.len() as int) =~= entry_bytes(es[i]));
    let ob = offsets_bytes(es.take(i + 1));
    assert(offsets_bytes(es).subrange(2 * i, 2 * i + 2) =~= ob.subrange(2 * i, 2 * i + 2));
    lemma_offsets_len(es.take(i));
    assert(ob.subrange(2 * i, 2 * i + 2) =~= be16(a.len() as u16));
}

/// A sorted run of entries, with the offset of each entry.
pub struct Block {
    /// The encoded entries.
    pub data: Vec<u8>,
    /// Where each entry starts in `data`.
    pub offsets: Vec<u16>,
    /// The entries.
    pub entries: Ghost<Seq<(Seq<u8>, Seq<u8>)>>,
}

impl View for Block {
    type V = Seq<(Seq<u8>, Seq<u8>)>;

    open spec fn view(&self) -> Seq<(Seq<u8>, Seq<u8>)> {
        self.entries@
    }
}

impl Block {
    /// `data` and `offsets` encode the entries.
    pub open spec fn wf(&self) -> bool {
        &&& valid_entries(self@)
        &&& self.data@ == entries_bytes(self@)
        &&& self.offsets@.len() == self@.len()
        &&& forall|i: int| 0 <= i < self@.len() ==> #[trigger] self.offsets@[i] == entry_offset(self@, i)
    }

    /// A block with no entries.
    pub fn empty() -> (r: Block)
        ensures
            r.wf(),
            r@.len() == 0,
    {
        let r = Block { data: Vec::new(), offsets: Vec::new(), entries: Ghost(Seq::empty()) };
        assert(r.data@ =~= entries_bytes(r@));
        r
    }

    /// The number of entries.
    pub fn len(&self) -> (r: usize)
        requires
            self.wf(),
        ensures
            r == self@.len(),
    {
        self.offsets.len()
    }

    /// The key of entry `i`.
    pub fn key_at(&self, i: usize) -> (r: &[u8])
        requires
            self.wf(),
            i < self@.len(),
        ensures
            r@ == self@[i as int].0,
    {
        proof {
            lemma_entry_bytes_in_data(self, i as int);
        }
        let off = self.offsets[i] as usize;
        let len = get_u16(self.data.as_slice(), off) as usize;
        slice_subrange(self.data.as_slice(), off + 2, off + 2 + len)
    }

    /// The value of entry `i`.
    pub fn value_at(&self, i: usize) -> (r: &[u8])
        requires
            self.wf(),
            i < self@.len(),
        ensures
            r@ == self@[i as int].1,
    {
        proof {
            lemma_entry_bytes_in_data(self, i as int);
        }
        let off = self.offsets[i] as usize;
        let klen = get_u16(self.data.as_slice(), off) as usize;
        let vlen = get_u16(self.data.as_slice(), off + 2 + klen) as usize;
        slice_subrange(self.data.as_slice(), off + 4 + klen, off + 4 + klen + vlen)
    }

    /// The block's bytes: its entries, its offsets, and their count.
    pub fn encode(&self) -> (r: Vec<u8>)
        requires
            self.wf(),
        ensures
            r@ == block_bytes(self@),
    {
        let mut buf = self.data.clone();
        let n = self.offsets.len();
        let mut i: usize = 0;
        assert(self@.take(0) =~= Seq::<(Seq<u8>, Seq<u8>)>::empty());
        assert(buf@ =~= self.data@ + offsets_bytes(self@.take(0)));
        while i < n
            invariant
                self.wf(),
                n == self@.len(),
                i <= n,
                buf@ == self.data@ + offsets_bytes(self@.take(i as int)),
            decreases n - i,
        {
            put_u16(&mut buf, self.offsets[i]);
            proof {
                lemma_take_step(self@, i as int);
                assert(entry_offset(self@, i as int) <= 65535);
            }
            i = i + 1;
        }
        put_u16(&mut buf, n as u16);
        assert(self@.take(n as int) =~= self@);
        buf
    }

    /// Reads a block back from its encoding. `None` when `data` holds no
    /// block.
    #[verifier::rlimit(60)]
    pub fn decode(data: &[u8]) -> (r: Option<Block>)
        ensures
            match r {
                Some(b) => b.wf() && decodes_to(data@, b@),
                None => forall|es| !decodes_to(data@, es),
            },
            forall|es| decodes_to(data@, es) ==> r is Some && r->0@ == es,
    {
        let n = data.len();
        if n < 2 {
            return None;
        }
        let count = get_u16(data, n - 2) as usize;
        if 2 * count + 2 > n {
            proof {
                assert forall|es| !decodes_to(data@, es) by {
                    if decodes_to(data@, es) {
                        lemma_trailer(data@, es);
                    }
                }
            }
            return None;
        }
        let tbl = n - 2 - 2 * count;
        proof {
            assert forall|es| decodes_to(data@, es) implies es.len() == count by {
                lemma_trailer(data@, es);
            }
        }
        let mut offsets: Vec<u16> = Vec::new();
        let mut i: usize = 0;
        while i < count
            invariant
                i <= count,
                tbl + 2 * count + 2 == n,
                n == data@.len(),
                offsets@.len() == i,
                forall|j: int|
                    0 <= j < i ==> #[trigger] offsets@[j] == from_be16(
                        data@[tbl + 2 * j],
                        data@[tbl + 2 * j + 1],
                    ),
            decreases count - i,
        {
            offsets.push(get_u16(data, tbl + 2 * i));
            i = i + 1;
        }
        let mut pos: usize = 0;
        let ghost mut es: Seq<(Seq<u8>, Seq<u8>)> = Seq::empty();
        let mut i: usize = 0;
        while i < count
            invariant
                i <= count,
                count <= 65535,
                tbl + 2 * count + 2 == n,
                n == data@.len(),
                offsets@.len() == count,
                forall|j: int|
                    0 <= j < count ==> #[trigger] offsets@[j] == from_be16(
                        data@[tbl + 2 * j],
                        data@[tbl + 2 * j + 1],
                    ),
                es.len() == i,
                pos == entries_bytes(es).len(),
                pos <= tbl,
                data@.subrange(0, pos as int) == entries_bytes(es),
                forall|j: int| 0 <= j < i ==> #[trigger] offsets@[j] == entry_offset(es, j),
                forall|j: int|
                    0 <= j < i ==> #[trigger] es[j].0.len() <= 65535 && es[j].1.len() <= 65535,
                forall|e| decodes_to(data@, e) ==> e.len() == count && e.take(i as int) == es,
            decreases count - i,
        {
            if offsets[i] as usize != pos || pos + 2 > tbl {
                proof {
                    assert forall|e| !decodes_to(data@, e) by {
                        if decodes_to(data@, e) {
                            lemma_decode_step(data@, es, e, i as int, pos as int, tbl as int);
                            assert(offsets@[i as int] == from_be16(data@[tbl + 2 * i], data@[tbl + 2 * i + 1]));
                        }
                    }
                }
                return None;
            }
            let klen = get_u16(data, pos) as usize;
            if pos + 2 + klen + 2 > tbl {
                proof {
                    assert forall|e| !decodes_to(data@, e) by {
                        if decodes_to(data@, e) {
                            lemma_decode_step(data@, es, e, i as int, pos as int, tbl as int);
                        }
                    }
                }
                return None;
            }
            let vlen = get_u16(data, pos + 2 + klen) as usize;
            if pos + 4 + klen + vlen > tbl {
                proof {
                    assert forall|e| !decodes_to(data@, e) by {
                        if decodes_to(data@, e) {
                            lemma_decode_step(data@, es, e, i as int, pos as int, tbl as int);
                        }
                    }
                }
                return None;
            }
            let ghost e_new = (
                data@.subrange(pos + 2, pos + 2 + klen),
                data@.subrange(pos + 4 + klen, pos + 4 + klen + vlen),
            );
            proof {
                lemma_be16_bytes(data@[pos as int], data@[pos + 1]);
                lemma_be16_bytes(data@[pos + 2 + klen], data@[pos + 3 + klen]);
                lemma_entries_bytes_push(es, e_new);
                assert(entry_bytes(e_new) =~= data@.subrange(pos as int, pos + 4 + klen + vlen));
                assert(data@.subrange(0, pos + 4 + klen + vlen) =~= data@.subrange(0, pos as int)
                    + data@.subrange(pos as int, pos + 4 + klen + vlen));
                assert forall|e| decodes_to(data@, e) implies e.take(i + 1) == es.push(e_new) by {
                    lemma_decode_step(data@, es, e, i as int, pos as int, tbl as int);
                    assert(e.take(i + 1) =~= e.take(i as int).push(e[i as int]));
                }
                assert forall|j: int| 0 <= j < i + 1 implies #[trigger] offsets@[j] == entry_offset(
                    es.push(e_new),
                    j,
                ) by {
                    assert(es.push(e_new).take(j) =~= es.take(j));
                }
            }
            pos = pos + 4 + klen + vlen;
            proof {
                es = es.push(e_new);
            }
            i = i + 1;
        }
        assert(es.take(count as int) =~= es);
        let mut out: Vec<u8> = Vec::new();
        let mut k: usize = 0;
        while k < pos
            invariant
                k <= pos,
                pos <= data@.len(),
                out@ == data@.subrange(0, k as int),
            decreases pos - k,
        {
            out.push(data[k]);
            assert(data@.subrange(0, k + 1) =~= data@.subrange(0, k as int).push(data@[k as int]));
            k = k + 1;
        }
        proof {
            assert forall|j: int| 0 <= j < count implies #[trigger] entry_offset(es, j) <= 65535 by {
                assert(offsets@[j] == entry_offset(es, j));
            }
            lemma_table_bytes(data@, es, offsets@, tbl as int);
        }
        Some(Block { data: out, offsets, entries: Ghost(es) })
    }
}

/// Decoding the encoding of a block gives the block back: the encoding
/// decodes to its entries, and the entries fix `data` and `offsets`.
pub proof fn lemma_decode_encode(b: &Block)
    requires
        b.wf(),
    ensures
        decodes_to(block_bytes(b@), b@),
        forall|c: Block| #[trigger] c.wf() && c@ == b@ ==> c.data@ == b.data@ && c.offsets@ == b.offsets@,
{
    let es = b@;
    let s = block_bytes(es);
    lemma_offsets_len(es);
    let eb = entries_bytes(es);
    assert(s.subrange(0, eb.len() as int) =~= eb);
    assert(s.subrange(s.len() - 2 - 2 * es.len(), s.len() as int) =~= offsets_bytes(es) + be16(
        es.len() as u16,
    ));
    assert forall|c: Block| #[trigger] c.wf() && c@ == b@ implies c.data@ == b.data@ && c.offsets@ == b.offsets@ by {
        assert(c.offsets@ =~= b.offsets@);
    }
}

/// Where entry `i` of a well-formed block stands in its data.
proof fn lemma_entry_bytes_in_data(b: &Block, i: int)
    requires
        b.wf(),
        0 <= i < b@.len(),
    ensures
        ({
            let p = b.offsets@[i] as int;
            let k = b@[i].0.len() as int;
            let v = b@[i].1.len() as int;
            &&& p + 4 + k + v <= b.data@.len()
            &&& from_be16(b.data@[p], b.data@[p + 1]) == k
            &&& from_be16(b.data@[p + 2 + k], b.data@[p + 3 + k]) == v
            &&& b.data@.subrange(p + 2, p + 2 + k) == b@[i].0
            &&& b.data@.subrange(p + 4 + k, p + 4 + k + v) == b@[i].1
        }),
{
    let es = b@;
    lemma_entry_at(es, i);
    let p = entry_offset(es, i);
    assert(b.offsets@[i] == p);
    let k = es[i].0.len() as int;
    let v = es[i].1.len() as int;
    let eb = entry_bytes(es[i]);
    let s = b.data@;
    let w = s.subrange(p, p + eb.len());
    assert(w == eb);
    assert(s[p] == w[0] && s[p + 1] == w[1]);
    assert(s[p + 2 + k] == w[2 + k] && s[p + 3 + k] == w[3 + k]);
    assert(eb[0] == be16(k as u16)[0] && eb[1] == be16(k as u16)[1]);
    assert(eb[2 + k] == be16(v as u16)[0] && eb[3 + k] == be16(v as u16)[1]);
    assert(k <= 65535 && v <= 65535);
    lemma_be16_read(k as u16);
    lemma_be16_read(v as u16);
    assert(s.subrange(p + 2, p + 2 + k) =~= eb.subrange(2, 2 + k));
    assert(eb.subrange(2, 2 + k) =~= es[i].0);
    assert(s.subrange(p + 4 + k, p + 4 + k + v) =~= eb.subrange(4 + k, 4 + k + v));
    assert(eb.subrange(4 + k, 4 + k + v) =~= es[i].1);
}

proof fn lemma_decode_step(
    s: Seq<u8>,
    prefix: Seq<(Seq<u8>, Seq<u8>)>,
    es: Seq<(Seq<u8>, Seq<u8>)>,
    i: int,
    pos: int,
    tbl: int,
)
    requires
        decodes_to(s, es),
        0 <= i < es.len(),
        es.take(i) == prefix,
        pos == entries_bytes(prefix).len(),
        tbl == s.len() - 2 - 2 * es.len(),
    ensures
        from_be16(s[tbl + 2 * i], s[tbl + 2 * i + 1]) == pos,
        pos + 4 + es[i].0.len() + es[i].1.len() <= tbl,
        from_be16(s[pos], s[pos + 1]) == es[i].0.len(),
        from_be16(s[pos + 2 + es[i].0.len()], s[pos + 3 + es[i].0.len()]) == es[i].1.len(),
        s.subrange(pos + 2, pos + 2 + es[i].0.len()) == es[i].0,
        s.subrange(pos + 4 + es[i].0.len(), pos + 4 + es[i].0.len() + es[i].1.len()) == es[i].1,
{
    lemma_offset_in_table(s, es, i);
    lemma_entry_in_data(s, es, i);
}

proof fn lemma_trailer(s: Seq<u8>, es: Seq<(Seq<u8>, Seq<u8>)>)
    requires
        decodes_to(s, es),
    ensures
        s.len() >= 2,
        es.len() == from_be16(s[s.len() - 2], s[s.len() - 1]),
        2 * es.len() + 2 <= s.len(),
{
    lemma_offsets_len(es);
    let tbl = s.len() - 2 - 2 * es.len();
    let t = s.subrange(tbl, s.len() as int);
    assert(t[t.len() - 2] == s[s.len() - 2]);
    assert(t[t.len() - 1] == s[s.len() - 1]);
    assert(t[t.len() - 2] == be16(es.len() as u16)[0]);
    assert(t[t.len() - 1] == be16(es.len() as u16)[1]);
    lemma_be16_read(es.len() as u16);
}

proof fn lemma_offset_in_table(s: Seq<u8>, es: Seq<(Seq<u8>, Seq<u8>)>, i: int)
    requires
        decodes_to(s, es),
        0 <= i < es.len(),
    ensures
        from_be16(s[s.len() - 2 - 2 * es.len() + 2 * i], s[s.len() - 2 - 2 * es.len() + 2 * i + 1])
            == entry_offset(es, i),
{
    lemma_entry_at(es, i);
    lemma_offsets_len(es);
    let tbl = s.len() - 2 - 2 * es.len();
    let t = s.subrange(tbl, s.len() as int);
    let o = offsets_bytes(es);
    assert(t[2 * i] == o[2 * i] && t[2 * i + 1] == o[2 * i + 1]);
    assert(o[2 * i] == o.subrange(2 * i, 2 * i + 2)[0]);
    assert(o[2 * i + 1] == o.subrange(2 * i, 2 * i + 2)[1]);
    assert(entry_offset(es, i) <= 65535);
    lemma_be16_read(entry_offset(es, i) as u16);
}

/// Entry `i` as it stands in `s`.
proof fn lemma_entry_in_data(s: Seq<u8>, es: Seq<(Seq<u8>, Seq<u8>)>, i: int)
    requires
        decodes_to(s, es),
        0 <= i < es.len(),
    ensures
        ({
            let p = entry_offset(es, i);
            let k = es[i].0.len() as int;
            let v = es[i].1.len() as int;
            &&& p + 4 + k + v <= s.len() - 2 - 2 * es.len()
            &&& from_be16(s[p], s[p + 1]) == k
            &&& from_be16(s[p + 2 + k], s[p + 3 + k]) == v
            &&& s.subrange(p + 2, p + 2 + k) == es[i].0
            &&& s.subrange(p + 4 + k, p + 4 + k + v) == es[i].1
        }),
{
    lemma_entry_at(es, i);
    let p = entry_offset(es, i);
    let k = es[i].0.len() as int;
    let v = es[i].1.len() as int;
    let eb = entry_bytes(es[i]);
    let all = entries_bytes(es);
    assert(s.subrange(p, p + eb.len()) =~= all.subrange(p, p + eb.len()));
    let w = s.subrange(p, p + eb.len());
    assert(w == eb);
    assert(s[p] == w[0] && s[p + 1] == w[1]);
    assert(s[p + 2 + k] == w[2 + k] && s[p + 3 + k] == w[3 + k]);
    assert(eb[0] == be16(k as u16)[0] && eb[1] == be16(k as u16)[1]);
    assert(eb[2 + k] == be16(v as u16)[0] && eb[3 + k] == be16(v as u16)[1]);
    lemma_be16_read(k as u16);
    lemma_be16_read(v as u16);
    assert(s.subrange(p + 2, p + 2 + k) =~= eb.subrange(2, 2 + k));
    assert(eb.subrange(2, 2 + k) =~= es[i].0);
    assert(s.subrange(p + 4 + k, p + 4 + k + v) =~= eb.subrange(4 + k, 4 + k + v));
    assert(eb.subrange(4 + k, 4 + k + v) =~= es[i].1);
}

/// The offset table read from `s` is the one that `es` gives.
proof fn lemma_table_bytes(
    s: Seq<u8>,
    es: Seq<(Seq<u8>, Seq<u8>)>,
    offs: Seq<u16>,
    tbl: int,
)
    requires
        es.len() <= 65535,
        offs.len() == es.len(),
        tbl == s.len() - 2 - 2 * es.len(),
        tbl >= 0,
        from_be16(s[s.len() - 2], s[s.len() - 1]) == es.len(),
        forall|j: int|
            0 <= j < es.len() ==> #[trigger] offs[j] == from_be16(s[tbl + 2 * j], s[tbl + 2 * j + 1]),
        forall|j: int| 0 <= j < es.len() ==> #[trigger] offs[j] == entry_offset(es, j),
    ensures
        s.subrange(tbl, s.len() as int) == offsets_bytes(es) + be16(es.len() as u16),
{
    lemma_offsets_len(es);
    let o = offsets_bytes(es);
    lemma_be16_bytes(s[s.len() - 2], s[s.len() - 1]);
    let t = s.subrange(tbl, s.len() as int);
    let u = o + be16(es.len() as u16);
    assert forall|q: int| 0 <= q < t.len() implies t[q] == u[q] by {
        if q < 2 * es.len() {
            let j = q / 2;
            assert(q == 2 * j || q == 2 * j + 1);
            assert(offs[j] == from_be16(s[tbl + 2 * j], s[tbl + 2 * j + 1]));
            assert(offs[j] == entry_offset(es, j));
            lemma_entry_at(es, j);
            lemma_be16_bytes(s[tbl + 2 * j], s[tbl + 2 * j + 1]);
            assert(o[2 * j] == o.subrange(2 * j, 2 * j + 2)[0]);
            assert(o[2 * j + 1] == o.subrange(2 * j, 2 * j + 2)[1]);
        } else {
            assert(q == 2 * es.len() || q == 2 * es.len() + 1);
        }
    }
    assert(t =~= u);
}

} // verus!
