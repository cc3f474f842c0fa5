use super::StorageIterator;
use crate::codec::{key_equal, key_less, key_lt, lemma_key_lt_asymmetric, lemma_key_lt_irreflexive, lemma_key_lt_total, lemma_key_lt_transitive};
use crate::error::Error;
use vstd::prelude::*;
use vstd::slice::slice_to_vec;

verus! {

/// Source `c` holds the least current entry: the least key, and among
/// sources at that key the lowest index.
pub open spec fn min_source(srcs: Seq<Seq<(Seq<u8>, Seq<u8>)>>, c: int) -> bool {
    &&& 0 <= c < srcs.len()
    &&& srcs[c].len() > 0
    &&& forall|j: int|
        0 <= j < srcs.len() && #[trigger] srcs[j].len() > 0 ==> key_lt(srcs[c][0].0, srcs[j][0].0)
            || (srcs[c][0].0 == srcs[j][0].0 && c <= j)
}

/// `s` past every leading entry at key `k`.
pub open spec fn skip_key(s: Seq<(Seq<u8>, Seq<u8>)>, k: Seq<u8>) -> Seq<(Seq<u8>, Seq<u8>)>
    decreases s.len(),
{
    if s.len() > 0 && s[0].0 == k {
        skip_key(s.drop_first(), k)
    } else {
        s
    }
}

/// The sources once source `c` moved past its current entry, at key `k`,
/// and every other source past all its entries at `k`.
pub open spec fn step(srcs: Seq<Seq<(Seq<u8>, Seq<u8>)>>, c: int, k: Seq<u8>) -> Seq<Seq<(Seq<u8>, Seq<u8>)>> {
    Seq::new(
        srcs.len(),
        |j: int|
            if j == c {
                srcs[j].drop_first()
            } else {
                skip_key(srcs[j], k)
            },
    )
}

/// Skipping leaves a suffix whose first key, if any, is not `k`, after
/// entries all at `k`.
pub proof fn lemma_skip_key(s: Seq<(Seq<u8>, Seq<u8>)>, k: Seq<u8>)
    ensures
        skip_key(s, k).len() <= s.len(),
        skip_key(s, k) == s.skip(s.len() - skip_key(s, k).len()),
        skip_key(s, k).len() > 0 ==> skip_key(s, k)[0].0 != k,
        forall|i: int| 0 <= i < s.len() - skip_key(s, k).len() ==> #[trigger] s[i].0 == k,
    decreases s.len(),
{
    if s.len() > 0 && s[0].0 == k {
        lemma_skip_key(s.drop_first(), k);
        let t = skip_key(s, k);
        assert(t == s.skip(s.len() - t.len())) by {
            assert(s.drop_first().skip(s.len() - 1 - t.len()) =~= s.skip(s.len() - t.len()));
        }
        assert forall|i: int| 0 <= i < s.len() - t.len() implies #[trigger] s[i].0 == k by {
            if i > 0 {
                assert(s[i] == s.drop_first()[i - 1]);
            }
        }
    } else {
        assert(s.skip(0) =~= s);
    }
}

/// The number of entries left over all sources.
pub open spec fn total_len(srcs: Seq<Seq<(Seq<u8>, Seq<u8>)>>) -> nat
    decreases srcs.len(),
{
    if srcs.len() == 0 {
        0
    } else {
        total_len(srcs.drop_last()) + srcs.last().len()
    }
}

/// The merge of the sources: repeatedly the least current entry, after
/// which every source at its key moves on.
pub open spec fn merged(srcs: Seq<Seq<(Seq<u8>, Seq<u8>)>>) -> Seq<(Seq<u8>, Seq<u8>)>
    decreases total_len(srcs),
{
    if exists|c: int| min_source(srcs, c) {
        let c = choose|c: int| min_source(srcs, c);
        let next = step(srcs, c, srcs[c][0].0);
        if total_len(next) < total_len(srcs) {
            seq![srcs[c][0]] + merged(next)
        } else {
            Seq::empty()
        }
    } else {
        Seq::empty()
    }
}

proof fn lemma_total_len_step(srcs: Seq<Seq<(Seq<u8>, Seq<u8>)>>, c: int, k: Seq<u8>)
    requires
        0 <= c < srcs.len(),
        srcs[c].len() > 0,
    ensures
        total_len(step(srcs, c, k)) < total_len(srcs),
    decreases srcs.len(),
{
    lemma_total_len_le(srcs.drop_last(), c, k);
    let t = step(srcs, c, k);
    assert(t.drop_last() =~= step(srcs.drop_last(), c, k));
    lemma_skip_key(srcs.last(), k);
    assert(t.last() == t[srcs.len() - 1]);
    if c < srcs.len() - 1 {
        lemma_total_len_step(srcs.drop_last(), c, k);
        assert(t.last().len() <= srcs.last().len());
    } else {
        assert(t.last().len() < srcs.last().len());
    }
    assert(total_len(t) == total_len(t.drop_last()) + t.last().len());
}

proof fn lemma_total_len_le(srcs: Seq<Seq<(Seq<u8>, Seq<u8>)>>, c: int, k: Seq<u8>)
    requires
        0 <= c < srcs.len() ==> srcs[c].len() > 0,
    ensures
        total_len(step(srcs, c, k)) <= total_len(srcs),
    decreases srcs.len(),
{
    if srcs.len() > 0 {
        lemma_total_len_le(srcs.drop_last(), c, k);
        let t = step(srcs, c, k);
        assert(t.drop_last() =~= step(srcs.drop_last(), c, k));
        lemma_skip_key(srcs.last(), k);
        assert(t.last() == t[srcs.len() - 1]);
        assert(t.last().len() <= srcs.last().len());
    }
}

/// Each source of the step is a suffix of the source before it.
proof fn lemma_step_suffix(srcs: Seq<Seq<(Seq<u8>, Seq<u8>)>>, c: int, k: Seq<u8>, j: int)
    requires
        0 <= c < srcs.len(),
        srcs[c].len() > 0,
        0 <= j < srcs.len(),
    ensures
        step(srcs, c, k)[j].len() <= srcs[j].len(),
        step(srcs, c, k)[j] == srcs[j].skip(srcs[j].len() - step(srcs, c, k)[j].len()),
{
    if j == c {
        assert(srcs[j].drop_first() =~= srcs[j].skip(1));
    } else {
        lemma_skip_key(srcs[j], k);
    }
}

proof fn lemma_min_unique(srcs: Seq<Seq<(Seq<u8>, Seq<u8>)>>, a: int, b: int)
    requires
        min_source(srcs, a),
        min_source(srcs, b),
    ensures
        a == b,
{
    assert(srcs[b].len() > 0);
    assert(srcs[a].len() > 0);
    if key_lt(srcs[a][0].0, srcs[b][0].0) {
        lemma_key_lt_asymmetric(srcs[a][0].0, srcs[b][0].0);
    }
}

/// The merge starts with the entry of the least source `c`, the lowest
/// indexed among those at the least key, and yields that key once: every
/// source at it moves on together.
pub proof fn lemma_merged_head(srcs: Seq<Seq<(Seq<u8>, Seq<u8>)>>, c: int)
    requires
        min_source(srcs, c),
    ensures
        merged(srcs) == seq![srcs[c][0]] + merged(step(srcs, c, srcs[c][0].0)),
{
    let d = choose|d: int| min_source(srcs, d);
    lemma_min_unique(srcs, c, d);
    lemma_total_len_step(srcs, c, srcs[c][0].0);
}

/// A sorted source stays sorted through a step, and its new first key is
/// not below the old one.
proof fn lemma_step_sorted(srcs: Seq<Seq<(Seq<u8>, Seq<u8>)>>, c: int, k: Seq<u8>, j: int)
    requires
        0 <= c < srcs.len(),
        srcs[c].len() > 0,
        0 <= j < srcs.len(),
        crate::block::sorted(srcs[j]),
    ensures
        crate::block::sorted(step(srcs, c, k)[j]),
        step(srcs, c, k)[j].len() > 0 ==> crate::codec::key_le(srcs[j][0].0, step(srcs, c, k)[j][0].0),
{
    lemma_step_suffix(srcs, c, k, j);
    let t = step(srcs, c, k)[j];
    let d = srcs[j].len() - t.len();
    assert forall|a: int, b: int| 0 <= a < b < t.len() implies crate::codec::key_le(
        #[trigger] t[a].0,
        #[trigger] t[b].0,
    ) by {
        assert(t[a] == srcs[j][a + d] && t[b] == srcs[j][b + d]);
    }
    if t.len() > 0 && d > 0 {
        assert(t[0] == srcs[j][d]);
        assert(crate::codec::key_le(srcs[j][0].0, srcs[j][d].0));
    }
}

/// When every source is sorted and every current key lies above `k`, so
/// does every key of the merge.
proof fn lemma_merged_above(srcs: Seq<Seq<(Seq<u8>, Seq<u8>)>>, k: Seq<u8>)
    requires
        forall|j: int| 0 <= j < srcs.len() ==> crate::block::sorted(#[trigger] srcs[j]),
        forall|j: int| 0 <= j < srcs.len() && #[trigger] srcs[j].len() > 0 ==> key_lt(k, srcs[j][0].0),
    ensures
        forall|i: int| 0 <= i < merged(srcs).len() ==> key_lt(k, #[trigger] merged(srcs)[i].0),
    decreases total_len(srcs),
{
    if exists|c: int| min_source(srcs, c) {
        let c = choose|c: int| min_source(srcs, c);
        let kc = srcs[c][0].0;
        let next = step(srcs, c, kc);
        lemma_merged_head(srcs, c);
        lemma_total_len_step(srcs, c, kc);
        assert forall|j: int| 0 <= j < next.len() implies crate::block::sorted(#[trigger] next[j]) by {
            lemma_step_sorted(srcs, c, kc, j);
        }
        assert forall|j: int| 0 <= j < next.len() && #[trigger] next[j].len() > 0 implies key_lt(
            k,
            next[j][0].0,
        ) by {
            lemma_step_sorted(srcs, c, kc, j);
            lemma_step_suffix(srcs, c, kc, j);
            assert(srcs[j].len() > 0);
            crate::codec::lemma_key_lt_le_transitive(k, srcs[j][0].0, next[j][0].0);
        }
        lemma_merged_above(next, k);
        assert forall|i: int| 0 <= i < merged(srcs).len() implies key_lt(k, #[trigger] merged(srcs)[i].0) by {
            if i > 0 {
                assert(merged(srcs)[i] == merged(next)[i - 1]);
            }
        }
    }
}

/// Where sources have strictly increasing keys, the merge yields exactly
/// one record for the least current key, with the value of the lowest
/// indexed source at that key; every later record has a greater key.
pub proof fn lemma_merge_priority(srcs: Seq<Seq<(Seq<u8>, Seq<u8>)>>, c: int)
    requires
        min_source(srcs, c),
        forall|j: int| 0 <= j < srcs.len() ==> crate::block::strictly_sorted(#[trigger] srcs[j]),
    ensures
        merged(srcs)[0] == srcs[c][0],
        forall|j: int|
            0 <= j < srcs.len() && #[trigger] srcs[j].len() > 0 && srcs[j][0].0 == srcs[c][0].0
                ==> c <= j,
        forall|i: int|
            1 <= i < merged(srcs).len() ==> key_lt(srcs[c][0].0, #[trigger] merged(srcs)[i].0),
{
    let k = srcs[c][0].0;
    let next = step(srcs, c, k);
    lemma_merged_head(srcs, c);
    assert forall|j: int| 0 <= j < srcs.len() implies crate::block::sorted(#[trigger] srcs[j]) by {
        assert forall|a: int, b: int| 0 <= a < b < srcs[j].len() implies crate::codec::key_le(
            #[trigger] srcs[j][a].0,
            #[trigger] srcs[j][b].0,
        ) by {
            assert(key_lt(srcs[j][a].0, srcs[j][b].0));
        }
    }
    assert forall|j: int| 0 <= j < next.len() implies crate::block::sorted(#[trigger] next[j]) by {
        lemma_step_sorted(srcs, c, k, j);
    }
    assert forall|j: int| 0 <= j < next.len() && #[trigger] next[j].len() > 0 implies key_lt(
        k,
        next[j][0].0,
    ) by {
        lemma_step_sorted(srcs, c, k, j);
        assert(srcs[j].len() > 0) by {
            lemma_step_suffix(srcs, c, k, j);
        }
        if j == c {
            assert(next[j][0] == srcs[c][1]);
            assert(key_lt(srcs[c][0].0, srcs[c][1].0));
        } else {
            lemma_skip_key(srcs[j], k);
            assert(next[j][0].0 != k);
            assert(key_lt(k, srcs[j][0].0) || (k == srcs[j][0].0 && c <= j));
            if key_lt(k, srcs[j][0].0) {
                crate::codec::lemma_key_lt_le_transitive(k, srcs[j][0].0, next[j][0].0);
            }
        }
    }
    lemma_merged_above(next, k);
    assert forall|i: int| 1 <= i < merged(srcs).len() implies key_lt(k, #[trigger] merged(srcs)[i].0) by {
        assert(merged(srcs)[i] == merged(next)[i - 1]);
    }
    assert forall|j: int|
        0 <= j < srcs.len() && #[trigger] srcs[j].len() > 0 && srcs[j][0].0 == k implies c <= j by {
        if j < c {
            lemma_key_lt_irreflexive(k);
        }
    }
}

/// A merge of iterators of one kind. Where several are at the same key,
/// the one earliest in the list wins and the others skip that entry.
pub struct MergeIterator<I: StorageIterator> {
    iters: Vec<Box<I>>,
    current: Option<usize>,
}

impl<I: StorageIterator> MergeIterator<I> {
    /// What each source has still to yield.
    pub closed spec fn sources(&self) -> Seq<Seq<(Seq<u8>, Seq<u8>)>> {
        Seq::new(self.iters@.len(), |j: int| self.iters@[j].remaining())
    }

    /// Every source's `next` is sure to succeed.
    pub closed spec fn sources_next_ok(&self) -> bool {
        forall|j: int| 0 <= j < self.iters@.len() ==> #[trigger] self.iters@[j].next_ok()
    }

    /// The source whose entry is current.
    pub closed spec fn current(&self) -> Option<usize> {
        self.current
    }

    pub closed spec fn wf(&self) -> bool {
        &&& forall|j: int| 0 <= j < self.iters@.len() ==> #[trigger] self.iters@[j].inv()
        &&& match self.current {
            Some(c) => min_source(self.sources(), c as int),
            None => forall|j: int|
                0 <= j < self.iters@.len() ==> #[trigger] self.iters@[j].remaining().len() == 0,
        }
    }

    /// Merges `iters`; a lower index wins among equal keys.
    pub fn create(iters: Vec<Box<I>>) -> (r: Self)
        requires
            forall|j: int| 0 <= j < iters@.len() ==> #[trigger] iters@[j].inv(),
        ensures
            r.wf(),
            r.sources() == Seq::new(iters@.len(), |j: int| iters@[j].remaining()),
            r.sources_next_ok() <==> forall|j: int| 0 <= j < iters@.len() ==> #[trigger] iters@[j].next_ok(),
    {
        let current = find_min(&iters);
        let r = Self { iters, current };
        assert(r.sources() =~= Seq::new(r.iters@.len(), |j: int| r.iters@[j].remaining()));
        r
    }
}

/// The source holding the least current entry, if any is not exhausted.
fn find_min<I: StorageIterator>(iters: &Vec<Box<I>>) -> (r: Option<usize>)
    requires
        forall|j: int| 0 <= j < iters@.len() ==> #[trigger] iters@[j].inv(),
    ensures
        match r {
            Some(c) => min_source(Seq::new(iters@.len(), |j: int| iters@[j].remaining()), c as int),
            None => forall|j: int|
                0 <= j < iters@.len() ==> #[trigger] iters@[j].remaining().len() == 0,
        },
{
    let ghost srcs = Seq::new(iters@.len(), |j: int| iters@[j].remaining());
    let mut best: Option<usize> = None;
    let mut j: usize = 0;
    while j < iters.len()
        invariant
            j <= iters@.len(),
            srcs == Seq::new(iters@.len(), |j: int| iters@[j].remaining()),
            forall|q: int| 0 <= q < iters@.len() ==> #[trigger] iters@[q].inv(),
            match best {
                Some(c) => {
                    &&& c < j
                    &&& srcs[c as int].len() > 0
                    &&& forall|q: int|
                        0 <= q < j && #[trigger] srcs[q].len() > 0 ==> key_lt(
                            srcs[c as int][0].0,
                            srcs[q][0].0,
                        ) || (srcs[c as int][0].0 == srcs[q][0].0 && c <= q)
                },
                None => forall|q: int| 0 <= q < j ==> #[trigger] srcs[q].len() == 0,
            },
        decreases iters@.len() - j,
    {
        if iters[j].is_valid() {
            match best {
                None => {
                    best = Some(j);
                },
                Some(c) => {
                    if key_less(iters[j].key(), iters[c].key()) {
                        proof {
                            assert forall|q: int|
                                0 <= q < j + 1 && #[trigger] srcs[q].len() > 0 implies key_lt(
                                srcs[j as int][0].0,
                                srcs[q][0].0,
                            ) || (srcs[j as int][0].0 == srcs[q][0].0 && j <= q) by {
                                if q < j {
                                    if key_lt(srcs[c as int][0].0, srcs[q][0].0) {
                                        lemma_key_lt_transitive(
                                            srcs[j as int][0].0,
                                            srcs[c as int][0].0,
                                            srcs[q][0].0,
                                        );
                                    }
                                } else {
                                    lemma_key_lt_irreflexive(srcs[j as int][0].0);
                                }
                            }
                        }
                        best = Some(j);
                    } else {
                        proof {
                            lemma_key_lt_total(srcs[j as int][0].0, srcs[c as int][0].0);
                        }
                    }
                },
            }
        }
        j = j + 1;
    }
    assert forall|q: int| 0 <= q < iters@.len() implies #[trigger] iters@[q].remaining() == srcs[q] by {}
    best
}

impl<I: StorageIterator> StorageIterator for MergeIterator<I> {
    open spec fn inv(&self) -> bool {
        self.wf()
    }

    open spec fn remaining(&self) -> Seq<(Seq<u8>, Seq<u8>)> {
        merged(self.sources())
    }

    open spec fn next_ok(&self) -> bool {
        self.sources_next_ok()
    }

    fn key(&self) -> (r: &[u8]) {
        proof {
            self.lemma_remaining();
        }
        let c = self.current.unwrap();
        self.iters[c].key()
    }

    fn value(&self) -> (r: &[u8]) {
        proof {
            self.lemma_remaining();
        }
        let c = self.current.unwrap();
        self.iters[c].value()
    }

    fn is_valid(&self) -> (r: bool) {
        proof {
            self.lemma_remaining();
        }
        self.current.is_some()
    }

    fn next(&mut self) -> (r: Result<(), Error>) {
        proof {
            self.lemma_remaining();
        }
        let ghost old_srcs = self.sources();
        let c = self.current.unwrap();
        let k = slice_to_vec(self.iters[c].key());
        let ghost target = step(old_srcs, c as int, k@);
        let n = self.iters.len();
        let mut j: usize = 0;
        while j < n
            invariant
                n == self.iters@.len(),
                n == old_srcs.len(),
                j <= n,
                c < n,
                min_source(old_srcs, c as int),
                k@ == old_srcs[c as int][0].0,
                target == step(old_srcs, c as int, k@),
                forall|q: int| 0 <= q < n ==> #[trigger] self.iters@[q].inv(),
                old(self).next_ok() ==> forall|q: int| 0 <= q < n ==> #[trigger] self.iters@[q].next_ok(),
                forall|q: int|
                    0 <= q < n ==> #[trigger] self.iters@[q].remaining() == if q < j && q != c {
                        target[q]
                    } else {
                        old_srcs[q]
                    },
            decreases n - j,
        {
            if j != c {
                while self.iters[j].is_valid() && key_equal(self.iters[j].key(), k.as_slice())
                    invariant
                        n == self.iters@.len(),
                        j < n,
                        j != c,
                        target == step(old_srcs, c as int, k@),
                        forall|q: int| 0 <= q < n ==> #[trigger] self.iters@[q].inv(),
                        old(self).next_ok() ==> forall|q: int|
                            0 <= q < n ==> #[trigger] self.iters@[q].next_ok(),
                        skip_key(self.iters@[j as int].remaining(), k@) == target[j as int],
                        forall|q: int|
                            0 <= q < n && q != j ==> #[trigger] self.iters@[q].remaining() == if q < j
                                && q != c {
                                target[q]
                            } else {
                                old_srcs[q]
                            },
                    decreases self.iters@[j as int].remaining().len(),
                {
                    let ghost before = self.iters@[j as int].remaining();
                    let res = self.iters[j].next();
                    if res.is_err() {
                        self.current = find_min(&self.iters);
                        return res;
                    }
                    assert(skip_key(before, k@) == skip_key(before.drop_first(), k@));
                }
            }
            j = j + 1;
        }
        let res = self.iters[c].next();
        if res.is_err() {
            self.current = find_min(&self.iters);
            return res;
        }
        proof {
            assert(self.sources() =~= target);
            lemma_merged_head(old_srcs, c as int);
        }
        self.current = find_min(&self.iters);
        Ok(())
    }
}

impl<I: StorageIterator> MergeIterator<I> {
    proof fn lemma_remaining(&self)
        requires
            self.wf(),
        ensures
            self.current is Some <==> merged(self.sources()).len() > 0,
            self.current is Some ==> merged(self.sources())[0] == self.sources()[self.current->0 as int][0],
    {
        match self.current {
            Some(c) => {
                lemma_merged_head(self.sources(), c as int);
            },
            None => {
                if exists|c: int| min_source(self.sources(), c) {
                    let c = choose|c: int| min_source(self.sources(), c);
                    assert(self.iters@[c].remaining().len() == 0);
                }
            },
        }
    }
}

} // verus!
