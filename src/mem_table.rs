//! The in-memory table: an ordered map from keys to values, scanned in key
//! order and flushed into a table builder.
use crate::block::builder::encoded_size;
use crate::codec::{key_le, key_lt};
use crate::error::Error;
use crate::iterators::StorageIterator;
use crate::sstable::builder::SSTableBuilder;
use crossbeam_skiplist::SkipMap;
use std::ops::Bound;
use vstd::prelude::*;
use vstd::slice::slice_to_vec;

verus! {

/// Declares crossbeam's `SkipMap`, held opaque; what it holds is
/// `skipmap_contents`.
#[verifier::external_type_specification]
#[verifier::external_body]
#[verifier::reject_recursive_types(K)]
#[verifier::reject_recursive_types(V)]
pub struct ExSkipMap<K, V>(SkipMap<K, V>);

/// The skip map the table keeps its entries in.
pub type KvMap = SkipMap<Vec<u8>, Vec<u8>>;

/// Entries as owned byte strings.
pub type KvPairs = Vec<(Vec<u8>, Vec<u8>)>;

/// Declares `std::ops::Bound` with its variants, for the bounds of a scan.
#[verifier::external_type_specification]
#[verifier::reject_recursive_types(T)]
pub struct ExBound<T>(Bound<T>);

/// The map with no keys.
pub open spec fn empty_map() -> Map<Seq<u8>, Seq<u8>> {
    Map::empty()
}

/// What a skip map holds.
pub uninterp spec fn skipmap_contents(m: KvMap) -> Map<Seq<u8>, Seq<u8>>;

/// Relies on `SkipMap::new`: an empty map.
#[verifier::external_body]
fn map_new() -> (r: KvMap)
    ensures
        skipmap_contents(r) == empty_map(),
{
    SkipMap::new()
}

/// Relies on `SkipMap::insert`: the key maps to the value, replacing any
/// earlier value.
#[verifier::external_body]
fn map_insert(m: &mut KvMap, key: Vec<u8>, value: Vec<u8>)
    ensures
        skipmap_contents(*final(m)) == skipmap_contents(*old(m)).insert(key@, value@),
{
    m.insert(key, value);
}

/// Relies on `SkipMap::get`: the value under the key, if any.
#[verifier::external_body]
fn map_get(m: &KvMap, key: &[u8]) -> (r: Option<Vec<u8>>)
    ensures
        match r {
            Some(v) => skipmap_contents(*m).contains_key(key@) && skipmap_contents(*m)[key@] == v@,
            None => !skipmap_contents(*m).contains_key(key@),
        },
{
    m.get(key).map(|e| e.value().clone())
}

/// Relies on `SkipMap::range`: the entries whose keys lie within the
/// bounds, in increasing key order.
#[verifier::external_body]
fn map_range(m: &KvMap, lower: Bound<&[u8]>, upper: Bound<&[u8]>) -> (r: KvPairs)
    ensures
        listing(pairs_view(r@), skipmap_contents(*m), lower, upper),
{
    m.range::<[u8], _>((lower, upper)).map(|e| (e.key().clone(), e.value().clone())).collect()
}

/// The views of byte-string pairs.
pub open spec fn pairs_view(s: Seq<(Vec<u8>, Vec<u8>)>) -> Seq<(Seq<u8>, Seq<u8>)> {
    s.map_values(|p: (Vec<u8>, Vec<u8>)| (p.0@, p.1@))
}

/// `k` lies on the right side of the lower bound.
pub open spec fn above(k: Seq<u8>, lower: Bound<&[u8]>) -> bool {
    match lower {
        Bound::Included(b) => key_le(b@, k),
        Bound::Excluded(b) => key_lt(b@, k),
        Bound::Unbounded => true,
    }
}

/// `k` lies on the right side of the upper bound.
pub open spec fn below(k: Seq<u8>, upper: Bound<&[u8]>) -> bool {
    match upper {
        Bound::Included(b) => key_le(k, b@),
        Bound::Excluded(b) => key_lt(k, b@),
        Bound::Unbounded => true,
    }
}

/// `s` lists, in strictly increasing key order, exactly the entries of `m`
/// whose keys lie within the bounds.
pub open spec fn listing(
    s: Seq<(Seq<u8>, Seq<u8>)>,
    m: Map<Seq<u8>, Seq<u8>>,
    lower: Bound<&[u8]>,
    upper: Bound<&[u8]>,
) -> bool {
    &&& forall|i: int, j: int| 0 <= i < j < s.len() ==> key_lt(#[trigger] s[i].0, #[trigger] s[j].0)
    &&& forall|i: int|
        0 <= i < s.len() ==> #[trigger] m.contains_key(s[i].0) && m[s[i].0] == s[i].1 && above(
            s[i].0,
            lower,
        ) && below(s[i].0, upper)
    &&& forall|k: Seq<u8>|
        #[trigger] m.contains_key(k) && above(k, lower) && below(k, upper) ==> exists|i: int|
            0 <= i < s.len() && s[i].0 == k
}

/// An ordered map from keys to values, with a running count of the bytes
/// put into it.
pub struct MemTable {
    map: KvMap,
    estimated_size: usize,
}

impl View for MemTable {
    type V = Map<Seq<u8>, Seq<u8>>;

    closed spec fn view(&self) -> Map<Seq<u8>, Seq<u8>> {
        skipmap_contents(self.map)
    }
}

impl MemTable {
    /// The bytes of all keys and values ever put, overwritten ones included.
    pub closed spec fn size_spec(&self) -> int {
        self.estimated_size as int
    }

    /// An empty table.
    pub fn create() -> (r: Self)
        ensures
            r@ == Map::<Seq<u8>, Seq<u8>>::empty(),
            r.size_spec() == 0,
    {
        MemTable { map: map_new(), estimated_size: 0 }
    }

    /// The value under `key`, if any.
    pub fn get(&self, key: &[u8]) -> (r: Option<Vec<u8>>)
        ensures
            match r {
                Some(v) => self@.contains_key(key@) && self@[key@] == v@,
                None => !self@.contains_key(key@),
            },
    {
        map_get(&self.map, key)
    }

    /// Maps `key` to `value`, replacing any earlier value.
    pub fn put(&mut self, key: &[u8], value: &[u8])
        requires
            old(self).size_spec() + key@.len() + value@.len() <= usize::MAX,
        ensures
            final(self)@ == old(self)@.insert(key@, value@),
            final(self).size_spec() == old(self).size_spec() + key@.len() + value@.len(),
    {
        let key = slice_to_vec(key);
        let value = slice_to_vec(value);
        self.estimated_size = self.estimated_size + key.len() + value.len();
        map_insert(&mut self.map, key, value);
    }

    /// The bytes of all keys and values ever put.
    pub fn estimated_size(&self) -> (r: usize)
        ensures
            r == self.size_spec(),
    {
        self.estimated_size
    }

    /// An iterator over the entries whose keys lie within the bounds, in
    /// key order.
    pub fn scan(&self, lower: Bound<&[u8]>, upper: Bound<&[u8]>) -> (r: MemTableIterator)
        ensures
            r.inv(),
            listing(r.remaining(), self@, lower, upper),
    {
        let items = map_range(&self.map, lower, upper);
        let r = MemTableIterator { items, idx: 0 };
        assert(r.remaining() =~= pairs_view(r.items@));
        r
    }

    /// Adds every entry, in key order, to `builder`.
    pub fn flush(&self, builder: &mut SSTableBuilder)
        requires
            old(builder).wf(),
            forall|k: Seq<u8>|
                #[trigger] self@.contains_key(k) ==> encoded_size(Seq::empty()) + 6 + k.len()
                    + self@[k].len() <= old(builder).block_size(),
        ensures
            final(builder).wf(),
            final(builder).block_size() == old(builder).block_size(),
            exists|s: Seq<(Seq<u8>, Seq<u8>)>|
                listing(s, self@, Bound::Unbounded, Bound::Unbounded) && final(builder).entries()
                    == old(builder).entries() + s,
    {
        let items = map_range(&self.map, Bound::Unbounded, Bound::Unbounded);
        let ghost s = pairs_view(items@);
        let mut i: usize = 0;
        while i < items.len()
            invariant
                i <= items@.len(),
                s == pairs_view(items@),
                listing(s, self@, Bound::Unbounded, Bound::Unbounded),
                forall|k: Seq<u8>|
                    #[trigger] self@.contains_key(k) ==> encoded_size(Seq::empty()) + 6 + k.len()
                        + self@[k].len() <= builder.block_size(),
                builder.wf(),
                builder.block_size() == old(builder).block_size(),
                builder.entries() == old(builder).entries() + s.take(i as int),
            decreases items@.len() - i,
        {
            assert(self@.contains_key(s[i as int].0));
            builder.add(items[i].0.as_slice(), items[i].1.as_slice());
            assert(s.take(i + 1) =~= s.take(i as int).push(s[i as int]));
            assert(old(builder).entries() + s.take(i + 1) =~= (old(builder).entries() + s.take(i as int)).push(s[i as int]));
            i = i + 1;
        }
        assert(s.take(i as int) =~= s);
    }
}

/// Putting the same key twice leaves the second value under it: after
/// `put(k, v1)` and `put(k, v2)`, `get(k)` gives `v2`.
pub proof fn lemma_put_overwrite(t: &MemTable, k: Seq<u8>, v1: Seq<u8>, v2: Seq<u8>)
    ensures
        t@.insert(k, v1).insert(k, v2).contains_key(k),
        t@.insert(k, v1).insert(k, v2)[k] == v2,
{
}

/// A forward iterator over the entries a scan found.
pub struct MemTableIterator {
    items: Vec<(Vec<u8>, Vec<u8>)>,
    idx: usize,
}

impl StorageIterator for MemTableIterator {
    closed spec fn inv(&self) -> bool {
        self.idx <= self.items@.len()
    }

    open spec fn next_ok(&self) -> bool {
        true
    }

    closed spec fn remaining(&self) -> Seq<(Seq<u8>, Seq<u8>)> {
        pairs_view(self.items@).skip(self.idx as int)
    }

    fn key(&self) -> (r: &[u8]) {
        assert(pairs_view(self.items@).skip(self.idx as int)[0] == pairs_view(self.items@)[self.idx as int]);
        self.items[self.idx].0.as_slice()
    }

    fn value(&self) -> (r: &[u8]) {
        assert(pairs_view(self.items@).skip(self.idx as int)[0] == pairs_view(self.items@)[self.idx as int]);
        self.items[self.idx].1.as_slice()
    }

    fn is_valid(&self) -> (r: bool) {
        self.idx < self.items.len()
    }

    fn next(&mut self) -> (r: Result<(), Error>) {
        let n = self.items.len();
        assert(self.idx < n);
        self.idx = self.idx + 1;
        assert(final(self).remaining() =~= old(self).remaining().drop_first());
        Ok(())
    }
}

} // verus!
