//! The record set: the keys of a store with their values.

use crate::byte_map::{spec_distinct_keys, spec_map_of, ByteMap};
use vstd::prelude::*;

verus! {

/// Every key and value of `pairs` is short enough for its length to be
/// written in eight bytes.
pub open spec fn spec_pairs_fit(pairs: Seq<(Seq<u8>, Seq<u8>)>) -> bool {
    forall|i: int|
        0 <= i < pairs.len() ==> (#[trigger] pairs[i]).0.len() <= u64::MAX && pairs[i].1.len()
            <= u64::MAX
}

/// A pair with its value as a sequence.
pub open spec fn spec_pair_view(pair: (Seq<u8>, Vec<u8>)) -> (Seq<u8>, Seq<u8>) {
    (pair.0, pair.1@)
}

/// The map of pairs whose values are taken as sequences is the map of the
/// pairs, with its values taken as sequences.
pub proof fn lemma_map_of_pair_views(pairs: Seq<(Seq<u8>, Vec<u8>)>)
    ensures
        spec_map_of(pairs.map_values(|p: (Seq<u8>, Vec<u8>)| spec_pair_view(p))) == spec_map_of(
            pairs,
        ).map_values(|v: Vec<u8>| v@),
        spec_distinct_keys(pairs) ==> spec_distinct_keys(
            pairs.map_values(|p: (Seq<u8>, Vec<u8>)| spec_pair_view(p)),
        ),
    decreases pairs.len(),
{
    let f = |p: (Seq<u8>, Vec<u8>)| spec_pair_view(p);
    let g = |v: Vec<u8>| v@;
    if pairs.len() == 0 {
        assert(spec_map_of(pairs.map_values(f)) =~= spec_map_of(pairs).map_values(g));
    } else {
        lemma_map_of_pair_views(pairs.drop_last());
        assert(pairs.map_values(f).drop_last() =~= pairs.drop_last().map_values(f));
        assert(spec_map_of(pairs.map_values(f)) =~= spec_map_of(pairs).map_values(g));
    }
    if spec_distinct_keys(pairs) {
        let views = pairs.map_values(f);
        assert forall|i: int, j: int| 0 <= i < j < views.len() implies (#[trigger] views[i]).0 != (
        #[trigger] views[j]).0 by {
            assert(pairs[i].0 != pairs[j].0);
        }
    }
}

/// The record set of a store.
#[derive(Debug)]
pub struct Records {
    map: ByteMap<Vec<u8>>,
}

impl View for Records {
    type V = Map<Seq<u8>, Seq<u8>>;

    /// The value of each key.
    closed spec fn view(&self) -> Map<Seq<u8>, Seq<u8>> {
        self.map@.map_values(|v: Vec<u8>| v@)
    }
}

impl Records {
    /// The records in the order in which a checkpoint writes them. The order
    /// is no part of what the record set means.
    pub closed spec fn entries(&self) -> Seq<(Seq<u8>, Seq<u8>)> {
        self.map.entries().map_values(|p: (Seq<u8>, Vec<u8>)| spec_pair_view(p))
    }

    /// The empty record set.
    pub fn new() -> (records: Records)
        ensures
            records@ == Map::<Seq<u8>, Seq<u8>>::empty(),
    {
        let records = Records { map: ByteMap::new() };
        assert(records@ =~= Map::<Seq<u8>, Seq<u8>>::empty());
        records
    }

    /// The number of records. Their entries make up the record set, hold no
    /// key twice, and are short enough to be written to a checkpoint.
    pub fn len(&self) -> (n: usize)
        ensures
            n == self.entries().len(),
            n == self@.len(),
            self@.dom().finite(),
            spec_map_of(self.entries()) == self@,
            spec_distinct_keys(self.entries()),
            spec_pairs_fit(self.entries()),
    {
        let n = self.map.len();
        proof {
            lemma_map_of_pair_views(self.map.entries());
            let entries = self.entries();
            assert forall|i: int| 0 <= i < entries.len() implies (#[trigger] entries[i]).0.len()
                <= u64::MAX && entries[i].1.len() <= u64::MAX by {
                let p = self.map.entries()[i];
                assert(entries[i] == spec_pair_view(p));
                assert(p.0.len() <= usize::MAX);
                assert(p.1@.len() == p.1.len());
            }
            assert(self@.dom() =~= self.map@.dom());
            crate::byte_map::lemma_map_of_dom(self.map.entries());
        }
        n
    }

    /// The key of the entry at position `i`.
    pub fn key_at(&self, i: usize) -> (key: &Vec<u8>)
        requires
            i < self.entries().len(),
        ensures
            key@ == self.entries()[i as int].0,
    {
        self.map.key_at(i)
    }

    /// The value of the entry at position `i`.
    pub fn value_at(&self, i: usize) -> (value: &Vec<u8>)
        requires
            i < self.entries().len(),
        ensures
            value@ == self.entries()[i as int].1,
    {
        self.map.value_at(i)
    }

    /// The value under `key`, if there is one.
    pub fn get(&self, key: &[u8]) -> (value: Option<&Vec<u8>>)
        ensures
            match value {
                Some(v) => self@.contains_key(key@) && v@ == self@[key@],
                None => !self@.contains_key(key@),
            },
    {
        self.map.get(key)
    }

    /// Puts `value` under `key`, in place of the value that was there, if any.
    pub fn insert(&mut self, key: Vec<u8>, value: Vec<u8>)
        ensures
            final(self)@ == old(self)@.insert(key@, value@),
    {
        self.map.insert(key, value);
        assert(self@ =~= old(self)@.insert(key@, value@));
    }

    /// Takes `key` out, if it is there.
    pub fn remove(&mut self, key: &[u8])
        ensures
            final(self)@ == old(self)@.remove(key@),
    {
        let _ = self.map.remove(key);
        assert(self@ =~= old(self)@.remove(key@));
    }
}

} // verus!
