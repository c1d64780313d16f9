//! A small map keyed by byte strings, kept as a list of entries in which no
//! key occurs twice.

use vstd::prelude::*;

verus! {

/// The map that a sequence of pairs stands for: each pair is inserted in
/// turn, so a later pair with the same key replaces an earlier one.
pub open spec fn spec_map_of<V>(pairs: Seq<(Seq<u8>, V)>) -> Map<Seq<u8>, V>
    decreases pairs.len(),
{
    if pairs.len() == 0 {
        Map::empty()
    } else {
        spec_map_of(pairs.drop_last()).insert(pairs.last().0, pairs.last().1)
    }
}

/// No key occurs twice among `pairs`.
pub open spec fn spec_distinct_keys<V>(pairs: Seq<(Seq<u8>, V)>) -> bool {
    forall|i: int, j: int|
        0 <= i < j < pairs.len() ==> (#[trigger] pairs[i]).0 != (#[trigger] pairs[j]).0
}

/// The keys of the map are the keys of the pairs.
pub proof fn lemma_map_of_dom<V>(pairs: Seq<(Seq<u8>, V)>)
    ensures
        spec_map_of(pairs).dom().finite(),
        forall|k: Seq<u8>| #[trigger]
            spec_map_of(pairs).contains_key(k) <==> exists|i: int|
                0 <= i < pairs.len() && (#[trigger] pairs[i]).0 == k,
    decreases pairs.len(),
{
    if pairs.len() > 0 {
        let front = pairs.drop_last();
        lemma_map_of_dom(front);
        assert forall|k: Seq<u8>| #[trigger]
            spec_map_of(pairs).contains_key(k) implies exists|i: int|
            0 <= i < pairs.len() && (#[trigger] pairs[i]).0 == k by {
            if k == pairs.last().0 {
                assert(pairs[pairs.len() - 1].0 == k);
            } else {
                let i = choose|i: int| 0 <= i < front.len() && (#[trigger] front[i]).0 == k;
                assert(pairs[i].0 == k);
            }
        }
        assert forall|k: Seq<u8>|
            (exists|i: int|
                0 <= i < pairs.len() && (#[trigger] pairs[i]).0 == k) implies #[trigger] spec_map_of(
            pairs,
        ).contains_key(k) by {
            let i = choose|i: int| 0 <= i < pairs.len() && (#[trigger] pairs[i]).0 == k;
            if i < front.len() {
                assert(front[i].0 == k);
            }
        }
    }
}

/// Where no key occurs twice, each pair's key leads to that pair's value.
pub proof fn lemma_map_of_distinct<V>(pairs: Seq<(Seq<u8>, V)>, i: int)
    requires
        spec_distinct_keys(pairs),
        0 <= i < pairs.len(),
    ensures
        spec_map_of(pairs).contains_key(pairs[i].0),
        spec_map_of(pairs)[pairs[i].0] == pairs[i].1,
    decreases pairs.len(),
{
    let front = pairs.drop_last();
    if i < pairs.len() - 1 {
        assert(spec_distinct_keys(front)) by {
            assert forall|a: int, b: int| 0 <= a < b < front.len() implies (#[trigger] front[a]).0
                != (#[trigger] front[b]).0 by {
                assert(pairs[a].0 != pairs[b].0);
            }
        }
        lemma_map_of_distinct(front, i);
        assert(front[i] == pairs[i]);
        assert(pairs[i].0 != pairs[pairs.len() - 1].0);
    }
}

/// Whether two byte strings are the same.
pub fn bytes_eq(a: &[u8], b: &[u8]) -> (same: bool)
    ensures
        same == (a@ == b@),
{
    if a.len() != b.len() {
        return false;
    }
    let mut i: usize = 0;
    while i < a.len()
        invariant
            i <= a.len(),
            a.len() == b.len(),
            forall|j: int| 0 <= j < i ==> a@[j] == b@[j],
        decreases a.len() - i,
    {
        if a[i] != b[i] {
            return false;
        }
        i += 1;
    }
    assert(a@ =~= b@);
    true
}

/// One key with its value.
#[derive(Debug)]
pub struct Entry<V> {
    key: Vec<u8>,
    value: V,
}

/// A map from byte strings to values of `V`.
#[derive(Debug)]
pub struct ByteMap<V> {
    entries: Vec<Entry<V>>,
}

impl<V> View for ByteMap<V> {
    type V = Map<Seq<u8>, V>;

    /// The map that the entries make up.
    open spec fn view(&self) -> Map<Seq<u8>, V> {
        spec_map_of(self.entries())
    }
}

impl<V> ByteMap<V> {
    /// The entries in the order in which they are kept.
    pub closed spec fn entries(&self) -> Seq<(Seq<u8>, V)> {
        Seq::new(self.entries.len() as nat, |i: int| (self.entries[i].key@, self.entries[i].value))
    }

    #[verifier::type_invariant]
    spec fn inv(&self) -> bool {
        spec_distinct_keys(self.entries())
    }

    /// The empty map.
    pub fn new() -> (map: ByteMap<V>)
        ensures
            map.entries() == Seq::<(Seq<u8>, V)>::empty(),
            map@ == Map::<Seq<u8>, V>::empty(),
    {
        let map = ByteMap { entries: Vec::new() };
        assert(map.entries() =~= Seq::<(Seq<u8>, V)>::empty());
        map
    }

    /// The number of entries, among which no key occurs twice.
    pub fn len(&self) -> (n: usize)
        ensures
            n == self.entries().len(),
            n == self@.len(),
            spec_distinct_keys(self.entries()),
            forall|i: int|
                0 <= i < self.entries().len() ==> (#[trigger] self.entries()[i]).0.len()
                    <= usize::MAX,
    {
        proof {
            use_type_invariant(self);
            lemma_map_of_len(self.entries());
            assert forall|i: int| 0 <= i < self.entries().len() implies (
            #[trigger] self.entries()[i]).0.len() <= usize::MAX by {
                let key = self.entries[i].key;
                assert(key@.len() == key.len());
            }
        }
        self.entries.len()
    }

    /// The key of the entry at position `i`.
    pub fn key_at(&self, i: usize) -> (key: &Vec<u8>)
        requires
            i < self.entries().len(),
        ensures
            key@ == self.entries()[i as int].0,
    {
        &self.entries[i].key
    }

    /// The value of the entry at position `i`.
    pub fn value_at(&self, i: usize) -> (value: &V)
        requires
            i < self.entries().len(),
        ensures
            *value == self.entries()[i as int].1,
    {
        &self.entries[i].value
    }

    /// The position of the entry with this key, if there is one.
    pub fn find(&self, key: &[u8]) -> (found: Option<usize>)
        ensures
            match found {
                Some(i) => i < self.entries().len() && self.entries()[i as int].0 == key@
                    && self@.contains_key(key@) && self@[key@] == self.entries()[i as int].1,
                None => !self@.contains_key(key@) && forall|i: int|
                    0 <= i < self.entries().len() ==> (#[trigger] self.entries()[i]).0 != key@,
            },
    {
        proof {
            use_type_invariant(self);
            lemma_map_of_dom(self.entries());
        }
        let mut i: usize = 0;
        while i < self.entries.len()
            invariant
                i <= self.entries.len(),
                spec_distinct_keys(self.entries()),
                forall|j: int| 0 <= j < i ==> (#[trigger] self.entries()[j]).0 != key@,
            decreases self.entries.len() - i,
        {
            if bytes_eq(self.entries[i].key.as_slice(), key) {
                proof {
                    lemma_map_of_distinct(self.entries(), i as int);
                }
                return Some(i);
            }
            i += 1;
        }
        None
    }

    /// Whether the map has this key.
    pub fn contains_key(&self, key: &[u8]) -> (found: bool)
        ensures
            found == self@.contains_key(key@),
    {
        self.find(key).is_some()
    }

    /// The value under this key, if there is one.
    pub fn get(&self, key: &[u8]) -> (value: Option<&V>)
        ensures
            match value {
                Some(v) => self@.contains_key(key@) && *v == self@[key@],
                None => !self@.contains_key(key@),
            },
    {
        match self.find(key) {
            Some(i) => Some(&self.entries[i].value),
            None => None,
        }
    }

    /// Puts `value` under `key`, in place of the value that was there, if any.
    /// A new key goes to the end of the entries; a known key keeps its place.
    pub fn insert(&mut self, key: Vec<u8>, value: V)
        ensures
            final(self)@ == old(self)@.insert(key@, value),
            final(self).entries() == match old(self).spec_position(key@) {
                Some(i) => old(self).entries().update(i, (key@, value)),
                None => old(self).entries().push((key@, value)),
            },
    {
        proof {
            use_type_invariant(&*self);
        }
        let ghost before = self.entries();
        match self.find(key.as_slice()) {
            Some(i) => {
                proof {
                    lemma_map_of_update(before, i as int, value);
                    assert(old(self).spec_position(key@) == Some(i as int));
                }
                let mut entries: Vec<Entry<V>> = Vec::new();
                std::mem::swap(&mut self.entries, &mut entries);
                entries.set(i, Entry { key, value });
                proof {
                    let after = before.update(i as int, (key@, value));
                    assert(Seq::new(
                        entries.len() as nat,
                        |j: int| (entries[j].key@, entries[j].value),
                    ) =~= after);
                }
                std::mem::swap(&mut self.entries, &mut entries);
                assert(self.entries() =~= before.update(i as int, (key@, value)));
            },
            None => {
                proof {
                    assert(old(self).spec_position(key@) is None);
                    assert(before.push((key@, value)).drop_last() =~= before);
                }
                let mut entries: Vec<Entry<V>> = Vec::new();
                std::mem::swap(&mut self.entries, &mut entries);
                entries.push(Entry { key, value });
                proof {
                    let after = before.push((key@, value));
                    assert(Seq::new(
                        entries.len() as nat,
                        |j: int| (entries[j].key@, entries[j].value),
                    ) =~= after);
                    assert(spec_distinct_keys(after));
                }
                std::mem::swap(&mut self.entries, &mut entries);
                assert(self.entries() =~= before.push((key@, value)));
            },
        }
    }

    /// Takes the entry with this key out, if there is one, and returns its
    /// value. The other entries keep their order.
    pub fn remove(&mut self, key: &[u8]) -> (value: Option<V>)
        ensures
            final(self)@ == old(self)@.remove(key@),
            match value {
                Some(v) => old(self)@.contains_key(key@) && v == old(self)@[key@],
                None => !old(self)@.contains_key(key@),
            },
            final(self).entries() == match old(self).spec_position(key@) {
                Some(i) => old(self).entries().remove(i),
                None => old(self).entries(),
            },
    {
        proof {
            use_type_invariant(&*self);
        }
        let ghost before = self.entries();
        match self.find(key) {
            Some(i) => {
                proof {
                    lemma_map_of_remove(before, i as int);
                    assert(old(self).spec_position(key@) == Some(i as int));
                }
                let mut entries: Vec<Entry<V>> = Vec::new();
                std::mem::swap(&mut self.entries, &mut entries);
                let entry = entries.remove(i);
                proof {
                    let after = before.remove(i as int);
                    assert(Seq::new(
                        entries.len() as nat,
                        |j: int| (entries[j].key@, entries[j].value),
                    ) =~= after);
                }
                std::mem::swap(&mut self.entries, &mut entries);
                assert(self.entries() =~= before.remove(i as int));
                Some(entry.value)
            },
            None => {
                proof {
                    assert(old(self).spec_position(key@) is None);
                    assert(self@.remove(key@) =~= self@);
                }
                None
            },
        }
    }

    /// The position of the entry with this key.
    pub open spec fn spec_position(&self, key: Seq<u8>) -> Option<int> {
        spec_position_of(self.entries(), key)
    }
}

/// The first position in `pairs` that holds `key`.
pub open spec fn spec_position_of<V>(pairs: Seq<(Seq<u8>, V)>, key: Seq<u8>) -> Option<int> {
    if exists|i: int| 0 <= i < pairs.len() && (#[trigger] pairs[i]).0 == key {
        Some(choose|i: int| 0 <= i < pairs.len() && (#[trigger] pairs[i]).0 == key)
    } else {
        None
    }
}

/// Where no key occurs twice, the map has as many keys as there are pairs.
pub proof fn lemma_map_of_len<V>(pairs: Seq<(Seq<u8>, V)>)
    requires
        spec_distinct_keys(pairs),
    ensures
        spec_map_of(pairs).len() == pairs.len(),
    decreases pairs.len(),
{
    if pairs.len() > 0 {
        let front = pairs.drop_last();
        assert(spec_distinct_keys(front)) by {
            assert forall|a: int, b: int| 0 <= a < b < front.len() implies (#[trigger] front[a]).0
                != (#[trigger] front[b]).0 by {
                assert(pairs[a].0 != pairs[b].0);
            }
        }
        lemma_map_of_len(front);
        lemma_map_of_dom(front);
        assert(!spec_map_of(front).contains_key(pairs.last().0)) by {
            if spec_map_of(front).contains_key(pairs.last().0) {
                let i = choose|i: int|
                    0 <= i < front.len() && (#[trigger] front[i]).0 == pairs.last().0;
                assert(pairs[i].0 != pairs[pairs.len() - 1].0);
            }
        }
    }
}

/// Where no key occurs twice, a new value at position `i` is a new value
/// under that position's key.
pub proof fn lemma_map_of_update<V>(pairs: Seq<(Seq<u8>, V)>, i: int, value: V)
    requires
        spec_distinct_keys(pairs),
        0 <= i < pairs.len(),
    ensures
        spec_distinct_keys(pairs.update(i, (pairs[i].0, value))),
        spec_map_of(pairs.update(i, (pairs[i].0, value))) == spec_map_of(pairs).insert(
            pairs[i].0,
            value,
        ),
        spec_position_of(pairs, pairs[i].0) == Some(i),
{
    let after = pairs.update(i, (pairs[i].0, value));
    assert(spec_distinct_keys(after)) by {
        assert forall|a: int, b: int| 0 <= a < b < after.len() implies (#[trigger] after[a]).0 != (
        #[trigger] after[b]).0 by {
            assert(pairs[a].0 != pairs[b].0);
        }
    }
    lemma_map_of_dom(pairs);
    lemma_map_of_dom(after);
    let m1 = spec_map_of(after);
    let m2 = spec_map_of(pairs).insert(pairs[i].0, value);
    assert forall|k: Seq<u8>| m1.contains_key(k) <==> m2.contains_key(k) by {
        if m1.contains_key(k) {
            let j = choose|j: int| 0 <= j < after.len() && (#[trigger] after[j]).0 == k;
            assert(pairs[j].0 == k);
        }
        if m2.contains_key(k) && k != pairs[i].0 {
            let j = choose|j: int| 0 <= j < pairs.len() && (#[trigger] pairs[j]).0 == k;
            assert(after[j].0 == k);
        }
        if k == pairs[i].0 {
            assert(after[i].0 == k);
        }
    }
    assert forall|k: Seq<u8>| m1.contains_key(k) implies m1[k] == m2[k] by {
        let j = choose|j: int| 0 <= j < after.len() && (#[trigger] after[j]).0 == k;
        lemma_map_of_distinct(after, j);
        if j != i {
            lemma_map_of_distinct(pairs, j);
            assert(pairs[j].0 != pairs[i].0);
        }
    }
    assert(m1 =~= m2);
    let p = choose|p: int| 0 <= p < pairs.len() && (#[trigger] pairs[p]).0 == pairs[i].0;
    assert(p == i) by {
        if p < i {
            assert(pairs[p].0 != pairs[i].0);
        } else if i < p {
            assert(pairs[i].0 != pairs[p].0);
        }
    }
}

/// Where no key occurs twice, taking the pair at position `i` out takes that
/// position's key out of the map.
pub proof fn lemma_map_of_remove<V>(pairs: Seq<(Seq<u8>, V)>, i: int)
    requires
        spec_distinct_keys(pairs),
        0 <= i < pairs.len(),
    ensures
        spec_distinct_keys(pairs.remove(i)),
        spec_map_of(pairs.remove(i)) == spec_map_of(pairs).remove(pairs[i].0),
        spec_position_of(pairs, pairs[i].0) == Some(i),
{
    let after = pairs.remove(i);
    assert(spec_distinct_keys(after)) by {
        assert forall|a: int, b: int| 0 <= a < b < after.len() implies (#[trigger] after[a]).0 != (
        #[trigger] after[b]).0 by {
            let pa = if a < i { a } else { a + 1 };
            let pb = if b < i { b } else { b + 1 };
            assert(pairs[pa].0 != pairs[pb].0);
        }
    }
    lemma_map_of_dom(pairs);
    lemma_map_of_dom(after);
    let m1 = spec_map_of(after);
    let m2 = spec_map_of(pairs).remove(pairs[i].0);
    assert forall|k: Seq<u8>| m1.contains_key(k) <==> m2.contains_key(k) by {
        if m1.contains_key(k) {
            let j = choose|j: int| 0 <= j < after.len() && (#[trigger] after[j]).0 == k;
            let pj = if j < i { j } else { j + 1 };
            assert(pairs[pj].0 == k);
            if pj < i {
                assert(pairs[pj].0 != pairs[i].0);
            } else {
                assert(pairs[i].0 != pairs[pj].0);
            }
        }
        if m2.contains_key(k) {
            let j = choose|j: int| 0 <= j < pairs.len() && (#[trigger] pairs[j]).0 == k;
            let aj = if j < i { j } else { j - 1 };
            assert(after[aj].0 == k);
        }
    }
    assert forall|k: Seq<u8>| m1.contains_key(k) implies m1[k] == m2[k] by {
        let j = choose|j: int| 0 <= j < after.len() && (#[trigger] after[j]).0 == k;
        let pj = if j < i { j } else { j + 1 };
        lemma_map_of_distinct(after, j);
        lemma_map_of_distinct(pairs, pj);
    }
    assert(m1 =~= m2);
    let p = choose|p: int| 0 <= p < pairs.len() && (#[trigger] pairs[p]).0 == pairs[i].0;
    assert(p == i) by {
        if p < i {
            assert(pairs[p].0 != pairs[i].0);
        } else if i < p {
            assert(pairs[i].0 != pairs[p].0);
        }
    }
}

} // verus!
