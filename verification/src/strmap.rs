//! A map from strings to values that keeps its keys in `String` order, as a
//! `BTreeMap<String, V>` does: iteration visits keys in ascending order.
use crate::text::{compare, lemma_lt_asymmetric, lemma_lt_irreflexive, lemma_lt_total, lemma_lt_transitive, seq_lt, str_eq};
use vstd::prelude::*;

verus! {

/// A string-keyed map whose entries are kept sorted by key.
#[derive(Debug)]
pub struct StrMap<V> {
    entries: Vec<(String, V)>,
}

pub open spec fn strictly_sorted(keys: Seq<Seq<char>>) -> bool {
    forall|i: int, j: int| 0 <= i < j < keys.len() ==> seq_lt(#[trigger] keys[i], #[trigger] keys[j])
}

pub proof fn lemma_sorted_distinct(keys: Seq<Seq<char>>)
    requires
        strictly_sorted(keys),
    ensures
        keys.no_duplicates(),
{
    assert forall|i: int, j: int| 0 <= i < keys.len() && 0 <= j < keys.len() && i != j implies keys[i]
        != keys[j] by {
        if i < j {
            lemma_lt_irreflexive(keys[i]);
        } else {
            lemma_lt_irreflexive(keys[j]);
        }
    }
}

impl<V> StrMap<V> {
    /// The keys, in ascending order.
    pub closed spec fn keys(&self) -> Seq<Seq<char>> {
        Seq::new(self.entries@.len(), |i: int| self.entries@[i].0@)
    }

    #[verifier::type_invariant]
    closed spec fn sorted(&self) -> bool {
        strictly_sorted(self.keys())
    }

    spec fn pos(&self, k: Seq<char>) -> int {
        choose|i: int| 0 <= i < self.keys().len() && self.keys()[i] == k
    }
}

impl<V: DeepView> StrMap<V> {

    /// The entries as (key, value) pairs, in ascending key order.
    pub closed spec fn pairs(&self) -> Seq<(Seq<char>, V::V)> {
        Seq::new(self.entries@.len(), |i: int| (self.entries@[i].0@, self.entries@[i].1.deep_view()))
    }

    /// The values, in ascending key order.
    pub closed spec fn values(&self) -> Seq<V> {
        Seq::new(self.entries@.len(), |i: int| self.entries@[i].1)
    }

    /// The contents of the map.
    pub closed spec fn map(&self) -> Map<Seq<char>, V::V> {
        Map::new(
            |k: Seq<char>| self.keys().contains(k),
            |k: Seq<char>| self.entries@[self.pos(k)].1.deep_view(),
        )
    }

    /// How the map, its ordered entries, its keys and its values relate.
    pub proof fn lemma_shape(&self)
        ensures
            self.pairs().len() == self.keys().len(),
            self.values().len() == self.keys().len(),
            forall|i: int|
                0 <= i < self.keys().len() ==> (#[trigger] self.pairs()[i]).0 == self.keys()[i]
                    && self.pairs()[i].1 == self.values()[i].deep_view(),
            forall|k: Seq<char>| #[trigger] self.map().contains_key(k) <==> self.keys().contains(k),
    {
    }

    /// With distinct keys, the map holds each entry's value under its key.
    pub proof fn lemma_entries(&self)
        requires
            self.keys().no_duplicates(),
        ensures
            forall|i: int|
                0 <= i < self.keys().len() ==> #[trigger] self.map()[self.keys()[i]]
                    == self.values()[i].deep_view(),
            self.map().dom().finite(),
            self.map().dom().len() == self.keys().len(),
    {
        assert forall|i: int| 0 <= i < self.keys().len() implies #[trigger] self.map()[self.keys()[i]]
            == self.values()[i].deep_view() by {
            let k = self.keys()[i];
            assert(self.keys().contains(k));
            let p = self.pos(k);
            assert(self.keys()[p] == k);
        }
        assert(self.map().dom() =~= self.keys().to_set());
        self.keys().unique_seq_to_set();
    }

    pub fn new() -> (m: Self)
        ensures
            m.keys() == Seq::<Seq<char>>::empty(),
            m.map() == Map::<Seq<char>, V::V>::empty(),
    {
        let m = StrMap { entries: Vec::new() };
        assert(m.keys() =~= Seq::<Seq<char>>::empty());
        assert(m.map() =~= Map::<Seq<char>, V::V>::empty());
        m
    }

    pub fn len(&self) -> (n: usize)
        ensures
            n == self.keys().len(),
            n == self.map().dom().len(),
            self.keys().no_duplicates(),
            strictly_sorted(self.keys()),
    {
        proof {
            use_type_invariant(self);
            lemma_sorted_distinct(self.keys());
            self.lemma_entries();
        }
        self.entries.len()
    }

    pub fn is_empty(&self) -> (b: bool)
        ensures
            b == (self.keys().len() == 0),
            b == (self.map() == Map::<Seq<char>, V::V>::empty()),
    {
        proof {
            use_type_invariant(self);
            lemma_sorted_distinct(self.keys());
            self.lemma_entries();
            if self.keys().len() > 0 {
                assert(self.map().contains_key(self.keys()[0]));
            } else {
                assert(self.map() =~= Map::<Seq<char>, V::V>::empty());
            }
        }
        self.entries.len() == 0
    }

    /// The entries, in ascending key order.
    pub fn entries(&self) -> (r: &Vec<(String, V)>)
        ensures
            r@.len() == self.keys().len(),
            forall|i: int| 0 <= i < r@.len() ==> (#[trigger] r@[i]).0@ == self.keys()[i] && r@[i].1 == self.values()[i],
    {
        &self.entries
    }

    /// The key at position `i` in ascending order.
    pub fn key_at(&self, i: usize) -> (k: &String)
        requires
            i < self.keys().len(),
        ensures
            k@ == self.keys()[i as int],
    {
        &self.entries[i].0
    }

    /// The value at position `i` in ascending key order.
    pub fn value_at(&self, i: usize) -> (v: &V)
        requires
            i < self.keys().len(),
        ensures
            *v == self.values()[i as int],
            v.deep_view() == self.pairs()[i as int].1,
    {
        &self.entries[i].1
    }

    /// The position of `key`, if present.
    pub fn find(&self, key: &str) -> (r: Option<usize>)
        ensures
            r is None <==> !self.map().contains_key(key@),
            r matches Some(i) ==> i < self.keys().len() && self.keys()[i as int] == key@,
            self.keys().no_duplicates(),
            strictly_sorted(self.keys()),
    {
        proof {
            use_type_invariant(self);
            lemma_sorted_distinct(self.keys());
        }
        let mut i: usize = 0;
        while i < self.entries.len()
            invariant
                i <= self.keys().len(),
                self.keys().no_duplicates(),
                strictly_sorted(self.keys()),
                forall|j: int| 0 <= j < i ==> self.keys()[j] != key@,
            decreases self.keys().len() - i,
        {
            if str_eq(self.entries[i].0.as_str(), key) {
                proof {
                    assert(self.keys()[i as int] == key@);
                    assert(self.keys().contains(key@));
                }
                return Some(i);
            }
            i = i + 1;
        }
        None
    }

    pub fn contains_key(&self, key: &str) -> (b: bool)
        ensures
            b == self.map().contains_key(key@),
    {
        self.find(key).is_some()
    }

    pub fn get(&self, key: &str) -> (r: Option<&V>)
        ensures
            r is Some <==> self.map().contains_key(key@),
            r matches Some(v) ==> v.deep_view() == self.map()[key@],
    {
        match self.find(key) {
            Some(i) => {
                proof {
                    self.lemma_entries();
                }
                Some(&self.entries[i].1)
            },
            None => None,
        }
    }

    /// Sets `key` to `value`; gives back the value it replaces.
    pub fn insert(&mut self, key: String, value: V) -> (r: Option<V>)
        ensures
            final(self).map() == old(self).map().insert(key@, value.deep_view()),
            r is Some <==> old(self).map().contains_key(key@),
            r matches Some(v) ==> v.deep_view() == old(self).map()[key@],
    {
        proof {
            use_type_invariant(&*self);
            lemma_sorted_distinct(self.keys());
            self.lemma_entries();
        }
        let ghost old_keys = self.keys();
        let ghost old_map = self.map();
        let mut i: usize = 0;
        let mut done = false;
        let mut same = false;
        while !done && i < self.entries.len()
            invariant
                i <= old_keys.len(),
                old_keys == self.keys(),
                old_map == self.map(),
                strictly_sorted(old_keys),
                forall|j: int| 0 <= j < i ==> seq_lt(#[trigger] old_keys[j], key@),
                done ==> i < old_keys.len() && !seq_lt(old_keys[i as int], key@),
                done ==> (same <==> old_keys[i as int] == key@),
                !done ==> !same,
            decreases old_keys.len() - i, if done { 0int } else { 1int },
        {
            let c = compare(self.entries[i].0.as_str(), key.as_str());
            if c >= 0 {
                done = true;
                same = c == 0;
            } else {
                i = i + 1;
            }
        }
        let mut entries: Vec<(String, V)> = Vec::new();
        std::mem::swap(&mut entries, &mut self.entries);
        if same {
            let (k, previous) = entries.remove(i);
            entries.insert(i, (k, value));
            proof {
                assert(Seq::new(entries@.len(), |j: int| entries@[j].0@) =~= old_keys);
            }
            self.entries = entries;
            proof {
                assert(self.keys() =~= old_keys);
                assert(old_keys[i as int] == key@);
                assert(old_keys.contains(key@));
                assert forall|kk: Seq<char>| #[trigger] self.map().contains_key(kk) == old_map.insert(
                    key@,
                    value.deep_view(),
                ).contains_key(kk) by {}
                assert forall|kk: Seq<char>| self.map().contains_key(kk) implies #[trigger] self.map()[kk]
                    == old_map.insert(key@, value.deep_view())[kk] by {
                    let p = self.pos(kk);
                    if kk == key@ {
                        assert(self.keys()[i as int] == kk);
                    } else {
                        assert(old_keys[p] == kk);
                        assert(old_map.contains_key(kk));
                        let q = choose|q: int| 0 <= q < old_keys.len() && old_keys[q] == kk;
                        assert(q == p);
                    }
                }
                assert(self.map() =~= old_map.insert(key@, value.deep_view()));
                assert(old_map[key@] == previous.deep_view()) by {
                    assert(old_keys[i as int] == key@);
                }
            }
            Some(previous)
        } else {
            proof {
                if i < old_keys.len() {
                    lemma_lt_total(old_keys[i as int], key@);
                    lemma_lt_asymmetric(old_keys[i as int], key@);
                }
                assert(!old_keys.contains(key@)) by {
                    if old_keys.contains(key@) {
                        let q = choose|q: int| 0 <= q < old_keys.len() && old_keys[q] == key@;
                        if q < i {
                            lemma_lt_irreflexive(key@);
                        } else if q > i {
                            lemma_lt_transitive(key@, old_keys[i as int], old_keys[q]);
                            lemma_lt_irreflexive(key@);
                        }
                    }
                }
            }
            entries.insert(i, (key, value));
            proof {
                let nk = Seq::new(entries@.len(), |j: int| entries@[j].0@);
                assert(nk =~= old_keys.insert(i as int, key@));
                assert forall|a: int, b: int| 0 <= a < b < nk.len() implies seq_lt(
                    #[trigger] nk[a],
                    #[trigger] nk[b],
                ) by {
                    if a < i && b == i {
                    } else if a < i && b > i {
                        if b - 1 > a {
                        }
                    } else if a == i && b > i {
                        if b - 1 > i {
                            lemma_lt_transitive(key@, old_keys[i as int], old_keys[b - 1]);
                        }
                    }
                }
                assert(strictly_sorted(nk));
                lemma_sorted_distinct(nk);
            }
            self.entries = entries;
            proof {
                let nk = self.keys();
                assert forall|kk: Seq<char>| #[trigger] self.map().contains_key(kk) == old_map.insert(
                    key@,
                    value.deep_view(),
                ).contains_key(kk) by {
                    if old_keys.contains(kk) {
                        let q = choose|q: int| 0 <= q < old_keys.len() && old_keys[q] == kk;
                        if q < i {
                            assert(nk[q] == kk);
                        } else {
                            assert(nk[q + 1] == kk);
                        }
                    }
                    if nk.contains(kk) && kk != key@ {
                        let q = choose|q: int| 0 <= q < nk.len() && nk[q] == kk;
                        if q < i {
                            assert(old_keys[q] == kk);
                        } else {
                            assert(old_keys[q - 1] == kk);
                        }
                    }
                    if kk == key@ {
                        assert(nk[i as int] == kk);
                    }
                }
                assert forall|kk: Seq<char>| self.map().contains_key(kk) implies #[trigger] self.map()[kk]
                    == old_map.insert(key@, value.deep_view())[kk] by {
                    let p = self.pos(kk);
                    if kk == key@ {
                        assert(nk[i as int] == kk);
                    } else {
                        let q = old_map_pos(old_keys, kk);
                        if p < i {
                            assert(old_keys[p] == kk);
                        } else {
                            assert(old_keys[p - 1] == kk);
                        }
                    }
                }
                assert(self.map() =~= old_map.insert(key@, value.deep_view()));
            }
            None
        }
    }
}

impl<V: Clone> Clone for StrMap<V> {
    fn clone(&self) -> (r: Self)
        ensures
            r.keys() == self.keys(),
    {
        proof {
            use_type_invariant(self);
        }
        let mut entries: Vec<(String, V)> = Vec::new();
        let mut i: usize = 0;
        while i < self.entries.len()
            invariant
                i <= self.entries@.len(),
                entries@.len() == i,
                forall|j: int| 0 <= j < i ==> (#[trigger] entries@[j]).0@ == self.entries@[j].0@,
            decreases self.entries@.len() - i,
        {
            let k = self.entries[i].0.clone();
            let v = self.entries[i].1.clone();
            entries.push((k, v));
            i = i + 1;
        }
        proof {
            assert(Seq::new(entries@.len(), |j: int| entries@[j].0@) =~= self.keys());
        }
        let r = StrMap { entries };
        r
    }
}

impl StrMap<String> {
    /// A copy with the same entries.
    pub fn copy(&self) -> (r: Self)
        ensures
            r.keys() == self.keys(),
            r.pairs() == self.pairs(),
            r.map() == self.map(),
    {
        proof {
            use_type_invariant(self);
        }
        let mut entries: Vec<(String, String)> = Vec::new();
        let mut i: usize = 0;
        while i < self.entries.len()
            invariant
                i <= self.entries@.len(),
                entries@.len() == i,
                forall|j: int| 0 <= j < i ==> (#[trigger] entries@[j]).0@ == self.entries@[j].0@
                    && entries@[j].1@ == self.entries@[j].1@,
            decreases self.entries@.len() - i,
        {
            let k = self.entries[i].0.clone();
            let v = self.entries[i].1.clone();
            entries.push((k, v));
            i = i + 1;
        }
        proof {
            assert(Seq::new(entries@.len(), |j: int| entries@[j].0@) =~= self.keys());
        }
        let r = StrMap { entries };
        proof {
            assert(r.keys() =~= self.keys());
            assert(r.pairs() =~= self.pairs());
            assert forall|k: Seq<char>| #[trigger] r.map().contains_key(k) implies r.map()[k] == self.map()[k] by {
                assert(r.pos(k) == self.pos(k));
            }
            assert(r.map() =~= self.map());
        }
        r
    }
}

spec fn old_map_pos(keys: Seq<Seq<char>>, k: Seq<char>) -> int {
    choose|q: int| 0 <= q < keys.len() && keys[q] == k
}

} // verus!
