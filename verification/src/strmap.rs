use vstd::prelude::*;

use crate::text::str_eq;

verus! {

/// A map keyed by strings that keeps its entries in insertion order.
///
/// Keys are unique; the entry order is what callers see when they walk the map.
#[derive(Debug)]
pub struct StrMap<V> {
    entries: Vec<(String, V)>,
}

/// In a sequence without repeats, an item's index is where it stands.
proof fn lemma_index_of_unique(s: Seq<Seq<char>>, x: Seq<char>, j: int)
    requires
        s.no_duplicates(),
        0 <= j < s.len(),
        s[j] == x,
    ensures
        s.index_of(x) == j,
{
    assert(s.contains(x));
}

impl<V> StrMap<V> {
    /// The keys, in entry order.
    pub closed spec fn keys(&self) -> Seq<Seq<char>> {
        self.entries@.map_values(|e: (String, V)| e.0@)
    }

    /// The values, in entry order.
    pub closed spec fn values(&self) -> Seq<V> {
        self.entries@.map_values(|e: (String, V)| e.1)
    }

    #[verifier::type_invariant]
    pub open spec fn well_formed(&self) -> bool {
        &&& self.keys().no_duplicates()
        &&& self.keys().len() == self.values().len()
    }

    /// Position of `k` among the keys, or -1 when absent.
    pub open spec fn position(&self, k: Seq<char>) -> int {
        if self.keys().contains(k) {
            self.keys().index_of(k)
        } else {
            -1
        }
    }

    /// The map as a mathematical map from keys to values.
    pub open spec fn to_map(&self) -> Map<Seq<char>, V> {
        Map::new(|k: Seq<char>| self.keys().contains(k), |k: Seq<char>| self.values()[self.keys().index_of(k)])
    }

    pub fn new() -> (m: Self)
        ensures
            m.keys() == Seq::<Seq<char>>::empty(),
            m.values() == Seq::<V>::empty(),
    {
        let m = StrMap { entries: Vec::new() };
        assert(m.keys() =~= Seq::<Seq<char>>::empty());
        assert(m.values() =~= Seq::<V>::empty());
        m
    }

    pub fn len(&self) -> (n: usize)
        ensures
            n == self.keys().len(),
            n == self.values().len(),
    {
        self.entries.len()
    }

    pub fn is_empty(&self) -> (b: bool)
        ensures
            b == (self.keys().len() == 0),
    {
        self.entries.len() == 0
    }

    /// The key of entry `i`.
    pub fn key_at(&self, i: usize) -> (k: &String)
        requires
            i < self.keys().len(),
        ensures
            k@ == self.keys()[i as int],
    {
        &self.entries[i].0
    }

    /// The value of entry `i`.
    pub fn value_at(&self, i: usize) -> (v: &V)
        requires
            i < self.values().len(),
        ensures
            *v == self.values()[i as int],
    {
        proof { use_type_invariant(self); }
        &self.entries[i].1
    }

    /// Where `k` stands among the entries, if it is a key.
    pub fn find(&self, k: &str) -> (r: Option<usize>)
        ensures
            r is Some <==> self.keys().contains(k@),
            r matches Some(i) ==> i < self.keys().len() && self.keys()[i as int] == k@
                && i == self.position(k@),
            r is None ==> self.position(k@) == -1,
    {
        proof { use_type_invariant(self); }
        let n = self.entries.len();
        for i in 0..n
            invariant
                n == self.entries@.len(),
                self.keys().no_duplicates(),
                forall|j: int| 0 <= j < i ==> self.keys()[j] != k@,
        {
            if str_eq(self.entries[i].0.as_str(), k) {
                assert(self.keys()[i as int] == k@);
                proof {
                    self.keys().index_of_first_ensures(k@);
                }
                assert(self.keys().contains(k@));
                assert(self.keys().index_of(k@) == i) by {
                    let j = self.keys().index_of(k@);
                    assert(self.keys()[j] == k@);
                }
                return Some(i);
            }
        }
        assert(!self.keys().contains(k@));
        None
    }

    pub fn contains_key(&self, k: &str) -> (b: bool)
        ensures
            b == self.keys().contains(k@),
    {
        self.find(k).is_some()
    }

    pub fn get(&self, k: &str) -> (r: Option<&V>)
        ensures
            r is Some <==> self.keys().contains(k@),
            r matches Some(v) ==> *v == self.to_map()[k@],
    {
        match self.find(k) {
            Some(i) => {
                proof { use_type_invariant(self); }
                Some(&self.entries[i].1)
            },
            None => None,
        }
    }

    /// Sets the value of `k`: in place when `k` is a key, as a new last entry otherwise.
    /// Returns the value it replaced, if any.
    pub fn insert(&mut self, k: String, v: V) -> (old_v: Option<V>)
        ensures
            old(self).keys().contains(k@) ==> {
                let i = old(self).position(k@);
                &&& final(self).keys() == old(self).keys()
                &&& final(self).values() == old(self).values().update(i, v)
                &&& old_v == Some(old(self).values()[i])
            },
            !old(self).keys().contains(k@) ==> {
                &&& final(self).keys() == old(self).keys().push(k@)
                &&& final(self).values() == old(self).values().push(v)
                &&& old_v is None
            },
            final(self).to_map() == old(self).to_map().insert(k@, v),
    {
        proof { use_type_invariant(&*self); }
        let ghost old_keys = self.keys();
        let ghost old_values = self.values();
        match self.find(k.as_str()) {
            Some(i) => {
                let mut es: Vec<(String, V)> = Vec::new();
                std::mem::swap(&mut es, &mut self.entries);
                let old_entry = es.remove(i);
                es.insert(i, (k, v));
                assert(es@ =~= old(self).entries@.update(i as int, (k, v)));
                assert(es@.map_values(|e: (String, V)| e.0@) =~= old(self).keys());
                self.entries = es;
                assert(self.keys() =~= old(self).keys());
                assert(self.values() =~= old(self).values().update(i as int, v));
                proof {
                    use_type_invariant(&*self);
                    assert(old_keys[i as int] == k@);
                    assert forall|x: Seq<char>| self.keys().contains(x) implies
                        self.values()[self.keys().index_of(x)] == old(self).to_map().insert(k@, v)[x] by {
                        let j = self.keys().index_of(x);
                        lemma_index_of_unique(old_keys, x, j);
                        if x == k@ {
                            lemma_index_of_unique(old_keys, x, i as int);
                        }
                    }
                    assert(self.to_map() =~= old(self).to_map().insert(k@, v));
                }
                Some(old_entry.1)
            },
            None => {
                let mut es: Vec<(String, V)> = Vec::new();
                std::mem::swap(&mut es, &mut self.entries);
                es.push((k, v));
                proof {
                    let ks = es@.map_values(|e: (String, V)| e.0@);
                    assert(ks =~= old(self).keys().push(k@));
                    assert(!old(self).keys().contains(k@));
                }
                self.entries = es;
                assert(self.keys() =~= old(self).keys().push(k@));
                assert(self.values() =~= old(self).values().push(v));
                proof {
                    use_type_invariant(&*self);
                    let nk = self.keys();
                    assert(nk[old_keys.len() as int] == k@);
                    assert forall|x: Seq<char>| nk.contains(x) implies
                        self.values()[nk.index_of(x)] == old(self).to_map().insert(k@, v)[x] by {
                        let j = nk.index_of(x);
                        if x == k@ {
                            lemma_index_of_unique(nk, x, old_keys.len() as int);
                        } else {
                            assert(j < old_keys.len());
                            assert(old_keys[j] == x);
                            lemma_index_of_unique(old_keys, x, j);
                        }
                    }
                    assert forall|x: Seq<char>| nk.contains(x) <==> old(self).to_map().insert(k@, v).dom().contains(x) by {
                        if nk.contains(x) && x != k@ {
                            let j = nk.index_of(x);
                            assert(old_keys[j] == x);
                        }
                        if old_keys.contains(x) {
                            let j = old_keys.index_of(x);
                            assert(nk[j] == x);
                        }
                    }
                    assert(self.to_map() =~= old(self).to_map().insert(k@, v));
                }
                None
            },
        }
    }

    /// A map holding the given entries, in the given order.
    pub fn from_entries(entries: Vec<(String, V)>) -> (m: Self)
        requires
            entries@.map_values(|e: (String, V)| e.0@).no_duplicates(),
        ensures
            m.keys() == entries@.map_values(|e: (String, V)| e.0@),
            m.values() == entries@.map_values(|e: (String, V)| e.1),
    {
        StrMap { entries }
    }

    /// The entries, in order.
    pub fn into_entries(self) -> (entries: Vec<(String, V)>)
        ensures
            entries@.map_values(|e: (String, V)| e.0@) == self.keys(),
            entries@.map_values(|e: (String, V)| e.1) == self.values(),
    {
        proof { use_type_invariant(&self); }
        let StrMap { entries } = self;
        entries
    }

    /// Removes the entry of `k`, keeping the order of the others.
    pub fn remove(&mut self, k: &str) -> (old_v: Option<V>)
        ensures
            old(self).keys().contains(k@) ==> {
                let i = old(self).position(k@);
                &&& final(self).keys() == old(self).keys().remove(i)
                &&& final(self).values() == old(self).values().remove(i)
                &&& old_v == Some(old(self).values()[i])
            },
            !old(self).keys().contains(k@) ==> {
                &&& final(self).keys() == old(self).keys()
                &&& final(self).values() == old(self).values()
                &&& old_v is None
            },
            final(self).to_map() == old(self).to_map().remove(k@),
    {
        proof { use_type_invariant(&*self); }
        let ghost old_keys = self.keys();
        match self.find(k) {
            Some(i) => {
                let mut es: Vec<(String, V)> = Vec::new();
                std::mem::swap(&mut es, &mut self.entries);
                let e = es.remove(i);
                proof {
                    let ks = old(self).keys();
                    let nks = es@.map_values(|e: (String, V)| e.0@);
                    assert(nks =~= ks.remove(i as int));
                    assert forall|a: int, b: int|
                        0 <= a < nks.len() && 0 <= b < nks.len() && a != b
                        implies nks[a] != nks[b] by {
                        let a0 = if a < i { a } else { a + 1 };
                        let b0 = if b < i { b } else { b + 1 };
                        assert(nks[a] == ks[a0]);
                        assert(nks[b] == ks[b0]);
                    }
                    let nvs = es@.map_values(|e: (String, V)| e.1);
                    assert(nvs =~= old(self).values().remove(i as int));
                }
                self.entries = es;
                assert(self.keys() =~= old(self).keys().remove(i as int));
                assert(self.values() =~= old(self).values().remove(i as int));
                proof {
                    use_type_invariant(&*self);
                    let nk = self.keys();
                    assert forall|x: Seq<char>| nk.contains(x) implies
                        self.values()[nk.index_of(x)] == old(self).to_map()[x] && x != k@ by {
                        let j = nk.index_of(x);
                        let j0 = if j < i { j } else { j + 1 };
                        assert(old_keys[j0] == x);
                        lemma_index_of_unique(old_keys, x, j0);
                        if x == k@ {
                            lemma_index_of_unique(old_keys, x, i as int);
                        }
                    }
                    assert forall|x: Seq<char>| nk.contains(x) <==> old(self).to_map().remove(k@).dom().contains(x) by {
                        if old_keys.contains(x) && x != k@ {
                            let j = old_keys.index_of(x);
                            lemma_index_of_unique(old_keys, k@, i as int);
                            let j1 = if j < i { j } else { j - 1 };
                            assert(nk[j1] == x);
                        }
                        if nk.contains(x) {
                            let j = nk.index_of(x);
                            let j0 = if j < i { j } else { j + 1 };
                            assert(old_keys[j0] == x);
                        }
                    }
                    assert(self.to_map() =~= old(self).to_map().remove(k@));
                }
                Some(e.1)
            },
            None => {
                assert(self.to_map() =~= old(self).to_map().remove(k@));
                None
            },
        }
    }
}

impl<V: Clone> Clone for StrMap<V> {
    /// A copy with the same keys, in the same order; each value is cloned.
    fn clone(&self) -> (c: Self)
        ensures
            c.keys() == self.keys(),
            c.values().len() == self.values().len(),
            forall|i: int| 0 <= i < self.values().len() ==> cloned::<V>(self.values()[i], #[trigger] c.values()[i]),
    {
        proof { use_type_invariant(self); }
        let mut es: Vec<(String, V)> = Vec::new();
        let n = self.entries.len();
        for i in 0..n
            invariant
                n == self.entries@.len(),
                es@.len() == i,
                forall|j: int| 0 <= j < i ==> (#[trigger] es@[j]).0@ == self.entries@[j].0@,
                forall|j: int| 0 <= j < i ==> cloned::<V>(self.entries@[j].1, #[trigger] es@[j].1),
        {
            let k = self.entries[i].0.clone();
            let v = self.entries[i].1.clone();
            es.push((k, v));
        }
        assert(es@.map_values(|e: (String, V)| e.0@) =~= self.keys());
        let c = StrMap { entries: es };
        assert(c.keys() =~= self.keys());
        c
    }
}

} // verus!
