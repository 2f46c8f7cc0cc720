//! A map keyed by text, kept as a list of entries with each key once.

use vstd::prelude::*;

use crate::text::str_eq;

verus! {

/// Entries keyed by text, each key once, in insertion order.
#[derive(Debug, Clone)]
pub struct NameMap<V> {
    entries: Vec<(String, V)>,
}

/// The keys of a list of entries.
pub open spec fn keys_of<V>(s: Seq<(String, V)>) -> Seq<Seq<char>> {
    s.map_values(|e: (String, V)| e.0@)
}

impl<V> View for NameMap<V> {
    type V = Map<Seq<char>, V>;

    closed spec fn view(&self) -> Map<Seq<char>, V> {
        Map::new(
            |k: Seq<char>| exists|i: int| 0 <= i < self.entries@.len() && self.entries@[i].0@ == k,
            |k: Seq<char>| self.entries@[choose|i: int| 0 <= i < self.entries@.len() && self.entries@[i].0@ == k].1,
        )
    }
}

impl<V> NameMap<V> {
    /// Each key once.
    pub closed spec fn wf(&self) -> bool {
        forall|i: int, j: int| 0 <= i < j < self.entries@.len() ==> self.entries@[i].0@ != self.entries@[j].0@
    }

    /// The keys in insertion order.
    pub closed spec fn key_seq(&self) -> Seq<Seq<char>> {
        keys_of(self.entries@)
    }

    /// The keys in insertion order are those of the map, each once.
    pub proof fn lemma_keys(&self)
        requires
            self.wf(),
        ensures
            self.key_seq().no_duplicates(),
            forall|k: Seq<char>| #[trigger] self@.dom().contains(k) <==> self.key_seq().contains(k),
            self@.dom().finite(),
            self@.dom().len() == self.key_seq().len(),
    {
        let ks = self.key_seq();
        assert forall|k: Seq<char>| #[trigger] self@.dom().contains(k) <==> ks.contains(k) by {
            if self@.dom().contains(k) {
                let i = choose|i: int| 0 <= i < self.entries@.len() && self.entries@[i].0@ == k;
                assert(ks[i] == k);
            }
            if ks.contains(k) {
                let i = choose|i: int| 0 <= i < ks.len() && ks[i] == k;
                assert(self.entries@[i].0@ == k);
            }
        }
        assert(self@.dom() =~= ks.to_set());
        ks.unique_seq_to_set();
    }

    /// An empty map.
    pub fn new() -> (r: Self)
        ensures
            r.wf(),
            r@ == Map::<Seq<char>, V>::empty(),
            r.key_seq() == Seq::<Seq<char>>::empty(),
    {
        let r = NameMap { entries: Vec::new() };
        assert(r@ =~= Map::<Seq<char>, V>::empty());
        assert(r.key_seq() =~= Seq::<Seq<char>>::empty());
        r
    }

    /// Position of `key`.
    fn position(&self, key: &str) -> (r: Option<usize>)
        requires
            self.wf(),
        ensures
            match r {
                Some(i) => i < self.entries@.len() && self.entries@[i as int].0@ == key@
                    && self@.dom().contains(key@) && self@[key@] == self.entries@[i as int].1,
                None => !self@.dom().contains(key@),
            },
    {
        let mut i: usize = 0;
        while i < self.entries.len()
            invariant
                self.wf(),
                i <= self.entries@.len(),
                forall|j: int| 0 <= j < i ==> self.entries@[j].0@ != key@,
            decreases self.entries@.len() - i,
        {
            if str_eq(self.entries[i].0.as_str(), key) {
                proof {
                    let c = choose|c: int| 0 <= c < self.entries@.len() && self.entries@[c].0@ == key@;
                    if c > i {
                        assert(self.entries@[i as int].0@ != self.entries@[c].0@);
                    }
                    assert(c == i);
                }
                return Some(i);
            }
            i += 1;
        }
        None
    }

    /// The value of `key`.
    pub fn get(&self, key: &str) -> (r: Option<&V>)
        requires
            self.wf(),
        ensures
            match r {
                Some(v) => self@.dom().contains(key@) && self@[key@] == *v,
                None => !self@.dom().contains(key@),
            },
    {
        match self.position(key) {
            Some(i) => Some(&self.entries[i].1),
            None => None,
        }
    }

    /// Whether `key` is present.
    pub fn contains_key(&self, key: &str) -> (r: bool)
        requires
            self.wf(),
        ensures
            r == self@.dom().contains(key@),
    {
        self.position(key).is_some()
    }

    /// Set the value of `key`, returning the one it replaces. A new key goes
    /// last in the insertion order.
    pub fn insert(&mut self, key: String, value: V) -> (r: Option<V>)
        requires
            old(self).wf(),
        ensures
            final(self).wf(),
            final(self)@ == old(self)@.insert(key@, value),
            match r {
                Some(v) => old(self)@.dom().contains(key@) && old(self)@[key@] == v,
                None => !old(self)@.dom().contains(key@),
            },
            old(self)@.dom().contains(key@) ==> final(self).key_seq() == old(self).key_seq(),
            !old(self)@.dom().contains(key@) ==> final(self).key_seq() == old(self).key_seq().push(key@),
    {
        let ghost k = key@;
        match self.position(key.as_str()) {
            Some(i) => {
                let ghost before = self.entries@;
                let (_, previous) = self.entries.remove(i);
                self.entries.insert(i, (key, value));
                proof {
                    assert(self.entries@ =~= before.update(i as int, (self.entries@[i as int].0, value)));
                    assert forall|x: Seq<char>| #[trigger] self@.dom().contains(x) <==> old(self)@.insert(k, value).dom().contains(x) by {
                        if self@.dom().contains(x) {
                            let c = choose|c: int| 0 <= c < self.entries@.len() && self.entries@[c].0@ == x;
                            if c != i {
                                assert(before[c].0@ == x);
                            }
                        }
                        if old(self)@.dom().contains(x) {
                            let c = choose|c: int| 0 <= c < before.len() && before[c].0@ == x;
                            if c != i {
                                assert(self.entries@[c].0@ == x);
                            }
                        }
                    }
                    assert forall|x: Seq<char>| #[trigger] self@.dom().contains(x) implies self@[x] == old(self)@.insert(k, value)[x] by {
                        let c = choose|c: int| 0 <= c < self.entries@.len() && self.entries@[c].0@ == x;
                        if x == k {
                            assert(c == i);
                        } else {
                            let d = choose|d: int| 0 <= d < before.len() && before[d].0@ == x;
                            assert(d == c);
                        }
                    }
                    assert(self@ =~= old(self)@.insert(k, value));
                    assert(self.key_seq() =~= old(self).key_seq());
                }
                Some(previous)
            },
            None => {
                let ghost before = self.entries@;
                self.entries.push((key, value));
                proof {
                    assert forall|x: Seq<char>| #[trigger] self@.dom().contains(x) <==> old(self)@.insert(k, value).dom().contains(x) by {
                        if self@.dom().contains(x) {
                            let c = choose|c: int| 0 <= c < self.entries@.len() && self.entries@[c].0@ == x;
                            if c < before.len() {
                                assert(before[c].0@ == x);
                            }
                        }
                        if old(self)@.dom().contains(x) {
                            let c = choose|c: int| 0 <= c < before.len() && before[c].0@ == x;
                            assert(self.entries@[c].0@ == x);
                        }
                        if x == k {
                            assert(self.entries@[before.len() as int].0@ == x);
                        }
                    }
                    assert forall|x: Seq<char>| #[trigger] self@.dom().contains(x) implies self@[x] == old(self)@.insert(k, value)[x] by {
                        let c = choose|c: int| 0 <= c < self.entries@.len() && self.entries@[c].0@ == x;
                        if x == k {
                            assert(c == before.len());
                        } else {
                            let d = choose|d: int| 0 <= d < before.len() && before[d].0@ == x;
                            assert(self.entries@[d].0@ == x);
                            assert(d == c);
                        }
                    }
                    assert(self@ =~= old(self)@.insert(k, value));
                    assert(self.key_seq() =~= old(self).key_seq().push(k));
                }
                None
            },
        }
    }

    /// Remove `key`, returning its value.
    pub fn remove(&mut self, key: &str) -> (r: Option<V>)
        requires
            old(self).wf(),
        ensures
            final(self).wf(),
            final(self)@ == old(self)@.remove(key@),
            match r {
                Some(v) => old(self)@.dom().contains(key@) && old(self)@[key@] == v,
                None => !old(self)@.dom().contains(key@),
            },
    {
        match self.position(key) {
            Some(i) => {
                let ghost before = self.entries@;
                let (_, previous) = self.entries.remove(i);
                proof {
                    assert forall|x: Seq<char>| #[trigger] self@.dom().contains(x) <==> old(self)@.remove(key@).dom().contains(x) by {
                        if self@.dom().contains(x) {
                            let c = choose|c: int| 0 <= c < self.entries@.len() && self.entries@[c].0@ == x;
                            if c < i {
                                assert(before[c].0@ == x);
                            } else {
                                assert(before[c + 1].0@ == x);
                            }
                        }
                        if old(self)@.remove(key@).dom().contains(x) {
                            let c = choose|c: int| 0 <= c < before.len() && before[c].0@ == x;
                            if c < i {
                                assert(self.entries@[c].0@ == x);
                            } else {
                                assert(c != i);
                                assert(self.entries@[c - 1].0@ == x);
                            }
                        }
                    }
                    assert forall|x: Seq<char>| #[trigger] self@.dom().contains(x) implies self@[x] == old(self)@[x] by {
                        let c = choose|c: int| 0 <= c < self.entries@.len() && self.entries@[c].0@ == x;
                        let d = choose|d: int| 0 <= d < before.len() && before[d].0@ == x;
                        if c < i {
                            assert(before[c].0@ == x);
                            assert(d == c);
                        } else {
                            assert(before[c + 1].0@ == x);
                            assert(d == c + 1);
                        }
                    }
                    assert(self@ =~= old(self)@.remove(key@));
                }
                Some(previous)
            },
            None => {
                assert(old(self)@.remove(key@) =~= old(self)@);
                None
            },
        }
    }

    /// Number of entries.
    pub fn len(&self) -> (r: usize)
        requires
            self.wf(),
        ensures
            r == self@.dom().len(),
    {
        proof {
            self.lemma_keys();
            assert(self.key_seq().len() == self.entries@.len());
        }
        self.entries.len()
    }

    /// The keys in insertion order.
    pub fn keys(&self) -> (r: Vec<&str>)
        ensures
            r@.len() == self.key_seq().len(),
            forall|i: int| 0 <= i < r@.len() ==> (#[trigger] r@[i])@ == self.key_seq()[i],
    {
        let mut r: Vec<&str> = Vec::new();
        let mut i: usize = 0;
        while i < self.entries.len()
            invariant
                i <= self.entries@.len(),
                r@.len() == i,
                forall|j: int| 0 <= j < i ==> (#[trigger] r@[j])@ == self.entries@[j].0@,
            decreases self.entries@.len() - i,
        {
            r.push(self.entries[i].0.as_str());
            i += 1;
        }
        r
    }

    /// The entries in insertion order.
    pub fn iter(&self) -> (r: Vec<(&str, &V)>)
        requires
            self.wf(),
        ensures
            r@.len() == self.key_seq().len(),
            forall|i: int| 0 <= i < r@.len() ==> (#[trigger] r@[i]).0@ == self.key_seq()[i]
                && self@[self.key_seq()[i]] == *r@[i].1,
    {
        let mut r: Vec<(&str, &V)> = Vec::new();
        let mut i: usize = 0;
        while i < self.entries.len()
            invariant
                self.wf(),
                i <= self.entries@.len(),
                r@.len() == i,
                forall|j: int| 0 <= j < i ==> (#[trigger] r@[j]).0@ == self.entries@[j].0@
                    && *r@[j].1 == self.entries@[j].1,
            decreases self.entries@.len() - i,
        {
            r.push((self.entries[i].0.as_str(), &self.entries[i].1));
            i += 1;
        }
        proof {
            assert forall|j: int| 0 <= j < r@.len() implies self@[self.key_seq()[j]] == *r@[j].1 by {
                let k = self.entries@[j].0@;
                let c = choose|c: int| 0 <= c < self.entries@.len() && self.entries@[c].0@ == k;
                assert(c == j);
            }
        }
        r
    }
}

impl<V> NameMap<V> {
    /// The entries, consumed, in insertion order.
    pub fn into_vec(self) -> (r: Vec<(String, V)>)
        requires
            self.wf(),
        ensures
            keys_of(r@) == self.key_seq(),
            forall|i: int| 0 <= i < r@.len() ==> self@[(#[trigger] r@[i]).0@] == r@[i].1,
    {
        proof {
            assert forall|i: int| 0 <= i < self.entries@.len() implies self@[(#[trigger] self.entries@[i]).0@] == self.entries@[i].1 by {
                let k = self.entries@[i].0@;
                let c = choose|c: int| 0 <= c < self.entries@.len() && self.entries@[c].0@ == k;
                assert(c == i);
            }
        }
        self.entries
    }
}

} // verus!
