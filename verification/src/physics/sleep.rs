//! Island sleeping bookkeeping: per-body sleep state keyed by body key. A
//! body sleeps as part of an island, tagged with a member's key; waking any
//! member wakes the whole island, and two sleeping islands that touch merge
//! their tags. The low-velocity timer and the frozen collider centre are the
//! caller's values (`T` and `V`), kept here unchanged except where a wake
//! resets the timer.

use vstd::prelude::*;

use crate::ecs::entity::Entity;
use crate::physics::keys::{entity_key, spec_entity_key};

verus! {

/// One body's sleep state.
#[derive(Debug, Clone, Copy)]
pub struct SleepEntry<T, V> {
    /// Time spent below the sleep velocity threshold.
    pub timer: T,
    pub sleeping: bool,
    /// Island tag at sleep time: the key of a member.
    pub island: u64,
    /// Collider centre frozen at sleep.
    pub center: V,
}

/// An entry after its island woke: awake, with the timer reset.
pub open spec fn woken<T, V>(e: SleepEntry<T, V>, rested: T) -> SleepEntry<T, V> {
    SleepEntry { timer: rested, sleeping: false, island: e.island, center: e.center }
}

/// The sleep states by body key.
#[derive(Debug)]
pub struct SleepTable<T, V> {
    entries: Vec<(u64, SleepEntry<T, V>)>,
}

/// Number of sleeping entries in a list.
pub open spec fn sleeping_in<T, V>(s: Seq<(u64, SleepEntry<T, V>)>) -> nat
    decreases s.len(),
{
    if s.len() == 0 {
        0
    } else {
        sleeping_in(s.drop_last()) + (if s.last().1.sleeping { 1nat } else { 0nat })
    }
}

impl<T, V> View for SleepTable<T, V> {
    type V = Map<u64, SleepEntry<T, V>>;

    closed spec fn view(&self) -> Map<u64, SleepEntry<T, V>> {
        Map::new(
            |k: u64| exists|i: int| 0 <= i < self.entries@.len() && self.entries@[i].0 == k,
            |k: u64| self.entries@[choose|i: int| 0 <= i < self.entries@.len() && self.entries@[i].0 == k].1,
        )
    }
}

impl<T: Copy, V: Copy> SleepTable<T, V> {
    /// Each key once.
    pub closed spec fn wf(&self) -> bool {
        forall|i: int, j: int| 0 <= i < j < self.entries@.len() ==> self.entries@[i].0 != self.entries@[j].0
    }

    /// Number of sleeping bodies.
    pub closed spec fn spec_sleeping_count(&self) -> nat {
        sleeping_in(self.entries@)
    }

    proof fn lemma_view_at(&self, i: int)
        requires
            self.wf(),
            0 <= i < self.entries@.len(),
        ensures
            self@.dom().contains(self.entries@[i].0),
            self@[self.entries@[i].0] == self.entries@[i].1,
    {
        let k = self.entries@[i].0;
        assert(self@.dom().contains(k));
        let c = choose|c: int| 0 <= c < self.entries@.len() && self.entries@[c].0 == k;
        assert(c == i);
    }

    /// An empty table.
    pub fn new() -> (r: Self)
        ensures
            r.wf(),
            r@ == Map::<u64, SleepEntry<T, V>>::empty(),
            r.spec_sleeping_count() == 0,
    {
        let r = SleepTable { entries: Vec::new() };
        assert(r@ =~= Map::<u64, SleepEntry<T, V>>::empty());
        r
    }

    fn position(&self, key: u64) -> (r: Option<usize>)
        requires
            self.wf(),
        ensures
            match r {
                Some(i) => i < self.entries@.len() && self.entries@[i as int].0 == key,
                None => !self@.dom().contains(key),
            },
    {
        let mut i: usize = 0;
        while i < self.entries.len()
            invariant
                i <= self.entries@.len(),
                forall|j: int| 0 <= j < i ==> self.entries@[j].0 != key,
            decreases self.entries@.len() - i,
        {
            if self.entries[i].0 == key {
                return Some(i);
            }
            i += 1;
        }
        None
    }

    /// The sleep state of a body.
    pub fn get(&self, key: u64) -> (r: Option<&SleepEntry<T, V>>)
        requires
            self.wf(),
        ensures
            match r {
                Some(e) => self@.dom().contains(key) && self@[key] == *e,
                None => !self@.dom().contains(key),
            },
    {
        match self.position(key) {
            Some(i) => {
                proof {
                    self.lemma_view_at(i as int);
                }
                Some(&self.entries[i].1)
            },
            None => None,
        }
    }

    /// Set the sleep state of a body.
    pub fn insert(&mut self, key: u64, value: SleepEntry<T, V>)
        requires
            old(self).wf(),
        ensures
            final(self).wf(),
            final(self)@ == old(self)@.insert(key, value),
    {
        match self.position(key) {
            Some(i) => {
                let ghost before = self.entries@;
                self.entries.set(i, (key, value));
                proof {
                    assert forall|k: u64| #[trigger] self@.dom().contains(k) <==> old(self)@.insert(key, value).dom().contains(k) by {
                        assert(self.entries@[i as int].0 == key);
                        assert(before[i as int].0 == key);
                        if self@.dom().contains(k) {
                            let c = choose|c: int| 0 <= c < self.entries@.len() && self.entries@[c].0 == k;
                            if c != i {
                                assert(before[c].0 == k);
                            }
                        }
                        if old(self)@.dom().contains(k) {
                            let c = choose|c: int| 0 <= c < before.len() && before[c].0 == k;
                            if c != i {
                                assert(self.entries@[c].0 == k);
                            }
                        }
                    }
                    assert forall|k: u64| #[trigger] self@.dom().contains(k) implies self@[k] == old(self)@.insert(key, value)[k] by {
                        let c = choose|c: int| 0 <= c < self.entries@.len() && self.entries@[c].0 == k;
                        self.lemma_view_at(c);
                        if k != key {
                            old(self).lemma_view_at(c);
                        }
                    }
                    assert(self@ =~= old(self)@.insert(key, value));
                }
            },
            None => {
                self.entries.push((key, value));
                proof {
                    let n = self.entries@.len() - 1;
                    assert forall|k: u64| #[trigger] self@.dom().contains(k) <==> old(self)@.insert(key, value).dom().contains(k) by {
                        if old(self)@.dom().contains(k) {
                            let c = choose|c: int| 0 <= c < old(self).entries@.len() && old(self).entries@[c].0 == k;
                            assert(self.entries@[c].0 == k);
                        }
                        if k == key {
                            assert(self.entries@[n].0 == k);
                        }
                    }
                    assert forall|k: u64| #[trigger] self@.dom().contains(k) implies self@[k] == old(self)@.insert(key, value)[k] by {
                        let c = choose|c: int| 0 <= c < self.entries@.len() && self.entries@[c].0 == k;
                        self.lemma_view_at(c);
                        if c < n {
                            old(self).lemma_view_at(c);
                        }
                    }
                    assert(self@ =~= old(self)@.insert(key, value));
                }
            },
        }
    }

    /// Wake every sleeping member of the given islands: awake, timer reset.
    pub fn wake_islands(&mut self, islands: &[u64], rested: T)
        requires
            old(self).wf(),
        ensures
            final(self).wf(),
            final(self)@.dom() == old(self)@.dom(),
            forall|k: u64| #[trigger] old(self)@.dom().contains(k) ==> final(self)@[k] == (
                if old(self)@[k].sleeping && islands@.contains(old(self)@[k].island) {
                    woken(old(self)@[k], rested)
                } else {
                    old(self)@[k]
                }),
    {
        let ghost before = self.entries@;
        let mut i: usize = 0;
        while i < self.entries.len()
            invariant
                self.entries@.len() == before.len(),
                i <= before.len(),
                forall|j: int| 0 <= j < before.len() ==> #[trigger] self.entries@[j].0 == before[j].0,
                forall|j: int| 0 <= j < i ==> #[trigger] self.entries@[j].1 == (
                    if before[j].1.sleeping && islands@.contains(before[j].1.island) {
                        woken(before[j].1, rested)
                    } else {
                        before[j].1
                    }),
                forall|j: int| i <= j < before.len() ==> #[trigger] self.entries@[j] == before[j],
            decreases before.len() - i,
        {
            let (key, entry) = self.entries[i];
            if entry.sleeping && slice_contains(islands, entry.island) {
                let updated = SleepEntry { timer: rested, sleeping: false, island: entry.island, center: entry.center };
                self.entries.set(i, (key, updated));
            }
            i += 1;
        }
        proof {
            self.lemma_same_keys(before);
            assert forall|k: u64| #[trigger] old(self)@.dom().contains(k) implies self@[k] == (
                if old(self)@[k].sleeping && islands@.contains(old(self)@[k].island) {
                    woken(old(self)@[k], rested)
                } else {
                    old(self)@[k]
                }) by {
                let c = choose|c: int| 0 <= c < before.len() && before[c].0 == k;
                old(self).lemma_view_at(c);
                self.lemma_view_at(c);
            }
        }
    }

    /// Rewrite the island tag `from` to `to` on every sleeping body: two
    /// sleeping islands merged into one.
    pub fn retag(&mut self, from: u64, to: u64)
        requires
            old(self).wf(),
        ensures
            final(self).wf(),
            final(self)@.dom() == old(self)@.dom(),
            forall|k: u64| #[trigger] old(self)@.dom().contains(k) ==> final(self)@[k] == (
                if old(self)@[k].sleeping && old(self)@[k].island == from {
                    SleepEntry { island: to, ..old(self)@[k] }
                } else {
                    old(self)@[k]
                }),
    {
        let ghost before = self.entries@;
        let mut i: usize = 0;
        while i < self.entries.len()
            invariant
                self.entries@.len() == before.len(),
                i <= before.len(),
                forall|j: int| 0 <= j < before.len() ==> #[trigger] self.entries@[j].0 == before[j].0,
                forall|j: int| 0 <= j < i ==> #[trigger] self.entries@[j].1 == (
                    if before[j].1.sleeping && before[j].1.island == from {
                        SleepEntry { island: to, ..before[j].1 }
                    } else {
                        before[j].1
                    }),
                forall|j: int| i <= j < before.len() ==> #[trigger] self.entries@[j] == before[j],
            decreases before.len() - i,
        {
            let (key, entry) = self.entries[i];
            if entry.sleeping && entry.island == from {
                let updated = SleepEntry { timer: entry.timer, sleeping: entry.sleeping, island: to, center: entry.center };
                self.entries.set(i, (key, updated));
            }
            i += 1;
        }
        proof {
            self.lemma_same_keys(before);
            assert forall|k: u64| #[trigger] old(self)@.dom().contains(k) implies self@[k] == (
                if old(self)@[k].sleeping && old(self)@[k].island == from {
                    SleepEntry { island: to, ..old(self)@[k] }
                } else {
                    old(self)@[k]
                }) by {
                let c = choose|c: int| 0 <= c < before.len() && before[c].0 == k;
                old(self).lemma_view_at(c);
                self.lemma_view_at(c);
            }
        }
    }

    proof fn lemma_same_keys(&self, before: Seq<(u64, SleepEntry<T, V>)>)
        requires
            forall|i: int, j: int| 0 <= i < j < before.len() ==> before[i].0 != before[j].0,
            self.entries@.len() == before.len(),
            forall|j: int| 0 <= j < before.len() ==> #[trigger] self.entries@[j].0 == before[j].0,
        ensures
            self.wf(),
            forall|k: u64| #[trigger] self@.dom().contains(k) <==> exists|c: int| 0 <= c < before.len() && before[c].0 == k,
    {
        assert forall|i: int, j: int| 0 <= i < j < self.entries@.len() implies self.entries@[i].0 != self.entries@[j].0 by {
            assert(self.entries@[i].0 == before[i].0);
            assert(self.entries@[j].0 == before[j].0);
        }
        assert forall|k: u64| #[trigger] self@.dom().contains(k) <==> exists|c: int| 0 <= c < before.len() && before[c].0 == k by {
            if self@.dom().contains(k) {
                let c = choose|c: int| 0 <= c < self.entries@.len() && self.entries@[c].0 == k;
                assert(before[c].0 == k);
            }
            if exists|c: int| 0 <= c < before.len() && before[c].0 == k {
                let c = choose|c: int| 0 <= c < before.len() && before[c].0 == k;
                assert(self.entries@[c].0 == k);
            }
        }
    }

    /// The keys of the table, each once.
    pub fn keys(&self) -> (r: Vec<u64>)
        requires
            self.wf(),
        ensures
            r@.no_duplicates(),
            forall|k: u64| #[trigger] self@.dom().contains(k) <==> r@.contains(k),
    {
        let mut r: Vec<u64> = Vec::new();
        let mut i: usize = 0;
        while i < self.entries.len()
            invariant
                self.wf(),
                i <= self.entries@.len(),
                r@.len() == i,
                forall|j: int| 0 <= j < i ==> #[trigger] r@[j] == self.entries@[j].0,
            decreases self.entries@.len() - i,
        {
            r.push(self.entries[i].0);
            i += 1;
        }
        proof {
            assert forall|k: u64| #[trigger] self@.dom().contains(k) <==> r@.contains(k) by {
                if self@.dom().contains(k) {
                    let c = choose|c: int| 0 <= c < self.entries@.len() && self.entries@[c].0 == k;
                    assert(r@[c] == k);
                }
                if r@.contains(k) {
                    let c = choose|c: int| 0 <= c < r@.len() && r@[c] == k;
                    assert(self.entries@[c].0 == k);
                }
            }
        }
        r
    }

    /// Number of sleeping bodies.
    pub fn sleeping_count(&self) -> (r: usize)
        ensures
            r == self.spec_sleeping_count(),
    {
        let mut count: usize = 0;
        let mut i: usize = 0;
        while i < self.entries.len()
            invariant
                i <= self.entries@.len(),
                count == sleeping_in(self.entries@.take(i as int)),
                count <= i,
            decreases self.entries@.len() - i,
        {
            proof {
                assert(self.entries@.take(i + 1).drop_last() =~= self.entries@.take(i as int));
            }
            if self.entries[i].1.sleeping {
                count += 1;
            }
            i += 1;
        }
        proof {
            assert(self.entries@.take(i as int) =~= self.entries@);
        }
        count
    }

    /// Whether a body is in a sleeping island; unknown bodies are awake.
    pub fn is_sleeping(&self, entity: Entity) -> (r: bool)
        requires
            self.wf(),
        ensures
            r == (self@.dom().contains(spec_entity_key(entity.slot(), entity.gen()))
                && self@[spec_entity_key(entity.slot(), entity.gen())].sleeping),
    {
        match self.get(entity_key(entity)) {
            Some(e) => e.sleeping,
            None => false,
        }
    }

    /// Wake a body's island: a sleeping body wakes every sleeping member of
    /// its island; an awake body only has its timer reset; an unknown body
    /// changes nothing.
    pub fn wake(&mut self, entity: Entity, rested: T)
        requires
            old(self).wf(),
        ensures
            final(self).wf(),
            final(self)@.dom() == old(self)@.dom(),
            ({
                let key = spec_entity_key(entity.slot(), entity.gen());
                if !old(self)@.dom().contains(key) {
                    final(self)@ == old(self)@
                } else if old(self)@[key].sleeping {
                    forall|k: u64| #[trigger] old(self)@.dom().contains(k) ==> final(self)@[k] == (
                        if old(self)@[k].sleeping && old(self)@[k].island == old(self)@[key].island {
                            woken(old(self)@[k], rested)
                        } else {
                            old(self)@[k]
                        })
                } else {
                    final(self)@ == old(self)@.insert(key, SleepEntry { timer: rested, ..old(self)@[key] })
                }
            }),
    {
        let key = entity_key(entity);
        match self.get(key) {
            Some(entry) => {
                let entry = *entry;
                if entry.sleeping {
                    let islands = [entry.island];
                    self.wake_islands(islands.as_slice(), rested);
                    proof {
                        assert forall|k: u64| #[trigger] old(self)@.dom().contains(k) implies
                            (islands@.contains(old(self)@[k].island) <==> old(self)@[k].island == entry.island) by {
                            if old(self)@[k].island == entry.island {
                                assert(islands@[0] == entry.island);
                            }
                        }
                    }
                } else {
                    let updated = SleepEntry { timer: rested, sleeping: entry.sleeping, island: entry.island, center: entry.center };
                    self.insert(key, updated);
                    proof {
                        assert(old(self)@.insert(key, updated).dom() =~= old(self)@.dom());
                    }
                }
            },
            None => {},
        }
    }
}

/// Whether `x` occurs in `s`.
fn slice_contains(s: &[u64], x: u64) -> (r: bool)
    ensures
        r == s@.contains(x),
{
    let mut i: usize = 0;
    while i < s.len()
        invariant
            i <= s@.len(),
            forall|j: int| 0 <= j < i ==> s@[j] != x,
        decreases s@.len() - i,
    {
        if s[i] == x {
            proof {
                assert(s@[i as int] == x);
            }
            return true;
        }
        i += 1;
    }
    false
}

} // verus!
