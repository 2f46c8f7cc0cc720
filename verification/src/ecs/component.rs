//! Per-kind component stores keyed by entity slot, and the registry of
//! stores keyed by component kind: the storage the world used before
//! archetypes, kept for tools that read components one kind at a time.

use vstd::prelude::*;

use crate::ecs::entity::Entity;

verus! {

/// The components of one kind, by entity slot.
pub struct ComponentStore<C> {
    ids: Vec<u32>,
    values: Vec<C>,
}

impl<C> View for ComponentStore<C> {
    type V = Map<u32, C>;

    closed spec fn view(&self) -> Map<u32, C> {
        Map::new(
            |k: u32| self.ids@.contains(k),
            |k: u32| self.values@[choose|i: int| 0 <= i < self.ids@.len() && self.ids@[i] == k],
        )
    }
}

impl<C> ComponentStore<C> {
    /// Each slot once, one value per slot.
    pub closed spec fn wf(&self) -> bool {
        &&& self.ids@.len() == self.values@.len()
        &&& self.ids@.no_duplicates()
    }

    /// The store's view maps slot `ids[i]` to `values[i]`.
    proof fn lemma_at(&self, i: int)
        requires
            self.wf(),
            0 <= i < self.ids@.len(),
        ensures
            self@.dom().contains(self.ids@[i]),
            self@[self.ids@[i]] == self.values@[i],
    {
        let k = self.ids@[i];
        let c = choose|c: int| 0 <= c < self.ids@.len() && self.ids@[c] == k;
        assert(c == i);
    }

    /// An empty store.
    pub fn new() -> (r: Self)
        ensures
            r.wf(),
            r@ == Map::<u32, C>::empty(),
    {
        let r = ComponentStore { ids: Vec::new(), values: Vec::new() };
        assert(r@ =~= Map::<u32, C>::empty());
        r
    }

    fn position(&self, slot: u32) -> (r: Option<usize>)
        requires
            self.wf(),
        ensures
            match r {
                Some(i) => i < self.ids@.len() && self.ids@[i as int] == slot,
                None => !self.ids@.contains(slot),
            },
    {
        let mut i: usize = 0;
        while i < self.ids.len()
            invariant
                i <= self.ids@.len(),
                forall|j: int| 0 <= j < i ==> self.ids@[j] != slot,
            decreases self.ids@.len() - i,
        {
            if self.ids[i] == slot {
                return Some(i);
            }
            i += 1;
        }
        None
    }

    /// Set the component of `entity`'s slot.
    pub fn insert(&mut self, entity: Entity, component: C)
        requires
            old(self).wf(),
        ensures
            final(self).wf(),
            final(self)@ == old(self)@.insert(entity.slot(), component),
    {
        let slot = entity.id();
        match self.position(slot) {
            Some(i) => {
                let ghost before = *self;
                self.values.set(i, component);
                proof {
                    assert forall|k: u32| #[trigger] self@.dom().contains(k) implies self@[k] == old(self)@.insert(slot, component)[k] by {
                        let c = choose|c: int| 0 <= c < self.ids@.len() && self.ids@[c] == k;
                        if k != slot {
                            before.lemma_at(c);
                        } else {
                            assert(c == i);
                        }
                    }
                    assert(self@ =~= old(self)@.insert(slot, component));
                }
            },
            None => {
                let ghost before = *self;
                self.ids.push(slot);
                self.values.push(component);
                proof {
                    broadcast use vstd::seq_lib::group_seq_properties;
                    assert forall|x: int, y: int| 0 <= x < y < self.ids@.len() implies self.ids@[x] != self.ids@[y] by {
                        if y == before.ids@.len() {
                            assert(before.ids@.contains(before.ids@[x]));
                        }
                    }
                    assert forall|k: u32| #[trigger] self@.dom().contains(k) implies self@[k] == old(self)@.insert(slot, component)[k] by {
                        let c = choose|c: int| 0 <= c < self.ids@.len() && self.ids@[c] == k;
                        if k != slot {
                            assert(c < before.ids@.len());
                            before.lemma_at(c);
                        } else {
                            assert(c == before.ids@.len());
                        }
                    }
                    assert(self@.dom() =~= old(self)@.insert(slot, component).dom());
                    assert(self@ =~= old(self)@.insert(slot, component));
                }
            },
        }
    }

    /// Take out the component of `entity`'s slot.
    pub fn remove(&mut self, entity: Entity) -> (r: Option<C>)
        requires
            old(self).wf(),
        ensures
            final(self).wf(),
            final(self)@ == old(self)@.remove(entity.slot()),
            match r {
                Some(c) => old(self)@.dom().contains(entity.slot()) && old(self)@[entity.slot()] == c,
                None => !old(self)@.dom().contains(entity.slot()),
            },
    {
        let slot = entity.id();
        match self.position(slot) {
            Some(i) => {
                let ghost before = *self;
                proof {
                    before.lemma_at(i as int);
                }
                self.ids.remove(i);
                let c = self.values.remove(i);
                proof {
                    assert forall|x: int, y: int| 0 <= x < y < self.ids@.len() implies self.ids@[x] != self.ids@[y] by {
                        let fx = if x < i { x } else { x + 1 };
                        let fy = if y < i { y } else { y + 1 };
                        assert(self.ids@[x] == before.ids@[fx]);
                        assert(self.ids@[y] == before.ids@[fy]);
                    }
                    assert forall|k: u32| #[trigger] self@.dom().contains(k) <==> old(self)@.remove(slot).dom().contains(k) by {
                        if self.ids@.contains(k) {
                            let c = choose|c: int| 0 <= c < self.ids@.len() && self.ids@[c] == k;
                            let f = if c < i { c } else { c + 1 };
                            assert(before.ids@[f] == k);
                            assert(f != i);
                        }
                        if old(self)@.remove(slot).dom().contains(k) {
                            let c = choose|c: int| 0 <= c < before.ids@.len() && before.ids@[c] == k;
                            assert(c != i);
                            if c < i {
                                assert(self.ids@[c] == k);
                            } else {
                                assert(self.ids@[c - 1] == k);
                            }
                        }
                    }
                    assert forall|k: u32| #[trigger] self@.dom().contains(k) implies self@[k] == old(self)@[k] by {
                        let c = choose|c: int| 0 <= c < self.ids@.len() && self.ids@[c] == k;
                        let f = if c < i { c } else { c + 1 };
                        assert(before.ids@[f] == k);
                        before.lemma_at(f);
                    }
                    assert(self@ =~= old(self)@.remove(slot));
                }
                Some(c)
            },
            None => {
                assert(old(self)@.remove(slot) =~= old(self)@);
                None
            },
        }
    }

    /// The component of `entity`'s slot.
    pub fn get(&self, entity: Entity) -> (r: Option<&C>)
        requires
            self.wf(),
        ensures
            match r {
                Some(c) => self@.dom().contains(entity.slot()) && self@[entity.slot()] == *c,
                None => !self@.dom().contains(entity.slot()),
            },
    {
        match self.position(entity.id()) {
            Some(i) => {
                proof {
                    self.lemma_at(i as int);
                }
                Some(&self.values[i])
            },
            None => None,
        }
    }

    /// Mutable access to the component of `entity`'s slot.
    pub fn get_mut(&mut self, entity: Entity) -> (r: Option<&mut C>)
        requires
            old(self).wf(),
        ensures
            final(self).wf(),
            (r is Some) == old(self)@.dom().contains(entity.slot()),
            r matches Some(c) ==> *c == old(self)@[entity.slot()]
                && final(self)@ == old(self)@.insert(entity.slot(), *final(c)),
            r is None ==> final(self)@ == old(self)@,
    {
        match self.position(entity.id()) {
            Some(i) => {
                proof {
                    self.lemma_at(i as int);
                    Self::lemma_value_set(*old(self), i as int);
                }
                Some(&mut self.values[i])
            },
            None => None,
        }
    }

    /// Overwriting the value at position `i` changes the view at that slot only.
    proof fn lemma_value_set(pre: Self, i: int)
        requires
            pre.wf(),
            0 <= i < pre.ids@.len(),
        ensures
            forall|post: Self, v: C| #![trigger post.values@, pre.values@.update(i, v)] post.ids == pre.ids && post.values@ == pre.values@.update(i, v)
                ==> post.wf() && post@ == pre@.insert(pre.ids@[i], v),
    {
        assert forall|post: Self, v: C| #![trigger post.values@, pre.values@.update(i, v)] post.ids == pre.ids && post.values@ == pre.values@.update(i, v)
            implies post.wf() && post@ == pre@.insert(pre.ids@[i], v) by {
            assert forall|k: u32| #[trigger] post@.dom().contains(k) implies post@[k] == pre@.insert(pre.ids@[i], v)[k] by {
                let c = choose|c: int| 0 <= c < post.ids@.len() && post.ids@[c] == k;
                if k != pre.ids@[i] {
                    pre.lemma_at(c);
                } else {
                    assert(c == i);
                }
            }
            assert(post@ =~= pre@.insert(pre.ids@[i], v));
        }
    }

    /// Whether `entity`'s slot has a component.
    pub fn contains(&self, entity: Entity) -> (r: bool)
        requires
            self.wf(),
        ensures
            r == self@.dom().contains(entity.slot()),
    {
        self.position(entity.id()).is_some()
    }

    /// The slots that have a component.
    pub fn entities(&self) -> (r: Vec<u32>)
        requires
            self.wf(),
        ensures
            r@.no_duplicates(),
            r@.to_set() == self@.dom(),
    {
        let r = self.ids.clone();
        assert(r@.to_set() =~= self@.dom());
        r
    }

    /// Number of components.
    pub fn len(&self) -> (r: usize)
        requires
            self.wf(),
        ensures
            r == self@.dom().len(),
    {
        proof {
            self.ids@.unique_seq_to_set();
            assert(self.ids@.to_set() =~= self@.dom());
        }
        self.ids.len()
    }
}

/// The stores of every component kind, by kind key.
pub struct ComponentRegistry<C> {
    kinds: Vec<u64>,
    stores: Vec<ComponentStore<C>>,
}

impl<C> ComponentRegistry<C> {
    /// Each kind once, each store well formed.
    pub closed spec fn wf(&self) -> bool {
        &&& self.kinds@.len() == self.stores@.len()
        &&& self.kinds@.no_duplicates()
        &&& forall|i: int| 0 <= i < self.stores@.len() ==> (#[trigger] self.stores@[i]).wf()
    }

    /// The store of each kind.
    pub closed spec fn spec_stores(&self) -> Map<u64, Map<u32, C>> {
        Map::new(
            |k: u64| self.kinds@.contains(k),
            |k: u64| self.stores@[choose|i: int| 0 <= i < self.kinds@.len() && self.kinds@[i] == k]@,
        )
    }

    proof fn lemma_at(&self, i: int)
        requires
            self.wf(),
            0 <= i < self.kinds@.len(),
        ensures
            self.spec_stores().dom().contains(self.kinds@[i]),
            self.spec_stores()[self.kinds@[i]] == self.stores@[i]@,
    {
        let k = self.kinds@[i];
        let c = choose|c: int| 0 <= c < self.kinds@.len() && self.kinds@[c] == k;
        assert(c == i);
    }

    /// No stores.
    pub fn new() -> (r: Self)
        ensures
            r.wf(),
            r.spec_stores() == Map::<u64, Map<u32, C>>::empty(),
    {
        let r = ComponentRegistry { kinds: Vec::new(), stores: Vec::new() };
        assert(r.spec_stores() =~= Map::<u64, Map<u32, C>>::empty());
        r
    }

    fn position(&self, kind: u64) -> (r: Option<usize>)
        requires
            self.wf(),
        ensures
            match r {
                Some(i) => i < self.kinds@.len() && self.kinds@[i as int] == kind,
                None => !self.kinds@.contains(kind),
            },
    {
        let mut i: usize = 0;
        while i < self.kinds.len()
            invariant
                i <= self.kinds@.len(),
                forall|j: int| 0 <= j < i ==> self.kinds@[j] != kind,
            decreases self.kinds@.len() - i,
        {
            if self.kinds[i] == kind {
                return Some(i);
            }
            i += 1;
        }
        None
    }

    /// The store of `kind`.
    pub fn get_store(&self, kind: u64) -> (r: Option<&ComponentStore<C>>)
        requires
            self.wf(),
        ensures
            match r {
                Some(s) => s.wf() && self.spec_stores().dom().contains(kind) && self.spec_stores()[kind] == s@,
                None => !self.spec_stores().dom().contains(kind),
            },
    {
        match self.position(kind) {
            Some(i) => {
                proof {
                    self.lemma_at(i as int);
                }
                Some(&self.stores[i])
            },
            None => None,
        }
    }

    /// Mutable access to the store of `kind`.
    pub fn get_store_mut(&mut self, kind: u64) -> (r: Option<&mut ComponentStore<C>>)
        requires
            old(self).wf(),
        ensures
            (r is Some) == old(self).spec_stores().dom().contains(kind),
            r matches Some(s) ==> s.wf() && old(self).spec_stores()[kind] == s@
                && final(self).spec_stores() == old(self).spec_stores().insert(kind, final(s)@)
                && (final(s).wf() ==> final(self).wf()),
            r is None ==> *final(self) == *old(self),
    {
        match self.position(kind) {
            Some(i) => {
                proof {
                    self.lemma_at(i as int);
                    Self::lemma_store_set(*old(self), i as int);
                }
                Some(&mut self.stores[i])
            },
            None => None,
        }
    }

    /// The store of `kind`, created empty if missing.
    pub fn get_or_create_store(&mut self, kind: u64) -> (r: &mut ComponentStore<C>)
        requires
            old(self).wf(),
        ensures
            r.wf(),
            r@ == (if old(self).spec_stores().dom().contains(kind) {
                old(self).spec_stores()[kind]
            } else {
                Map::<u32, C>::empty()
            }),
            final(self).spec_stores() == old(self).spec_stores().insert(kind, final(r)@),
            final(r).wf() ==> final(self).wf(),
    {
        let i = match self.position(kind) {
            Some(i) => {
                proof {
                    self.lemma_at(i as int);
                }
                i
            },
            None => {
                let ghost before = *self;
                self.kinds.push(kind);
                self.stores.push(ComponentStore::new());
                proof {
                    broadcast use vstd::seq_lib::group_seq_properties;
                    assert forall|x: int, y: int| 0 <= x < y < self.kinds@.len() implies self.kinds@[x] != self.kinds@[y] by {
                        if y == before.kinds@.len() {
                            assert(before.kinds@.contains(before.kinds@[x]));
                        }
                    }
                    assert forall|k: u64| #[trigger] self.spec_stores().dom().contains(k) implies self.spec_stores()[k] == before.spec_stores().insert(kind, Map::<u32, C>::empty())[k] by {
                        let c = choose|c: int| 0 <= c < self.kinds@.len() && self.kinds@[c] == k;
                        if k != kind {
                            assert(c < before.kinds@.len());
                            before.lemma_at(c);
                        } else {
                            assert(c == before.kinds@.len());
                        }
                    }
                    assert(self.spec_stores() =~= before.spec_stores().insert(kind, Map::<u32, C>::empty()));
                    self.lemma_at((self.kinds.len() - 1) as int);
                }
                self.kinds.len() - 1
            },
        };
        proof {
            Self::lemma_store_set(*self, i as int);
            assert(old(self).spec_stores().insert(kind, self.stores@[i as int]@) == self.spec_stores());
        }
        &mut self.stores[i]
    }

    /// Replacing the store at position `i` changes the view at that kind only.
    proof fn lemma_store_set(pre: Self, i: int)
        requires
            pre.wf(),
            0 <= i < pre.kinds@.len(),
        ensures
            forall|post: Self, s: ComponentStore<C>| #![trigger post.stores@, pre.stores@.update(i, s)] post.kinds == pre.kinds && post.stores@ == pre.stores@.update(i, s)
                ==> post.spec_stores() == pre.spec_stores().insert(pre.kinds@[i], s@) && (s.wf() ==> post.wf()),
    {
        assert forall|post: Self, s: ComponentStore<C>| #![trigger post.stores@, pre.stores@.update(i, s)] post.kinds == pre.kinds && post.stores@ == pre.stores@.update(i, s)
            implies post.spec_stores() == pre.spec_stores().insert(pre.kinds@[i], s@) && (s.wf() ==> post.wf()) by {
            assert forall|k: u64| #[trigger] post.spec_stores().dom().contains(k) implies post.spec_stores()[k] == pre.spec_stores().insert(pre.kinds@[i], s@)[k] by {
                let c = choose|c: int| 0 <= c < post.kinds@.len() && post.kinds@[c] == k;
                if k != pre.kinds@[i] {
                    pre.lemma_at(c);
                } else {
                    assert(c == i);
                }
            }
            assert(post.spec_stores() =~= pre.spec_stores().insert(pre.kinds@[i], s@));
        }
    }

    /// Remove `entity`'s components of every kind.
    pub fn remove_entity(&mut self, entity: Entity)
        requires
            old(self).wf(),
        ensures
            final(self).wf(),
            final(self).spec_stores().dom() == old(self).spec_stores().dom(),
            forall|k: u64| #[trigger] old(self).spec_stores().dom().contains(k)
                ==> final(self).spec_stores()[k] == old(self).spec_stores()[k].remove(entity.slot()),
    {
        let mut i: usize = 0;
        while i < self.stores.len()
            invariant
                self.wf(),
                self.kinds == old(self).kinds,
                self.stores@.len() == old(self).stores@.len(),
                i <= self.stores@.len(),
                forall|j: int| 0 <= j < i ==> (#[trigger] self.stores@[j])@ == old(self).stores@[j]@.remove(entity.slot()),
                forall|j: int| i <= j < self.stores@.len() ==> #[trigger] self.stores@[j] == old(self).stores@[j],
            decreases self.stores@.len() - i,
        {
            let ghost before = self.stores@;
            let mut store = self.stores.remove(i);
            store.remove(entity);
            self.stores.insert(i, store);
            proof {
                assert forall|j: int| 0 <= j < self.stores@.len() implies (#[trigger] self.stores@[j]).wf() by {
                    if j != i {
                        assert(self.stores@[j] == before[j]);
                    }
                }
                assert forall|j: int| 0 <= j < i + 1 implies (#[trigger] self.stores@[j])@ == old(self).stores@[j]@.remove(entity.slot()) by {
                    if j < i {
                        assert(self.stores@[j] == before[j]);
                    }
                }
                assert forall|j: int| i + 1 <= j < self.stores@.len() implies #[trigger] self.stores@[j] == old(self).stores@[j] by {
                    assert(self.stores@[j] == before[j]);
                }
            }
            i += 1;
        }
        proof {
            assert(self.spec_stores().dom() =~= old(self).spec_stores().dom());
            assert forall|k: u64| #[trigger] old(self).spec_stores().dom().contains(k)
                implies self.spec_stores()[k] == old(self).spec_stores()[k].remove(entity.slot()) by {
                let c = choose|c: int| 0 <= c < self.kinds@.len() && self.kinds@[c] == k;
                old(self).lemma_at(c);
                self.lemma_at(c);
            }
        }
    }
}

} // verus!
