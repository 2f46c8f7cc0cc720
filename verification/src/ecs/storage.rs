//! Entity/component storage and the archetype registry.

use vstd::prelude::*;

use super::archetype::{
    keys_with, keys_without, lemma_sorted_index_of, strictly_sorted, swap_removed, Archetype,
    ArchetypeId, EMPTY_ARCHETYPE,
};
use super::entity::{lemma_distinct_bounded_len, Entities, Entity, EntityLocation, EntityMeta};

verus! {

broadcast use {Entity::lemma_eq_by_parts, Entity::lemma_from_parts};

/// Entity/component storage and archetype registry. `ArchetypeId` indexes
/// `archetypes`; 0 is the empty archetype. Component kinds are identified by
/// `u64` keys and their values have type `C`.
pub struct Archetypes<C> {
    pub archetypes: Vec<Archetype<C>>,
    pub entities: Entities,
}

/// Two key sequences are equal element by element.
fn keys_equal(a: &Vec<u64>, b: &Vec<u64>) -> (r: bool)
    ensures
        r == (a@ == b@),
{
    if a.len() != b.len() {
        return false;
    }
    let mut i: usize = 0;
    while i < a.len()
        invariant
            i <= a@.len(),
            a@.len() == b@.len(),
            forall|k: int| 0 <= k < i ==> a@[k] == b@[k],
        decreases a@.len() - i,
    {
        if a[i] != b[i] {
            return false;
        }
        i += 1;
    }
    assert(a@ =~= b@);
    true
}

/// First cached target for `key`, if any.
fn find_edge(edges: &Vec<(u64, ArchetypeId)>, key: u64) -> (r: Option<ArchetypeId>)
    ensures
        r matches Some(t) ==> exists|i: int| 0 <= i < edges@.len() && #[trigger] edges@[i] == (key, t)
            && forall|j: int| 0 <= j < i ==> edges@[j].0 != key,
        r is None ==> forall|i: int| 0 <= i < edges@.len() ==> (#[trigger] edges@[i]).0 != key,
{
    let mut i: usize = 0;
    while i < edges.len()
        invariant
            i <= edges@.len(),
            forall|j: int| 0 <= j < i ==> (#[trigger] edges@[j]).0 != key,
        decreases edges@.len() - i,
    {
        let (k, t) = edges[i];
        if k == key {
            assert(edges@[i as int] == (key, t));
            return Some(t);
        }
        i += 1;
    }
    None
}

impl<C> Archetypes<C> {
    /// Archetype `a`.
    pub open spec fn arch(&self, a: int) -> Archetype<C> {
        self.archetypes@[a]
    }

    /// Number of archetypes.
    pub open spec fn arch_count(&self) -> nat {
        self.archetypes@.len()
    }

    /// Slot metadata.
    pub open spec fn metas(&self) -> Seq<EntityMeta> {
        self.entities.metas()
    }

    /// The generation stored for `slot`, for slots handed out so far.
    pub open spec fn slot_generation(&self, slot: int) -> Option<u32> {
        if 0 <= slot < self.metas().len() {
            Some(self.metas()[slot].generation)
        } else {
            None
        }
    }

    /// Entities that can still be allocated: free slots plus unused indices.
    pub open spec fn spawn_room(&self) -> int {
        self.entities.free_slots().len() + u32::MAX - self.metas().len()
    }

    /// Components of the row at `loc`.
    pub open spec fn components_at(&self, loc: EntityLocation) -> Map<u64, C> {
        self.arch(loc.archetype_id as int).row_components(loc.row as int)
    }

    /// Abstract contents: every live entity with its components by key.
    pub open spec fn view(&self) -> Map<Entity, Map<u64, C>> {
        Map::new(
            |e: Entity| self.entities.alive(e),
            |e: Entity| self.components_at(self.entities.location_of(e).unwrap()),
        )
    }

    /// Shape of the registry: ids, sortedness, the empty archetype, distinct
    /// key sets, and correct cached transitions.
    pub open spec fn wf_archetypes(&self) -> bool {
        &&& 1 <= self.arch_count() <= u32::MAX
        &&& forall|a: int| 0 <= a < self.arch_count() ==> (#[trigger] self.arch(a)).wf()
        &&& forall|a: int| 0 <= a < self.arch_count() ==> (#[trigger] self.arch(a)).id == a
        &&& forall|a: int| 0 <= a < self.arch_count() ==> (#[trigger] self.arch(a)).rows() <= u32::MAX
        &&& self.arch(0).types().len() == 0
        &&& forall|a: int, b: int|
            0 <= a < self.arch_count() && 0 <= b < self.arch_count() && a != b ==> (#[trigger] self.arch(a)).types()
                != (#[trigger] self.arch(b)).types()
        &&& forall|a: int, i: int|
            #![trigger self.arch(a).add_edges@[i]]
            0 <= a < self.arch_count() && 0 <= i < self.arch(a).add_edges@.len() ==> {
                let (k, t) = self.arch(a).add_edges@[i];
                &&& t < self.arch_count()
                &&& !self.arch(a).types().contains(k)
                &&& self.arch(t as int).types().to_set() == self.arch(a).types().to_set().insert(k)
            }
        &&& forall|a: int, i: int|
            #![trigger self.arch(a).remove_edges@[i]]
            0 <= a < self.arch_count() && 0 <= i < self.arch(a).remove_edges@.len() ==> {
                let (k, t) = self.arch(a).remove_edges@[i];
                &&& t < self.arch_count()
                &&& self.arch(a).types().contains(k)
                &&& self.arch(t as int).types().to_set() == self.arch(a).types().to_set().remove(k)
            }
    }

    /// Rows and slot metadata agree in both directions, and every slot that is
    /// not free is placed.
    pub open spec fn wf_locations(&self) -> bool {
        &&& forall|a: int, r: int|
            #![trigger self.arch(a).entities@[r]]
            0 <= a < self.arch_count() && 0 <= r < self.arch(a).rows() ==> self.entities.location_of(
                self.arch(a).entities@[r],
            ) == Some(EntityLocation { archetype_id: a as u32, row: r as u32 })
        &&& forall|i: int|
            0 <= i < self.metas().len() ==> match (#[trigger] self.metas()[i]).location {
                Some(loc) => {
                    &&& loc.archetype_id < self.arch_count()
                    &&& loc.row < self.arch(loc.archetype_id as int).rows()
                    &&& self.arch(loc.archetype_id as int).entities@[loc.row as int].slot() == i
                },
                None => self.entities.free_slots().contains(i as u32),
            }
    }

    /// Full invariant.
    pub open spec fn wf(&self) -> bool {
        &&& self.entities.wf()
        &&& self.wf_archetypes()
        &&& self.wf_locations()
    }

    /// Registry with only the empty archetype and no entities.
    pub fn new() -> (r: Self)
        ensures
            r.wf(),
            r.view() == Map::<Entity, Map<u64, C>>::empty(),
            r.arch_count() == 1,
            r.spawn_room() == u32::MAX,
    {
        let empty = Archetype::new(EMPTY_ARCHETYPE, Vec::new());
        let mut archetypes = Vec::new();
        archetypes.push(empty);
        let r = Archetypes { archetypes, entities: Entities::new() };
        assert(r.view() =~= Map::<Entity, Map<u64, C>>::empty());
        r
    }

    /// Find or create the archetype for the sorted key set `types`.
    pub fn find_or_create(&mut self, types: Vec<u64>) -> (id: ArchetypeId)
        requires
            old(self).wf(),
            strictly_sorted(types@),
            old(self).arch_count() < u32::MAX,
        ensures
            final(self).wf(),
            id < final(self).arch_count(),
            final(self).arch(id as int).types() == types@,
            final(self).entities == old(self).entities,
            final(self).view() == old(self).view(),
            old(self).arch_count() <= final(self).arch_count() <= old(self).arch_count() + 1,
            forall|a: int| 0 <= a < old(self).arch_count() ==> #[trigger] final(self).arch(a) == old(self).arch(a),
            final(self).arch_count() == old(self).arch_count() + 1 ==> final(self).arch(id as int).rows() == 0 && id == old(self).arch_count(),
    {
        let n = self.archetypes.len();
        let mut a: usize = 0;
        while a < n
            invariant
                a <= n,
                n == self.arch_count(),
                n < u32::MAX,
                self.wf(),
                *self == *old(self),
                forall|b: int| 0 <= b < a ==> (#[trigger] self.arch(b)).types() != types@,
            decreases n - a,
        {
            if keys_equal(&self.archetypes[a].component_types, &types) {
                return a as u32;
            }
            a += 1;
        }
        let id = n as u32;
        let arch = Archetype::new(id, types);
        let ghost prev = *self;
        self.archetypes.push(arch);
        proof {
            assert forall|b: int| 0 <= b < n implies #[trigger] self.arch(b) == prev.arch(b) by {}
            self.lemma_view_same_rows(prev);
        }
        id
    }

    /// Growing the registry with an empty archetype changes no row.
    proof fn lemma_view_same_rows(&self, prev: Self)
        requires
            prev.wf(),
            self.entities == prev.entities,
            self.arch_count() == prev.arch_count() + 1,
            forall|a: int| 0 <= a < prev.arch_count() ==> #[trigger] self.arch(a) == prev.arch(a),
            self.arch(prev.arch_count() as int).wf(),
            self.arch(prev.arch_count() as int).rows() == 0,
            self.arch(prev.arch_count() as int).id == prev.arch_count(),
            self.arch(prev.arch_count() as int).add_edges@.len() == 0,
            self.arch(prev.arch_count() as int).remove_edges@.len() == 0,
            forall|b: int| 0 <= b < prev.arch_count() ==> (#[trigger] prev.arch(b)).types() != self.arch(prev.arch_count() as int).types(),
            self.arch_count() <= u32::MAX,
        ensures
            self.wf(),
            self.view() == prev.view(),
    {
        let n = prev.arch_count() as int;
        assert forall|a: int, b: int|
            0 <= a < self.arch_count() && 0 <= b < self.arch_count() && a != b implies (#[trigger] self.arch(a)).types()
                != (#[trigger] self.arch(b)).types() by {
            if a < n && b < n {
                assert(prev.arch(a).types() != prev.arch(b).types());
            }
        }
        assert forall|a: int, i: int|
            #![trigger self.arch(a).add_edges@[i]]
            0 <= a < self.arch_count() && 0 <= i < self.arch(a).add_edges@.len() implies {
                let (k, t) = self.arch(a).add_edges@[i];
                &&& t < self.arch_count()
                &&& !self.arch(a).types().contains(k)
                &&& self.arch(t as int).types().to_set() == self.arch(a).types().to_set().insert(k)
            } by {
            assert(a < n);
            assert(prev.arch(a).add_edges@.len() > i);
        }
        assert forall|a: int, i: int|
            #![trigger self.arch(a).remove_edges@[i]]
            0 <= a < self.arch_count() && 0 <= i < self.arch(a).remove_edges@.len() implies {
                let (k, t) = self.arch(a).remove_edges@[i];
                &&& t < self.arch_count()
                &&& self.arch(a).types().contains(k)
                &&& self.arch(t as int).types().to_set() == self.arch(a).types().to_set().remove(k)
            } by {
            assert(a < n);
            assert(prev.arch(a).remove_edges@.len() > i);
        }
        assert forall|a: int, r: int|
            #![trigger self.arch(a).entities@[r]]
            0 <= a < self.arch_count() && 0 <= r < self.arch(a).rows() implies self.entities.location_of(
                self.arch(a).entities@[r],
            ) == Some(EntityLocation { archetype_id: a as u32, row: r as u32 }) by {
            assert(prev.arch(a).rows() > r);
        }
        assert forall|i: int|
            0 <= i < self.metas().len() implies match (#[trigger] self.metas()[i]).location {
                Some(loc) => {
                    &&& loc.archetype_id < self.arch_count()
                    &&& loc.row < self.arch(loc.archetype_id as int).rows()
                    &&& self.arch(loc.archetype_id as int).entities@[loc.row as int].slot() == i
                },
                None => self.entities.free_slots().contains(i as u32),
            } by {
            assert(prev.metas()[i] == self.metas()[i]);
        }
        assert(self.view() =~= prev.view()) by {
            assert forall|e: Entity| #[trigger] self.view().contains_key(e) implies self.view()[e] == prev.view()[e] by {
                let loc = self.entities.location_of(e).unwrap();
                assert(prev.metas()[e.slot() as int] == self.metas()[e.slot() as int]);
                assert(self.arch(loc.archetype_id as int) == prev.arch(loc.archetype_id as int));
            }
        }
    }

    /// The rows of one archetype and the free slots are distinct slots, so
    /// together they fit in the slot table.
    pub proof fn lemma_rows_bound(&self, a: int)
        requires
            self.wf(),
            0 <= a < self.arch_count(),
        ensures
            self.arch(a).rows() + self.entities.free_slots().len() <= self.metas().len(),
    {
        let rows = self.arch(a).entities@.map_values(|e: Entity| e.slot());
        let free = self.entities.free_slots();
        let all = rows + free;
        assert forall|i: int| 0 <= i < all.len() implies (#[trigger] all[i]) < self.metas().len() by {
            if i < rows.len() {
                assert(self.entities.location_of(self.arch(a).entities@[i]) is Some);
            }
        }
        assert(all.no_duplicates()) by {
            assert forall|i: int, j: int| 0 <= i < all.len() && 0 <= j < all.len() && i != j implies all[i] != all[j] by {
                if i < rows.len() && j < rows.len() {
                    let ei = self.arch(a).entities@[i];
                    let ej = self.arch(a).entities@[j];
                    assert(self.entities.location_of(ei) == Some(EntityLocation { archetype_id: a as u32, row: i as u32 }));
                    assert(self.entities.location_of(ej) == Some(EntityLocation { archetype_id: a as u32, row: j as u32 }));
                } else if i < rows.len() {
                    let ei = self.arch(a).entities@[i];
                    assert(self.entities.location_of(ei) is Some);
                    assert(free[j - rows.len()] < self.metas().len());
                } else if j < rows.len() {
                    let ej = self.arch(a).entities@[j];
                    assert(self.entities.location_of(ej) is Some);
                    assert(free[i - rows.len()] < self.metas().len());
                } else {
                    assert(free[i - rows.len()] != free[j - rows.len()]);
                }
            }
        }
        lemma_distinct_bounded_len(all, self.metas().len());
    }

    /// Take archetype `a` out of the registry, leaving an empty placeholder.
    fn take_arch(&mut self, a: usize) -> (arch: Archetype<C>)
        requires
            a < old(self).arch_count(),
        ensures
            arch == old(self).arch(a as int),
            final(self).entities == old(self).entities,
            final(self).arch_count() == old(self).arch_count(),
            forall|b: int| 0 <= b < old(self).arch_count() && b != a ==> #[trigger] final(self).arch(b) == old(self).arch(b),
    {
        let mut arch = Archetype::new(0, Vec::new());
        self.archetypes.set_and_swap(a, &mut arch);
        arch
    }

    /// Put `arch` back at index `a`.
    fn put_arch(&mut self, a: usize, arch: Archetype<C>)
        requires
            a < old(self).arch_count(),
        ensures
            final(self).arch(a as int) == arch,
            final(self).entities == old(self).entities,
            final(self).arch_count() == old(self).arch_count(),
            forall|b: int| 0 <= b < old(self).arch_count() && b != a ==> #[trigger] final(self).arch(b) == old(self).arch(b),
    {
        self.archetypes.set(a, arch);
    }

    /// Spawn an entity with no components into the empty archetype.
    pub fn spawn(&mut self) -> (entity: Entity)
        requires
            old(self).wf(),
            old(self).entities.free_slots().len() > 0 || old(self).metas().len() < u32::MAX,
        ensures
            final(self).wf(),
            !old(self).view().contains_key(entity),
            final(self).view() == old(self).view().insert(entity, Map::empty()),
            final(self).arch_count() == old(self).arch_count(),
            final(self).spawn_room() == old(self).spawn_room() - 1,
            final(self).slot_generation(entity.slot() as int) == Some(entity.gen()),
            old(self).slot_generation(entity.slot() as int) is Some ==> old(self).slot_generation(entity.slot() as int) == Some(entity.gen()),
            forall|s: int| s != entity.slot() ==> #[trigger] final(self).slot_generation(s) == old(self).slot_generation(s),
    {
        proof {
            self.lemma_rows_bound(0);
        }
        let ghost pre = *self;
        let entity = self.entities.allocate();
        assert(self.archetypes@ == pre.archetypes@);
        let row = self.archetypes[0].entities.len() as u32;
        let ghost s1 = *self;
        let mut arch = self.take_arch(0);
        arch.entities.push(entity);
        let ghost s2 = *self;
        self.put_arch(0, arch);
        assert forall|b: int| 0 <= b < self.arch_count() && b != 0 implies #[trigger] self.arch(b) == pre.arch(b) by {
            assert(self.arch(b) == s2.arch(b));
            assert(s2.arch(b) == s1.arch(b));
        }
        let ghost mid = self.archetypes@;
        let ghost s3 = *self;
        self.entities.set_location(entity, EntityLocation { archetype_id: EMPTY_ARCHETYPE, row });
        assert(self.archetypes@ == mid);
        proof {
            let s = entity.slot();
            assert(!pre.entities.alive(entity));
            assert forall|b: int| 0 <= b < self.arch_count() && b != 0 implies #[trigger] self.arch(b) == pre.arch(b) by {
                assert(self.arch(b) == s3.arch(b));
            }
            assert(self.arch(0).types() == pre.arch(0).types());
            // Registry shape is unchanged apart from one more row in the empty archetype.
            assert forall|a: int| 0 <= a < self.arch_count() implies (#[trigger] self.arch(a)).wf() by {
                if a != 0 {
                    assert(self.arch(a) == pre.arch(a));
                } else {
                    assert(pre.arch(0).wf());
                }
            }
            assert forall|a: int| 0 <= a < self.arch_count() implies (#[trigger] self.arch(a)).id == a by {
                if a != 0 { assert(self.arch(a) == pre.arch(a)); } else { assert(pre.arch(0).id == 0); }
            }
            assert forall|a: int, b: int|
                0 <= a < self.arch_count() && 0 <= b < self.arch_count() && a != b implies (#[trigger] self.arch(a)).types()
                    != (#[trigger] self.arch(b)).types() by {
                assert(self.arch(a).types() == pre.arch(a).types());
                assert(self.arch(b).types() == pre.arch(b).types());
                assert(pre.arch(a).types() != pre.arch(b).types());
            }
            assert forall|a: int, i: int|
                #![trigger self.arch(a).add_edges@[i]]
                0 <= a < self.arch_count() && 0 <= i < self.arch(a).add_edges@.len() implies {
                    let (k, t) = self.arch(a).add_edges@[i];
                    &&& t < self.arch_count()
                    &&& !self.arch(a).types().contains(k)
                    &&& self.arch(t as int).types().to_set() == self.arch(a).types().to_set().insert(k)
                } by {
                assert(self.arch(a).add_edges == pre.arch(a).add_edges);
                assert(pre.arch(a).add_edges@[i] == self.arch(a).add_edges@[i]);
                let t = self.arch(a).add_edges@[i].1 as int;
                assert(self.arch(t).types() == pre.arch(t).types());
                assert(self.arch(a).types() == pre.arch(a).types());
            }
            assert forall|a: int, i: int|
                #![trigger self.arch(a).remove_edges@[i]]
                0 <= a < self.arch_count() && 0 <= i < self.arch(a).remove_edges@.len() implies {
                    let (k, t) = self.arch(a).remove_edges@[i];
                    &&& t < self.arch_count()
                    &&& self.arch(a).types().contains(k)
                    &&& self.arch(t as int).types().to_set() == self.arch(a).types().to_set().remove(k)
                } by {
                assert(self.arch(a).remove_edges == pre.arch(a).remove_edges);
                assert(pre.arch(a).remove_edges@[i] == self.arch(a).remove_edges@[i]);
                let t = self.arch(a).remove_edges@[i].1 as int;
                assert(self.arch(t).types() == pre.arch(t).types());
                assert(self.arch(a).types() == pre.arch(a).types());
            }
            // Locations.
            assert forall|a: int, r: int|
                #![trigger self.arch(a).entities@[r]]
                0 <= a < self.arch_count() && 0 <= r < self.arch(a).rows() implies self.entities.location_of(
                    self.arch(a).entities@[r],
                ) == Some(EntityLocation { archetype_id: a as u32, row: r as u32 }) by {
                if a == 0 && r == row {
                } else {
                    let e = self.arch(a).entities@[r];
                    assert(e == pre.arch(a).entities@[r]);
                    assert(pre.entities.location_of(e) == Some(EntityLocation { archetype_id: a as u32, row: r as u32 }));
                    assert(e.slot() != s);
                }
            }
            assert forall|i: int|
                0 <= i < self.metas().len() implies match (#[trigger] self.metas()[i]).location {
                    Some(loc) => {
                        &&& loc.archetype_id < self.arch_count()
                        &&& loc.row < self.arch(loc.archetype_id as int).rows()
                        &&& self.arch(loc.archetype_id as int).entities@[loc.row as int].slot() == i
                    },
                    None => self.entities.free_slots().contains(i as u32),
                } by {
                if i != s {
                    assert(self.metas()[i] == pre.metas()[i]);
                    match pre.metas()[i].location {
                        Some(loc) => {
                            assert(pre.arch(loc.archetype_id as int).entities@[loc.row as int] == self.arch(loc.archetype_id as int).entities@[loc.row as int]);
                        },
                        None => {
                            let k = choose|k: int| 0 <= k < pre.entities.free_slots().len() && pre.entities.free_slots()[k] == i as u32;
                            if pre.entities.free_slots().len() > 0 {
                                assert(k != pre.entities.free_slots().len() - 1);
                                assert(self.entities.free_slots()[k] == i as u32);
                            } else {
                                assert(self.entities.free_slots()[k] == i as u32);
                            }
                        },
                    }
                }
            }
            assert(self.view() =~= pre.view().insert(entity, Map::empty())) by {
                assert forall|e: Entity| #[trigger] self.view().contains_key(e) == pre.view().insert(entity, Map::empty()).contains_key(e) by {
                    if e.slot() != s {
                        if e.slot() < pre.metas().len() {
                            assert(self.metas()[e.slot() as int] == pre.metas()[e.slot() as int]);
                        }
                    }
                }
                assert forall|e: Entity| #[trigger] self.view().contains_key(e) implies self.view()[e] == pre.view().insert(entity, Map::empty())[e] by {
                    if e == entity {
                        assert(self.view()[e] =~= Map::empty());
                    } else {
                        assert(e.slot() != s);
                        assert(self.metas()[e.slot() as int] == pre.metas()[e.slot() as int]);
                        let loc = pre.entities.location_of(e).unwrap();
                        if loc.archetype_id == 0 {
                            assert(self.arch(0).types() == pre.arch(0).types());
                            assert(self.arch(0).row_components(loc.row as int) =~= pre.arch(0).row_components(loc.row as int));
                        } else {
                            assert(self.arch(loc.archetype_id as int) == pre.arch(loc.archetype_id as int));
                        }
                    }
                }
            }
        }
        entity
    }

    /// Changing only rows and column contents keeps the registry's shape.
    pub proof fn lemma_shape_kept(&self, pre: Self)
        requires
            pre.wf_archetypes(),
            self.arch_count() == pre.arch_count(),
            forall|a: int| 0 <= a < pre.arch_count() ==> {
                &&& (#[trigger] self.arch(a)).types() == pre.arch(a).types()
                &&& self.arch(a).id == pre.arch(a).id
                &&& self.arch(a).add_edges == pre.arch(a).add_edges
                &&& self.arch(a).remove_edges == pre.arch(a).remove_edges
                &&& self.arch(a).wf()
                &&& self.arch(a).rows() <= u32::MAX
            },
        ensures
            self.wf_archetypes(),
    {
        assert forall|a: int, b: int|
            0 <= a < self.arch_count() && 0 <= b < self.arch_count() && a != b implies (#[trigger] self.arch(a)).types()
                != (#[trigger] self.arch(b)).types() by {
            assert(pre.arch(a).types() != pre.arch(b).types());
        }
        assert forall|a: int, i: int|
            #![trigger self.arch(a).add_edges@[i]]
            0 <= a < self.arch_count() && 0 <= i < self.arch(a).add_edges@.len() implies {
                let (k, t) = self.arch(a).add_edges@[i];
                &&& t < self.arch_count()
                &&& !self.arch(a).types().contains(k)
                &&& self.arch(t as int).types().to_set() == self.arch(a).types().to_set().insert(k)
            } by {
            assert(pre.arch(a).add_edges@[i] == self.arch(a).add_edges@[i]);
            let t = self.arch(a).add_edges@[i].1 as int;
            assert(self.arch(t).types() == pre.arch(t).types());
        }
        assert forall|a: int, i: int|
            #![trigger self.arch(a).remove_edges@[i]]
            0 <= a < self.arch_count() && 0 <= i < self.arch(a).remove_edges@.len() implies {
                let (k, t) = self.arch(a).remove_edges@[i];
                &&& t < self.arch_count()
                &&& self.arch(a).types().contains(k)
                &&& self.arch(t as int).types().to_set() == self.arch(a).types().to_set().remove(k)
            } by {
            assert(pre.arch(a).remove_edges@[i] == self.arch(a).remove_edges@[i]);
            let t = self.arch(a).remove_edges@[i].1 as int;
            assert(self.arch(t).types() == pre.arch(t).types());
        }
        assert(self.arch(0).types() == pre.arch(0).types());
    }

    /// Despawn a live entity, swap-removing its row; the entity that moved
    /// into the freed row gets its new location.
    pub fn despawn(&mut self, entity: Entity)
        requires
            old(self).wf(),
            old(self).view().contains_key(entity),
        ensures
            final(self).wf(),
            final(self).view() == old(self).view().remove(entity),
            final(self).arch_count() == old(self).arch_count(),
            final(self).spawn_room() == old(self).spawn_room() + 1,
            final(self).slot_generation(entity.slot() as int) == Some(vstd::wrapping::u32_specs::wrapping_add(entity.gen(), 1)),
            forall|s: int| s != entity.slot() ==> #[trigger] final(self).slot_generation(s) == old(self).slot_generation(s),
    {
        let ghost pre = *self;
        let loc = self.entities.get(entity).unwrap();
        let a = loc.archetype_id as usize;
        let r = loc.row as usize;
        proof {
            assert(pre.metas()[entity.slot() as int].location == Some(loc));
        }
        let mut arch = self.take_arch(a);
        let ghost s1 = *self;
        let displaced = arch.swap_remove_row(r);
        self.put_arch(a, arch);
        let ghost s2 = *self;
        assert forall|b: int| 0 <= b < self.arch_count() && b != a implies #[trigger] s2.arch(b) == pre.arch(b) by {
            assert(s2.arch(b) == s1.arch(b));
        }
        let ghost last = pre.arch(a as int).rows() - 1;
        if let Some(d) = displaced {
            proof {
                assert(pre.arch(a as int).entities@[last] == d);
                assert(pre.entities.location_of(d) == Some(EntityLocation { archetype_id: a as u32, row: last as u32 }));
                assert(pre.metas()[d.slot() as int].location is Some);
            }
            self.entities.set_location(d, EntityLocation { archetype_id: loc.archetype_id, row: loc.row });
        }
        let ghost s3 = *self;
        proof {
            assert(self.archetypes@ == s2.archetypes@);
            if displaced is Some {
                let d = displaced.unwrap();
                assert(d.slot() != entity.slot());
            }
        }
        self.entities.free(entity);
        proof {
            assert(self.archetypes@ == s2.archetypes@);
            let sl = entity.slot();
            let newa = self.arch(a as int);
            let olda = pre.arch(a as int);
            assert forall|b: int| 0 <= b < self.arch_count() && b != a implies #[trigger] self.arch(b) == pre.arch(b) by {
                assert(self.arch(b) == s2.arch(b));
            }
            self.lemma_shape_kept(pre);
            // Rows point at their entities' slots.
            assert forall|b: int, q: int|
                #![trigger self.arch(b).entities@[q]]
                0 <= b < self.arch_count() && 0 <= q < self.arch(b).rows() implies self.entities.location_of(
                    self.arch(b).entities@[q],
                ) == Some(EntityLocation { archetype_id: b as u32, row: q as u32 }) by {
                let e = self.arch(b).entities@[q];
                if b == a && q == r {
                    assert(e == olda.entities@[last]);
                    assert(displaced == Some(e));
                } else {
                    assert(e == pre.arch(b).entities@[q]);
                    assert(pre.entities.location_of(e) == Some(EntityLocation { archetype_id: b as u32, row: q as u32 }));
                    if displaced is Some {
                        assert(pre.entities.location_of(displaced.unwrap()) == Some(EntityLocation { archetype_id: a as u32, row: last as u32 }));
                        assert(e.slot() != displaced.unwrap().slot());
                    }
                    assert(e.slot() != sl);
                    assert(self.metas()[e.slot() as int] == pre.metas()[e.slot() as int]);
                }
            }
            assert forall|i: int|
                0 <= i < self.metas().len() implies match (#[trigger] self.metas()[i]).location {
                    Some(l) => {
                        &&& l.archetype_id < self.arch_count()
                        &&& l.row < self.arch(l.archetype_id as int).rows()
                        &&& self.arch(l.archetype_id as int).entities@[l.row as int].slot() == i
                    },
                    None => self.entities.free_slots().contains(i as u32),
                } by {
                if i == sl {
                    assert(self.entities.free_slots().last() == sl);
                } else if displaced is Some && i == displaced.unwrap().slot() {
                    assert(self.arch(a as int).entities@[r as int] == olda.entities@[last]);
                } else {
                    assert(self.metas()[i] == pre.metas()[i]);
                    match pre.metas()[i].location {
                        Some(l) => {
                            if l.archetype_id == a {
                                assert(l.row != r);
                                if l.row == last {
                                    assert(olda.entities@[last].slot() == i);
                                    assert(displaced == Some(olda.entities@[last]));
                                }
                                assert(self.arch(a as int).entities@[l.row as int] == olda.entities@[l.row as int]);
                            } else {
                                assert(self.arch(l.archetype_id as int) == pre.arch(l.archetype_id as int));
                            }
                        },
                        None => {
                            let k = choose|k: int| 0 <= k < pre.entities.free_slots().len() && pre.entities.free_slots()[k] == i as u32;
                            assert(self.entities.free_slots()[k] == i as u32);
                        },
                    }
                }
            }
            // The view loses exactly `entity`.
            assert(self.view() =~= pre.view().remove(entity)) by {
                assert forall|e: Entity| #[trigger] self.view().contains_key(e) == pre.view().remove(entity).contains_key(e) by {
                    if e.slot() != sl && !(displaced is Some && e.slot() == displaced.unwrap().slot()) {
                        if e.slot() < pre.metas().len() {
                            assert(self.metas()[e.slot() as int] == pre.metas()[e.slot() as int]);
                        }
                    }
                }
                assert forall|e: Entity| #[trigger] self.view().contains_key(e) implies self.view()[e] == pre.view()[e] by {
                    let l = pre.entities.location_of(e).unwrap();
                    assert(e.slot() != sl);
                    if displaced is Some && e == displaced.unwrap() {
                        assert(l == EntityLocation { archetype_id: a as u32, row: last as u32 });
                        Archetype::lemma_swap_removed_components(olda, newa, r as int, r as int);
                    } else {
                        if displaced is Some {
                            assert(e.slot() != displaced.unwrap().slot());
                        }
                        assert(self.metas()[e.slot() as int] == pre.metas()[e.slot() as int]);
                        if l.archetype_id == a {
                            assert(l.row != r);
                            if l.row == last {
                                assert(olda.entities@[last] == e);
                            }
                            Archetype::lemma_swap_removed_components(olda, newa, r as int, l.row as int);
                        } else {
                            assert(self.arch(l.archetype_id as int) == pre.arch(l.archetype_id as int));
                        }
                    }
                }
            }
        }
    }

    /// Archetype reached from `a` by adding (`adding`) or removing `key`,
    /// through the cached edge or by finding/creating it and caching the edge.
    fn transition_target(&mut self, a: usize, key: u64, adding: bool) -> (t: ArchetypeId)
        requires
            old(self).wf(),
            a < old(self).arch_count(),
            old(self).arch_count() < u32::MAX,
            adding == !old(self).arch(a as int).types().contains(key),
        ensures
            final(self).wf(),
            final(self).view() == old(self).view(),
            final(self).entities == old(self).entities,
            old(self).arch_count() <= final(self).arch_count() <= old(self).arch_count() + 1,
            t < final(self).arch_count(),
            t != a,
            adding ==> final(self).arch(t as int).types().to_set() == old(self).arch(a as int).types().to_set().insert(key),
            !adding ==> final(self).arch(t as int).types().to_set() == old(self).arch(a as int).types().to_set().remove(key),
            forall|b: int| 0 <= b < old(self).arch_count() ==> {
                &&& (#[trigger] final(self).arch(b)).types() == old(self).arch(b).types()
                &&& final(self).arch(b).columns == old(self).arch(b).columns
                &&& final(self).arch(b).entities == old(self).arch(b).entities
                &&& final(self).arch(b).id == old(self).arch(b).id
            },
            forall|b: int| old(self).arch_count() <= b < final(self).arch_count() ==> (#[trigger] final(self).arch(b)).rows() == 0,
    {
        let cached = if adding {
            find_edge(&self.archetypes[a].add_edges, key)
        } else {
            find_edge(&self.archetypes[a].remove_edges, key)
        };
        if let Some(t) = cached {
            proof {
                let edges = if adding { self.arch(a as int).add_edges@ } else { self.arch(a as int).remove_edges@ };
                let i = choose|i: int| 0 <= i < edges.len() && #[trigger] edges[i] == (key, t);
                if adding {
                    assert(self.arch(a as int).add_edges@[i] == (key, t));
                    assert(self.arch(t as int).types().to_set().contains(key));
                } else {
                    assert(self.arch(a as int).remove_edges@[i] == (key, t));
                    assert(self.arch(a as int).types().to_set().contains(key));
                    assert(!self.arch(t as int).types().to_set().contains(key));
                }
            }
            return t;
        }
        let ghost pre = *self;
        let types = if adding {
            keys_with(&self.archetypes[a].component_types, key)
        } else {
            keys_without(&self.archetypes[a].component_types, key)
        };
        let t = self.find_or_create(types);
        let ghost s1 = *self;
        let mut arch = self.take_arch(a);
        let ghost taken = arch;
        if adding {
            arch.add_edges.push((key, t));
        } else {
            arch.remove_edges.push((key, t));
        }
        assert(arch.columns == taken.columns && arch.entities == taken.entities
            && arch.component_types == taken.component_types && arch.id == taken.id);
        self.put_arch(a, arch);
        proof {
            assert(s1.arch(a as int) == pre.arch(a as int));
            if adding {
                assert(s1.arch(t as int).types().to_set().contains(key));
            } else {
                assert(pre.arch(a as int).types().to_set().contains(key));
                assert(!s1.arch(t as int).types().to_set().contains(key));
            }
            assert forall|b: int| 0 <= b < self.arch_count() && b != a implies #[trigger] self.arch(b) == s1.arch(b) by {}
            assert forall|b: int| 0 <= b < self.arch_count() implies {
                &&& (#[trigger] self.arch(b)).types() == s1.arch(b).types()
                &&& self.arch(b).columns == s1.arch(b).columns
                &&& self.arch(b).entities == s1.arch(b).entities
                &&& self.arch(b).id == s1.arch(b).id
                &&& self.arch(b).wf()
            } by {
                assert(s1.arch(b).wf());
                if b == a {
                    assert(self.arch(b).columns == s1.arch(b).columns);
                    assert(self.arch(b).component_types == s1.arch(b).component_types);
                    assert(self.arch(b).entities == s1.arch(b).entities);
                    assert(self.arch(b).types() == s1.arch(b).types());
                    assert(forall|j: int| #[trigger] self.arch(b).col(j) == s1.arch(b).col(j));
                    assert(self.arch(b).rows() == s1.arch(b).rows());
                    assert(self.arch(b).wf());
                } else {
                    assert(self.arch(b) == s1.arch(b));
                }
            }
            assert forall|b: int, c: int|
                0 <= b < self.arch_count() && 0 <= c < self.arch_count() && b != c implies (#[trigger] self.arch(b)).types()
                    != (#[trigger] self.arch(c)).types() by {
                assert(s1.arch(b).types() != s1.arch(c).types());
            }
            assert forall|b: int, i: int|
                #![trigger self.arch(b).add_edges@[i]]
                0 <= b < self.arch_count() && 0 <= i < self.arch(b).add_edges@.len() implies {
                    let (k, u) = self.arch(b).add_edges@[i];
                    &&& u < self.arch_count()
                    &&& !self.arch(b).types().contains(k)
                    &&& self.arch(u as int).types().to_set() == self.arch(b).types().to_set().insert(k)
                } by {
                if b == a && adding && i == s1.arch(b).add_edges@.len() {
                } else {
                    assert(self.arch(b).add_edges@[i] == s1.arch(b).add_edges@[i]);
                    let u = self.arch(b).add_edges@[i].1 as int;
                    assert(self.arch(u).types() == s1.arch(u).types());
                }
            }
            assert forall|b: int, i: int|
                #![trigger self.arch(b).remove_edges@[i]]
                0 <= b < self.arch_count() && 0 <= i < self.arch(b).remove_edges@.len() implies {
                    let (k, u) = self.arch(b).remove_edges@[i];
                    &&& u < self.arch_count()
                    &&& self.arch(b).types().contains(k)
                    &&& self.arch(u as int).types().to_set() == self.arch(b).types().to_set().remove(k)
                } by {
                if b == a && !adding && i == s1.arch(b).remove_edges@.len() {
                } else {
                    assert(self.arch(b).remove_edges@[i] == s1.arch(b).remove_edges@[i]);
                    let u = self.arch(b).remove_edges@[i].1 as int;
                    assert(self.arch(u).types() == s1.arch(u).types());
                }
            }
            assert(self.arch(0).types() == s1.arch(0).types());
            assert forall|b: int, q: int|
                #![trigger self.arch(b).entities@[q]]
                0 <= b < self.arch_count() && 0 <= q < self.arch(b).rows() implies self.entities.location_of(
                    self.arch(b).entities@[q],
                ) == Some(EntityLocation { archetype_id: b as u32, row: q as u32 }) by {
                assert(self.arch(b).entities@[q] == s1.arch(b).entities@[q]);
            }
            assert forall|i: int|
                0 <= i < self.metas().len() implies match (#[trigger] self.metas()[i]).location {
                    Some(l) => {
                        &&& l.archetype_id < self.arch_count()
                        &&& l.row < self.arch(l.archetype_id as int).rows()
                        &&& self.arch(l.archetype_id as int).entities@[l.row as int].slot() == i
                    },
                    None => self.entities.free_slots().contains(i as u32),
                } by {
                assert(self.metas()[i] == s1.metas()[i]);
            }
            assert(self.view() =~= s1.view()) by {
                assert forall|e: Entity| #[trigger] self.view().contains_key(e) implies self.view()[e] == s1.view()[e] by {
                    let l = self.entities.location_of(e).unwrap();
                    assert(self.arch(l.archetype_id as int).types() == s1.arch(l.archetype_id as int).types());
                    assert(self.arch(l.archetype_id as int).columns == s1.arch(l.archetype_id as int).columns);
                }
            }
        }
        t
    }

    /// An archetype that does not hold some live entity has room for it.
    pub proof fn lemma_rows_bound_other(&self, b: int, e: Entity)
        requires
            self.wf(),
            0 <= b < self.arch_count(),
            self.entities.alive(e),
            self.entities.location_of(e).unwrap().archetype_id != b,
        ensures
            self.arch(b).rows() + 1 <= self.metas().len(),
    {
        let rows = self.arch(b).entities@.map_values(|x: Entity| x.slot());
        let all = rows.push(e.slot());
        assert forall|i: int| 0 <= i < all.len() implies (#[trigger] all[i]) < self.metas().len() by {
            if i < rows.len() {
                assert(self.entities.location_of(self.arch(b).entities@[i]) is Some);
            }
        }
        assert(all.no_duplicates()) by {
            assert forall|i: int, j: int| 0 <= i < all.len() && 0 <= j < all.len() && i != j implies all[i] != all[j] by {
                if i < rows.len() && j < rows.len() {
                    let ei = self.arch(b).entities@[i];
                    let ej = self.arch(b).entities@[j];
                    assert(self.entities.location_of(ei) == Some(EntityLocation { archetype_id: b as u32, row: i as u32 }));
                    assert(self.entities.location_of(ej) == Some(EntityLocation { archetype_id: b as u32, row: j as u32 }));
                } else if i < rows.len() {
                    let ei = self.arch(b).entities@[i];
                    assert(self.entities.location_of(ei) == Some(EntityLocation { archetype_id: b as u32, row: i as u32 }));
                } else if j < rows.len() {
                    let ej = self.arch(b).entities@[j];
                    assert(self.entities.location_of(ej) == Some(EntityLocation { archetype_id: b as u32, row: j as u32 }));
                }
            }
        }
        lemma_distinct_bounded_len(all, self.metas().len());
    }

    /// Insert or overwrite the component `key` of a live entity. A new key
    /// moves the entity's row to the archetype with the larger key set.
    #[verifier::rlimit(80)]
    #[verifier::spinoff_prover]
    pub fn insert(&mut self, entity: Entity, key: u64, value: C)
        requires
            old(self).wf(),
            old(self).view().contains_key(entity),
            old(self).arch_count() < u32::MAX,
        ensures
            final(self).wf(),
            final(self).view() == old(self).view().insert(entity, old(self).view()[entity].insert(key, value)),
            old(self).arch_count() <= final(self).arch_count() <= old(self).arch_count() + 1,
            final(self).spawn_room() == old(self).spawn_room(),
    {
        let ghost pre = *self;
        let loc = self.entities.get(entity).unwrap();
        let a = loc.archetype_id as usize;
        let row = loc.row as usize;
        proof {
            assert(pre.metas()[entity.slot() as int].location == Some(loc));
            assert(self.arch(a as int).wf());
        }
        match self.archetypes[a].column_index(key) {
            Some(j) => {
                let mut arch = self.take_arch(a);
                let ghost olda = arch;
                let ghost s1 = *self;
                arch.set_value(j, row, value);
                self.put_arch(a, arch);
                proof {
                    let newa = self.arch(a as int);
                    assert forall|b: int| 0 <= b < self.arch_count() && b != a implies #[trigger] self.arch(b) == pre.arch(b) by {
                        assert(self.arch(b) == s1.arch(b));
                    }
                    assert(newa.wf()) by {
                        assert forall|i: int| 0 <= i < newa.types().len() implies (#[trigger] newa.col(i)).len() == newa.rows() by {
                            assert(olda.col(i).len() == olda.rows());
                        }
                    }
                    self.lemma_shape_kept(pre);
                    self.lemma_same_locations(pre);
                    assert(self.view() =~= pre.view().insert(entity, pre.view()[entity].insert(key, value))) by {
                        assert forall|e: Entity| #[trigger] self.view().contains_key(e) implies self.view()[e]
                            == pre.view().insert(entity, pre.view()[entity].insert(key, value))[e] by {
                            let l = pre.entities.location_of(e).unwrap();
                            if e == entity {
                                assert(self.view()[e] =~= pre.view()[entity].insert(key, value)) by {
                                    assert forall|k: u64| #[trigger] self.view()[e].contains_key(k) implies self.view()[e][k]
                                        == pre.view()[entity].insert(key, value)[k] by {
                                        let jj = newa.types().index_of(k);
                                        assert(0 <= jj < newa.types().len());
                                        if k != key {
                                            assert(jj != j);
                                        }
                                    }
                                }
                            } else if l.archetype_id == a {
                                assert(l.row != row) by {
                                    assert(pre.metas()[e.slot() as int].location == Some(l));
                                }
                                assert forall|i: int| 0 <= i < olda.types().len() implies (#[trigger] newa.col(i))[l.row as int]
                                    == olda.col(i)[l.row as int] by {
                                }
                                Archetype::lemma_same_row_components(olda, newa, l.row as int, l.row as int);
                            } else {
                                assert(self.arch(l.archetype_id as int) == pre.arch(l.archetype_id as int));
                            }
                        }
                    }
                }
            },
            None => {
                let t = self.transition_target(a, key, true) as usize;
                let ghost s0 = *self;
                proof {
                    assert(s0.entities.location_of(entity) == Some(loc));
                    s0.lemma_rows_bound_other(t as int, entity);
                    assert(s0.arch(a as int).types() == pre.arch(a as int).types());
                    assert(s0.arch(a as int).wf());
                    assert(s0.arch(t as int).wf());
                }
                let mut src = self.take_arch(a);
                let mut dst = self.take_arch(t);
                let ghost s1 = *self;
                let ghost src0 = src;
                let ghost dst0 = dst;
                src.move_components_to(row, &mut dst);
                let ghost dst1 = dst;
                let ghost src1 = src;
                proof {
                    assert forall|k: u64| src0.types().contains(k) implies dst0.types().contains(k) by {
                        assert(src0.types().to_set().contains(k));
                        assert(dst0.types().to_set().contains(k));
                    }
                    assert(dst0.types().to_set().contains(key));
                }
                let kj = dst.column_index(key).unwrap();
                dst.push_value(kj, value);
                let ghost dst15 = dst;
                let new_row = dst.entities.len() as u32;
                dst.entities.push(entity);
                let last = src.entities.len() - 1;
                let _ = src.entities.swap_remove(row);
                let displaced = if row < last { Some(src.entities[row]) } else { None };
                let ghost src2 = src;
                let ghost dst2 = dst;
                assert(src2.columns == src1.columns);
                self.put_arch(a, src);
                let ghost s15 = *self;
                self.put_arch(t, dst);
                let ghost s2 = *self;
                assert(s2.arch(a as int) == s15.arch(a as int));
                self.entities.set_location(entity, EntityLocation { archetype_id: t as u32, row: new_row });
                if let Some(d) = displaced {
                    proof {
                        assert(src0.entities@[last as int] == d);
                        assert(pre.entities.location_of(d) == Some(EntityLocation { archetype_id: a as u32, row: last as u32 }));
                        assert(d.slot() != entity.slot());
                        assert(s2.metas()[d.slot() as int] == pre.metas()[d.slot() as int]);
                    }
                    self.entities.set_location(d, EntityLocation { archetype_id: a as u32, row: row as u32 });
                }
                proof {
                    assert(self.archetypes@ == s2.archetypes@);
                    assert(self.arch(a as int) == src2);
                    assert(self.arch(t as int) == dst2);
                    assert forall|b: int| 0 <= b < self.arch_count() && b != a && b != t implies #[trigger] self.arch(b) == s0.arch(b) by {
                        assert(self.arch(b) == s2.arch(b));
                    }
                    assert(dst0.types().len() == src0.types().len() + 1) by {
                        src0.types().unique_seq_to_set();
                        dst0.types().unique_seq_to_set();
                        assert(src0.types().no_duplicates());
                        assert(dst0.types().no_duplicates());
                    }
                    // Column shapes.
                    assert forall|i: int| 0 <= i < src0.types().len() implies #[trigger] src2.col(i) == swap_removed(src0.col(i), row as int) by {
                        assert(dst0.types().contains(src0.types()[i]));
                        assert(src2.col(i) == src1.col(i));
                    }
                    assert(src2.wf()) by {
                        assert forall|i: int| 0 <= i < src2.types().len() implies (#[trigger] src2.col(i)).len() == src2.rows() by {
                            assert(src0.col(i).len() == src0.rows());
                        }
                    }
                    assert forall|d: int| 0 <= d < dst0.types().len() implies #[trigger] dst2.col(d) == if dst0.types()[d] == key {
                        dst0.col(d).push(value)
                    } else {
                        dst0.col(d).push(src0.col(src0.types().index_of(dst0.types()[d]))[row as int])
                    } by {
                        let k = dst0.types()[d];
                        assert(dst2.col(d) == dst15.col(d));
                        lemma_sorted_index_of(dst0.types(), d);
                        if k == key {
                            assert(d == kj);
                            assert(!src0.types().contains(key));
                        } else {
                            assert(d != kj);
                            assert(dst0.types().to_set().contains(k));
                            assert(src0.types().to_set().contains(k));
                        }
                    }
                    assert(dst2.wf()) by {
                        assert forall|i: int| 0 <= i < dst2.types().len() implies (#[trigger] dst2.col(i)).len() == dst2.rows() by {
                            assert(dst0.col(i).len() == dst0.rows());
                        }
                    }
                    self.lemma_shape_kept(s0);
                    // Locations.
                    let ghost dslot: Option<u32> = match displaced { Some(d) => Some(d.slot()), None => None };
                    assert forall|b: int, q: int|
                        #![trigger self.arch(b).entities@[q]]
                        0 <= b < self.arch_count() && 0 <= q < self.arch(b).rows() implies self.entities.location_of(
                            self.arch(b).entities@[q],
                        ) == Some(EntityLocation { archetype_id: b as u32, row: q as u32 }) by {
                        let e = self.arch(b).entities@[q];
                        if b == t && q == new_row {
                        } else if b == a && q == row {
                            assert(e == src0.entities@[last as int]);
                        } else {
                            assert(e == s0.arch(b).entities@[q]);
                            assert(s0.entities.location_of(e) == Some(EntityLocation { archetype_id: b as u32, row: q as u32 }));
                            assert(e.slot() != entity.slot());
                            if displaced is Some {
                                assert(s0.entities.location_of(displaced.unwrap()) == Some(EntityLocation { archetype_id: a as u32, row: last as u32 }));
                                assert(e.slot() != displaced.unwrap().slot());
                            }
                            assert(self.metas()[e.slot() as int] == pre.metas()[e.slot() as int]);
                        }
                    }
                    assert forall|i: int|
                        0 <= i < self.metas().len() implies match (#[trigger] self.metas()[i]).location {
                            Some(l) => {
                                &&& l.archetype_id < self.arch_count()
                                &&& l.row < self.arch(l.archetype_id as int).rows()
                                &&& self.arch(l.archetype_id as int).entities@[l.row as int].slot() == i
                            },
                            None => self.entities.free_slots().contains(i as u32),
                        } by {
                        if i == entity.slot() {
                        } else if displaced is Some && i == displaced.unwrap().slot() {
                        } else {
                            assert(self.metas()[i] == s0.metas()[i]);
                            match s0.metas()[i].location {
                                Some(l) => {
                                    if l.archetype_id == a {
                                        assert(l.row != row);
                                        if l.row == last {
                                            assert(src0.entities@[last as int].slot() == i);
                                        }
                                        assert(self.arch(a as int).entities@[l.row as int] == src0.entities@[l.row as int]);
                                    } else if l.archetype_id == t {
                                        assert(self.arch(t as int).entities@[l.row as int] == dst0.entities@[l.row as int]);
                                    } else {
                                        assert(self.arch(l.archetype_id as int) == s0.arch(l.archetype_id as int));
                                    }
                                },
                                None => {},
                            }
                        }
                    }
                    // View.
                    assert(self.view() =~= pre.view().insert(entity, pre.view()[entity].insert(key, value))) by {
                        assert forall|e: Entity| #[trigger] self.view().contains_key(e) == pre.view().insert(entity, pre.view()[entity].insert(key, value)).contains_key(e) by {
                            if e.slot() != entity.slot() && !(displaced is Some && e.slot() == displaced.unwrap().slot()) {
                                if e.slot() < pre.metas().len() {
                                    assert(self.metas()[e.slot() as int] == pre.metas()[e.slot() as int]);
                                }
                            }
                        }
                        assert forall|e: Entity| #[trigger] self.view().contains_key(e) implies self.view()[e]
                            == pre.view().insert(entity, pre.view()[entity].insert(key, value))[e] by {
                            if e == entity {
                                assert(self.view()[e] =~= pre.view()[entity].insert(key, value)) by {
                                    let nr = new_row as int;
                                    assert forall|k: u64| #[trigger] self.view()[e].contains_key(k) == pre.view()[entity].insert(key, value).contains_key(k) by {
                                        assert(dst0.types().to_set().contains(k) == src0.types().to_set().insert(key).contains(k));
                                    }
                                    assert forall|k: u64| #[trigger] self.view()[e].contains_key(k) implies self.view()[e][k]
                                        == pre.view()[entity].insert(key, value)[k] by {
                                        let d = dst0.types().index_of(k);
                                        assert(0 <= d < dst0.types().len() && dst0.types()[d] == k);
                                        assert(dst0.col(d).len() == dst0.rows());
                                        if k != key {
                                            assert(src0.types().to_set().contains(k));
                                        }
                                    }
                                }
                            } else {
                                let l = pre.entities.location_of(e).unwrap();
                                assert(e.slot() != entity.slot());
                                if displaced is Some && e == displaced.unwrap() {
                                    assert(l == EntityLocation { archetype_id: a as u32, row: last as u32 });
                                    Archetype::lemma_swap_removed_components(src0, src2, row as int, row as int);
                                } else {
                                    if displaced is Some {
                                        assert(e.slot() != displaced.unwrap().slot());
                                    }
                                    assert(self.metas()[e.slot() as int] == pre.metas()[e.slot() as int]);
                                    if l.archetype_id == a {
                                        assert(l.row != row);
                                        if l.row == last {
                                            assert(src0.entities@[last as int] == e);
                                        }
                                        Archetype::lemma_swap_removed_components(src0, src2, row as int, l.row as int);
                                    } else if l.archetype_id == t {
                                        assert forall|i: int| 0 <= i < dst0.types().len() implies (#[trigger] dst2.col(i))[l.row as int]
                                            == dst0.col(i)[l.row as int] by {
                                            assert(dst0.col(i).len() == dst0.rows());
                                        }
                                        Archetype::lemma_same_row_components(dst0, dst2, l.row as int, l.row as int);
                                    } else {
                                        assert(self.arch(l.archetype_id as int) == s0.arch(l.archetype_id as int));
                                    }
                                }
                            }
                        }
                    }
                }
            },
        }
    }

    /// Entity metadata unchanged and every row holding the same entities keeps
    /// the location invariant.
    proof fn lemma_same_locations(&self, pre: Self)
        requires
            pre.wf(),
            self.entities == pre.entities,
            self.arch_count() == pre.arch_count(),
            forall|b: int| 0 <= b < pre.arch_count() ==> (#[trigger] self.arch(b)).entities == pre.arch(b).entities,
        ensures
            self.wf_locations(),
    {
        assert forall|b: int, q: int|
            #![trigger self.arch(b).entities@[q]]
            0 <= b < self.arch_count() && 0 <= q < self.arch(b).rows() implies self.entities.location_of(
                self.arch(b).entities@[q],
            ) == Some(EntityLocation { archetype_id: b as u32, row: q as u32 }) by {
            assert(self.arch(b).entities@[q] == pre.arch(b).entities@[q]);
        }
        assert forall|i: int|
            0 <= i < self.metas().len() implies match (#[trigger] self.metas()[i]).location {
                Some(l) => {
                    &&& l.archetype_id < self.arch_count()
                    &&& l.row < self.arch(l.archetype_id as int).rows()
                    &&& self.arch(l.archetype_id as int).entities@[l.row as int].slot() == i
                },
                None => self.entities.free_slots().contains(i as u32),
            } by {
            assert(self.metas()[i] == pre.metas()[i]);
            match pre.metas()[i].location {
                Some(l) => {
                    assert(self.arch(l.archetype_id as int).entities == pre.arch(l.archetype_id as int).entities);
                },
                None => {},
            }
        }
    }

    /// Remove component `key` from a live entity, moving its row to the
    /// archetype without `key`; `None` (and no change) when the entity is not
    /// alive or lacks the component.
    #[verifier::rlimit(80)]
    #[verifier::spinoff_prover]
    pub fn remove(&mut self, entity: Entity, key: u64) -> (r: Option<C>)
        requires
            old(self).wf(),
            old(self).arch_count() < u32::MAX,
        ensures
            final(self).wf(),
            old(self).arch_count() <= final(self).arch_count() <= old(self).arch_count() + 1,
            final(self).spawn_room() == old(self).spawn_room(),
            match r {
                Some(v) => {
                    &&& old(self).view().contains_key(entity)
                    &&& old(self).view()[entity].contains_key(key)
                    &&& v == old(self).view()[entity][key]
                    &&& final(self).view() == old(self).view().insert(entity, old(self).view()[entity].remove(key))
                },
                None => {
                    &&& !(old(self).view().contains_key(entity) && old(self).view()[entity].contains_key(key))
                    &&& final(self).view() == old(self).view()
                },
            },
    {
        let ghost pre = *self;
        let loc = match self.entities.get(entity) {
            Some(l) => l,
            None => { return None; },
        };
        let a = loc.archetype_id as usize;
        let row = loc.row as usize;
        proof {
            assert(pre.metas()[entity.slot() as int].location == Some(loc));
            assert(self.arch(a as int).wf());
        }
        if !self.archetypes[a].has(key) {
            return None;
        }
        let t = self.transition_target(a, key, false) as usize;
        let ghost s0 = *self;
        proof {
            assert(s0.entities.location_of(entity) == Some(loc));
            s0.lemma_rows_bound_other(t as int, entity);
            assert(s0.arch(a as int).types() == pre.arch(a as int).types());
            assert(s0.arch(a as int).wf());
            assert(s0.arch(t as int).wf());
        }
        let mut src = self.take_arch(a);
        let mut dst = self.take_arch(t);
        let ghost src0 = src;
        let ghost dst0 = dst;
        src.move_components_to(row, &mut dst);
        let ghost dst1 = dst;
        let ghost src1 = src;
        proof {
            assert forall|k: u64| dst0.types().contains(k) implies src0.types().contains(k) && k != key by {
                assert(dst0.types().to_set().contains(k));
                assert(src0.types().to_set().contains(k));
            }
            assert(src0.types().to_set().contains(key));
        }
        let kj = src.column_index(key).unwrap();
        proof {
            assert(!dst0.types().contains(key));
            assert(src1.col(kj as int) == src0.col(kj as int));
            assert(src0.col(kj as int).len() == src0.rows());
        }
        let v = src.take_value(kj, row);
        let ghost src15 = src;
        let new_row = dst.entities.len() as u32;
        dst.entities.push(entity);
        let last = src.entities.len() - 1;
        let _ = src.entities.swap_remove(row);
        let displaced = if row < last { Some(src.entities[row]) } else { None };
        let ghost src2 = src;
        let ghost dst2 = dst;
        assert(src2.columns == src15.columns);
        assert(dst2.columns == dst1.columns);
        self.put_arch(a, src);
        let ghost s15 = *self;
        self.put_arch(t, dst);
        let ghost s2 = *self;
        assert(s2.arch(a as int) == s15.arch(a as int));
        self.entities.set_location(entity, EntityLocation { archetype_id: t as u32, row: new_row });
        if let Some(d) = displaced {
            proof {
                assert(src0.entities@[last as int] == d);
                assert(pre.entities.location_of(d) == Some(EntityLocation { archetype_id: a as u32, row: last as u32 }));
                assert(d.slot() != entity.slot());
                assert(s2.metas()[d.slot() as int] == pre.metas()[d.slot() as int]);
            }
            self.entities.set_location(d, EntityLocation { archetype_id: a as u32, row: row as u32 });
        }
        proof {
            assert(self.archetypes@ == s2.archetypes@);
            assert(self.arch(a as int) == src2);
            assert(self.arch(t as int) == dst2);
            assert forall|b: int| 0 <= b < self.arch_count() && b != a && b != t implies #[trigger] self.arch(b) == s0.arch(b) by {
                assert(self.arch(b) == s2.arch(b));
            }
            assert(src0.types().len() == dst0.types().len() + 1) by {
                src0.types().unique_seq_to_set();
                dst0.types().unique_seq_to_set();
            }
            assert forall|i: int| 0 <= i < src0.types().len() implies #[trigger] src2.col(i) == swap_removed(src0.col(i), row as int) by {
                assert(src2.col(i) == src15.col(i));
                if i != kj {
                    assert(src15.col(i) == src1.col(i));
                    assert(src0.types()[i] != key);
                    assert(src0.types().to_set().contains(src0.types()[i]));
                    assert(dst0.types().to_set().contains(src0.types()[i]));
                } else {
                    assert(src1.col(i) == src0.col(i));
                }
            }
            assert(src2.wf()) by {
                assert forall|i: int| 0 <= i < src2.types().len() implies (#[trigger] src2.col(i)).len() == src2.rows() by {
                    assert(src0.col(i).len() == src0.rows());
                }
            }
            assert forall|d: int| 0 <= d < dst0.types().len() implies #[trigger] dst2.col(d)
                == dst0.col(d).push(src0.col(src0.types().index_of(dst0.types()[d]))[row as int]) by {
                let k = dst0.types()[d];
                assert(dst2.col(d) == dst1.col(d));
                assert(dst0.types().to_set().contains(k));
                assert(src0.types().to_set().contains(k));
            }
            assert(dst2.wf()) by {
                assert forall|i: int| 0 <= i < dst2.types().len() implies (#[trigger] dst2.col(i)).len() == dst2.rows() by {
                    assert(dst0.col(i).len() == dst0.rows());
                }
            }
            self.lemma_shape_kept(s0);
            // Locations.
            let ghost dslot: Option<u32> = match displaced { Some(d) => Some(d.slot()), None => None };
            assert forall|b: int, q: int|
                #![trigger self.arch(b).entities@[q]]
                0 <= b < self.arch_count() && 0 <= q < self.arch(b).rows() implies self.entities.location_of(
                    self.arch(b).entities@[q],
                ) == Some(EntityLocation { archetype_id: b as u32, row: q as u32 }) by {
                let e = self.arch(b).entities@[q];
                if b == t && q == new_row {
                } else if b == a && q == row {
                    assert(e == src0.entities@[last as int]);
                } else {
                    assert(e == s0.arch(b).entities@[q]);
                    assert(s0.entities.location_of(e) == Some(EntityLocation { archetype_id: b as u32, row: q as u32 }));
                    assert(e.slot() != entity.slot());
                    if displaced is Some {
                        assert(s0.entities.location_of(displaced.unwrap()) == Some(EntityLocation { archetype_id: a as u32, row: last as u32 }));
                        assert(e.slot() != displaced.unwrap().slot());
                    }
                    assert(self.metas()[e.slot() as int] == pre.metas()[e.slot() as int]);
                }
            }
            assert forall|i: int|
                0 <= i < self.metas().len() implies match (#[trigger] self.metas()[i]).location {
                    Some(l) => {
                        &&& l.archetype_id < self.arch_count()
                        &&& l.row < self.arch(l.archetype_id as int).rows()
                        &&& self.arch(l.archetype_id as int).entities@[l.row as int].slot() == i
                    },
                    None => self.entities.free_slots().contains(i as u32),
                } by {
                if i == entity.slot() {
                } else if displaced is Some && i == displaced.unwrap().slot() {
                } else {
                    assert(self.metas()[i] == s0.metas()[i]);
                    match s0.metas()[i].location {
                        Some(l) => {
                            if l.archetype_id == a {
                                assert(l.row != row);
                                if l.row == last {
                                    assert(src0.entities@[last as int].slot() == i);
                                }
                                assert(self.arch(a as int).entities@[l.row as int] == src0.entities@[l.row as int]);
                            } else if l.archetype_id == t {
                                assert(self.arch(t as int).entities@[l.row as int] == dst0.entities@[l.row as int]);
                            } else {
                                assert(self.arch(l.archetype_id as int) == s0.arch(l.archetype_id as int));
                            }
                        },
                        None => {},
                    }
                }
            }
            // View.
            assert(self.view() =~= pre.view().insert(entity, pre.view()[entity].remove(key))) by {
                assert forall|e: Entity| #[trigger] self.view().contains_key(e) == pre.view().insert(entity, pre.view()[entity].remove(key)).contains_key(e) by {
                    if e.slot() != entity.slot() && !(displaced is Some && e.slot() == displaced.unwrap().slot()) {
                        if e.slot() < pre.metas().len() {
                            assert(self.metas()[e.slot() as int] == pre.metas()[e.slot() as int]);
                        }
                    }
                }
                assert forall|e: Entity| #[trigger] self.view().contains_key(e) implies self.view()[e]
                    == pre.view().insert(entity, pre.view()[entity].remove(key))[e] by {
                    if e == entity {
                        assert(self.view()[e] =~= pre.view()[entity].remove(key)) by {
                            assert forall|k: u64| #[trigger] self.view()[e].contains_key(k) == pre.view()[entity].remove(key).contains_key(k) by {
                                assert(dst0.types().to_set().contains(k) == src0.types().to_set().remove(key).contains(k));
                            }
                            assert forall|k: u64| #[trigger] self.view()[e].contains_key(k) implies self.view()[e][k]
                                == pre.view()[entity].remove(key)[k] by {
                                let d = dst0.types().index_of(k);
                                assert(0 <= d < dst0.types().len() && dst0.types()[d] == k);
                                assert(dst0.col(d).len() == dst0.rows());
                                assert(src0.types().to_set().contains(k));
                            }
                        }
                    } else {
                        let l = pre.entities.location_of(e).unwrap();
                        assert(e.slot() != entity.slot());
                        if displaced is Some && e == displaced.unwrap() {
                            assert(l == EntityLocation { archetype_id: a as u32, row: last as u32 });
                            Archetype::lemma_swap_removed_components(src0, src2, row as int, row as int);
                        } else {
                            if displaced is Some {
                                assert(e.slot() != displaced.unwrap().slot());
                            }
                            assert(self.metas()[e.slot() as int] == pre.metas()[e.slot() as int]);
                            if l.archetype_id == a {
                                assert(l.row != row);
                                if l.row == last {
                                    assert(src0.entities@[last as int] == e);
                                }
                                Archetype::lemma_swap_removed_components(src0, src2, row as int, l.row as int);
                            } else if l.archetype_id == t {
                                assert forall|i: int| 0 <= i < dst0.types().len() implies (#[trigger] dst2.col(i))[l.row as int]
                                    == dst0.col(i)[l.row as int] by {
                                    assert(dst0.col(i).len() == dst0.rows());
                                }
                                Archetype::lemma_same_row_components(dst0, dst2, l.row as int, l.row as int);
                            } else {
                                assert(self.arch(l.archetype_id as int) == s0.arch(l.archetype_id as int));
                            }
                        }
                    }
                }
            }
            assert(pre.view()[entity].contains_key(key));
            let kk = pre.arch(a as int).types().index_of(key);
            lemma_sorted_index_of(src0.types(), kj as int);
        }
        Some(v)
    }

    /// Component `key` of a live entity.
    pub fn get(&self, entity: Entity, key: u64) -> (r: Option<&C>)
        requires
            self.wf(),
        ensures
            match r {
                Some(v) => self.view().contains_key(entity) && self.view()[entity].contains_key(key)
                    && *v == self.view()[entity][key],
                None => !(self.view().contains_key(entity) && self.view()[entity].contains_key(key)),
            },
    {
        let loc = match self.entities.get(entity) {
            Some(l) => l,
            None => { return None; },
        };
        proof {
            assert(self.metas()[entity.slot() as int].location == Some(loc));
            assert(self.arch(loc.archetype_id as int).wf());
        }
        let arch = &self.archetypes[loc.archetype_id as usize];
        match arch.column_index(key) {
            Some(j) => {
                proof {
                    assert(arch.col(j as int).len() == arch.rows());
                }
                Some(&arch.columns[j][loc.row as usize])
            },
            None => None,
        }
    }

    /// The live entity's archetype has component `key`.
    pub fn has(&self, entity: Entity, key: u64) -> (r: bool)
        requires
            self.wf(),
        ensures
            r == (self.view().contains_key(entity) && self.view()[entity].contains_key(key)),
    {
        let loc = match self.entities.get(entity) {
            Some(l) => l,
            None => { return false; },
        };
        proof {
            assert(self.metas()[entity.slot() as int].location == Some(loc));
            assert(self.arch(loc.archetype_id as int).wf());
        }
        self.archetypes[loc.archetype_id as usize].has(key)
    }

    /// Archetype `a` has every key in `keys`.
    pub open spec fn has_all(&self, a: int, keys: Seq<u64>) -> bool {
        forall|i: int| 0 <= i < keys.len() ==> self.arch(a).types().contains(#[trigger] keys[i])
    }

    /// `ids` lists, in increasing order, exactly the archetypes having every key.
    pub open spec fn lists_archetypes_with(&self, ids: Seq<usize>, keys: Seq<u64>) -> bool {
        &&& forall|i: int, j: int| 0 <= i < j < ids.len() ==> ids[i] < ids[j]
        &&& forall|i: int| 0 <= i < ids.len() ==> (#[trigger] ids[i]) < self.arch_count() && self.has_all(ids[i] as int, keys)
        &&& forall|a: int| 0 <= a < self.arch_count() && #[trigger] self.has_all(a, keys) ==> ids.contains(a as usize)
    }

    /// Indices of the archetypes having every key in `keys`, in registry order.
    fn archetypes_matching(&self, keys: &Vec<u64>) -> (r: Vec<usize>)
        requires
            self.wf(),
        ensures
            self.lists_archetypes_with(r@, keys@),
    {
        let mut r: Vec<usize> = Vec::new();
        let n = self.archetypes.len();
        let mut a: usize = 0;
        while a < n
            invariant
                a <= n,
                n == self.arch_count(),
                self.wf(),
                forall|i: int, j: int| 0 <= i < j < r@.len() ==> r@[i] < r@[j],
                forall|i: int| 0 <= i < r@.len() ==> (#[trigger] r@[i]) < a && self.has_all(r@[i] as int, keys@),
                forall|b: int| 0 <= b < a && #[trigger] self.has_all(b, keys@) ==> r@.contains(b as usize),
            decreases n - a,
        {
            let arch = &self.archetypes[a];
            proof {
                assert(self.arch(a as int).wf());
            }
            let mut all = true;
            let mut i: usize = 0;
            while i < keys.len()
                invariant
                    i <= keys@.len(),
                    strictly_sorted(arch.types()),
                    all == forall|k: int| 0 <= k < i ==> arch.types().contains(#[trigger] keys@[k]),
                decreases keys@.len() - i,
            {
                if !arch.has(keys[i]) {
                    all = false;
                }
                i += 1;
            }
            let ghost before = r@;
            if all {
                r.push(a);
                proof {
                    assert forall|b: int| 0 <= b < a + 1 && #[trigger] self.has_all(b, keys@) implies r@.contains(b as usize) by {
                        if b < a {
                            let k = choose|k: int| 0 <= k < before.len() && before[k] == b as usize;
                            assert(r@[k] == b as usize);
                        } else {
                            assert(r@[before.len() as int] == a);
                        }
                    }
                }
            }
            a += 1;
        }
        r
    }

    /// Archetypes containing `key`, in registry order.
    pub fn archetypes_with(&self, key: u64) -> (r: Vec<usize>)
        requires
            self.wf(),
        ensures
            self.lists_archetypes_with(r@, seq![key]),
    {
        let mut keys = Vec::new();
        keys.push(key);
        proof { assert(keys@ =~= seq![key]); }
        self.archetypes_matching(&keys)
    }

    /// Archetypes containing `a` and `b`, in registry order.
    pub fn archetypes_with_two(&self, a: u64, b: u64) -> (r: Vec<usize>)
        requires
            self.wf(),
        ensures
            self.lists_archetypes_with(r@, seq![a, b]),
    {
        let mut keys = Vec::new();
        keys.push(a);
        keys.push(b);
        proof { assert(keys@ =~= seq![a, b]); }
        self.archetypes_matching(&keys)
    }

    /// Archetypes containing `a`, `b` and `c`, in registry order.
    pub fn archetypes_with_three(&self, a: u64, b: u64, c: u64) -> (r: Vec<usize>)
        requires
            self.wf(),
        ensures
            self.lists_archetypes_with(r@, seq![a, b, c]),
    {
        let mut keys = Vec::new();
        keys.push(a);
        keys.push(b);
        keys.push(c);
        proof { assert(keys@ =~= seq![a, b, c]); }
        self.archetypes_matching(&keys)
    }

    /// Mutable access to component `key` of a live entity.
    pub fn get_mut(&mut self, entity: Entity, key: u64) -> (r: Option<&mut C>)
        requires
            old(self).wf(),
        ensures
            (r is Some) == (old(self).view().contains_key(entity) && old(self).view()[entity].contains_key(key)),
            r matches Some(v) ==> *v == old(self).view()[entity][key],
            r matches Some(v) ==> final(self).view() == old(self).view().insert(entity, old(self).view()[entity].insert(key, *final(v))),
            r is None ==> final(self).view() == old(self).view(),
            final(self).wf(),
            final(self).spawn_room() == old(self).spawn_room(),
            final(self).arch_count() == old(self).arch_count(),
    {
        let loc = match self.entities.get(entity) {
            Some(l) => l,
            None => { return None; },
        };
        proof {
            assert(old(self).metas()[entity.slot() as int].location == Some(loc));
            assert(old(self).arch(loc.archetype_id as int).wf());
        }
        let j = match self.archetypes[loc.archetype_id as usize].column_index(key) {
            Some(j) => j,
            None => { return None; },
        };
        proof {
            assert(old(self).arch(loc.archetype_id as int).col(j as int).len() == old(self).arch(loc.archetype_id as int).rows());
        }
        proof {
            Self::lemma_value_update(*old(self), loc, j as int);
            assert(old(self).entities.location_of(entity) == Some(loc));
        }
        let arch = &mut self.archetypes[loc.archetype_id as usize];
        let v = arch.value_mut(j, loc.row as usize);
        Some(v)
    }

    /// How a state differs from `pre` when only the value of column `j` at
    /// `loc` changed.
    pub open spec fn value_updated(pre: Self, post: Self, loc: EntityLocation, j: int) -> bool {
        let (x, y) = (pre.arch(loc.archetype_id as int), post.arch(loc.archetype_id as int));
        &&& post.entities == pre.entities
        &&& post.arch_count() == pre.arch_count()
        &&& forall|b: int| 0 <= b < pre.arch_count() && b != loc.archetype_id ==> #[trigger] post.arch(b) == pre.arch(b)
        &&& y.id == x.id
        &&& y.component_types == x.component_types
        &&& y.entities == x.entities
        &&& y.add_edges == x.add_edges
        &&& y.remove_edges == x.remove_edges
        &&& y.columns@.len() == x.columns@.len()
        &&& forall|i: int| 0 <= i < x.columns@.len() && i != j ==> #[trigger] y.col(i) == x.col(i)
        &&& y.col(j) == x.col(j).update(loc.row as int, y.col(j)[loc.row as int])
    }

    /// Overwriting one stored value changes the view at exactly that entity and key.
    pub proof fn lemma_value_update(pre: Self, loc: EntityLocation, j: int)
        requires
            pre.wf(),
            loc.archetype_id < pre.arch_count(),
            loc.row < pre.arch(loc.archetype_id as int).rows(),
            0 <= j < pre.arch(loc.archetype_id as int).types().len(),
        ensures
            forall|post: Self, e: Entity|
                #![trigger post.view(), pre.entities.location_of(e)]
                Self::value_updated(pre, post, loc, j) && pre.entities.location_of(e) == Some(loc) ==> {
                    &&& post.wf()
                    &&& post.view() == pre.view().insert(
                        e,
                        pre.view()[e].insert(
                            pre.arch(loc.archetype_id as int).types()[j],
                            post.arch(loc.archetype_id as int).col(j)[loc.row as int],
                        ),
                    )
                },
    {
        assert forall|post: Self, e: Entity|
            #![trigger post.view(), pre.entities.location_of(e)]
            Self::value_updated(pre, post, loc, j) && pre.entities.location_of(e) == Some(loc) implies {
                &&& post.wf()
                &&& post.view() == pre.view().insert(
                    e,
                    pre.view()[e].insert(
                        pre.arch(loc.archetype_id as int).types()[j],
                        post.arch(loc.archetype_id as int).col(j)[loc.row as int],
                    ),
                )
            } by {
            Self::lemma_value_update_one(pre, post, loc, j, e);
        }
    }

    proof fn lemma_value_update_one(pre: Self, post: Self, loc: EntityLocation, j: int, e: Entity)
        requires
            pre.wf(),
            loc.archetype_id < pre.arch_count(),
            loc.row < pre.arch(loc.archetype_id as int).rows(),
            0 <= j < pre.arch(loc.archetype_id as int).types().len(),
            Self::value_updated(pre, post, loc, j),
            pre.entities.location_of(e) == Some(loc),
        ensures
            post.wf(),
            post.view() == pre.view().insert(
                e,
                pre.view()[e].insert(
                    pre.arch(loc.archetype_id as int).types()[j],
                    post.arch(loc.archetype_id as int).col(j)[loc.row as int],
                ),
            ),
    {
        let a = loc.archetype_id as int;
        let x = pre.arch(a);
        let y = post.arch(a);
        let val = y.col(j)[loc.row as int];
        assert(y.wf()) by {
            assert forall|i: int| 0 <= i < y.types().len() implies (#[trigger] y.col(i)).len() == y.rows() by {
                assert(x.col(i).len() == x.rows());
            }
        }
        assert forall|b: int| 0 <= b < post.arch_count() implies {
            &&& (#[trigger] post.arch(b)).types() == pre.arch(b).types()
            &&& post.arch(b).id == pre.arch(b).id
            &&& post.arch(b).add_edges == pre.arch(b).add_edges
            &&& post.arch(b).remove_edges == pre.arch(b).remove_edges
            &&& post.arch(b).wf()
            &&& post.arch(b).rows() <= u32::MAX
        } by {
            assert(pre.arch(b).wf());
        }
        post.lemma_shape_kept(pre);
        post.lemma_same_locations(pre);
        let key = x.types()[j];
        lemma_sorted_index_of(x.types(), j);
        assert(post.view() =~= pre.view().insert(e, pre.view()[e].insert(key, val))) by {
            assert forall|f: Entity| #[trigger] post.view().contains_key(f) implies post.view()[f]
                == pre.view().insert(e, pre.view()[e].insert(key, val))[f] by {
                let l = pre.entities.location_of(f).unwrap();
                if f == e {
                    assert(post.view()[f] =~= pre.view()[e].insert(key, val)) by {
                        assert forall|k: u64| #[trigger] post.view()[f].contains_key(k) implies post.view()[f][k]
                            == pre.view()[e].insert(key, val)[k] by {
                            let jj = y.types().index_of(k);
                            assert(0 <= jj < y.types().len());
                            if k != key {
                                assert(jj != j);
                            }
                        }
                    }
                } else if l.archetype_id == loc.archetype_id {
                    assert(l.row != loc.row) by {
                        assert(pre.metas()[f.slot() as int].location == Some(l));
                        assert(pre.metas()[e.slot() as int].location == Some(loc));
                    }
                    assert forall|i: int| 0 <= i < x.types().len() implies (#[trigger] y.col(i))[l.row as int]
                        == x.col(i)[l.row as int] by {}
                    Archetype::lemma_same_row_components(x, y, l.row as int, l.row as int);
                } else {
                    assert(post.arch(l.archetype_id as int) == pre.arch(l.archetype_id as int));
                }
            }
        }
    }

    /// The slots in use are exactly the live entities.
    pub proof fn lemma_live_count(&self)
        requires
            self.wf(),
        ensures
            self.view().dom().len() == self.metas().len() - self.entities.free_slots().len(),
            self.view().dom().finite(),
    {
        let n = self.metas().len() as int;
        let metas = self.metas();
        let free = self.entities.free_slots();
        let r = vstd::set_lib::set_int_range(0, n);
        vstd::set_lib::lemma_int_range(0, n);
        let fs = free.map_values(|x: u32| x as int);
        let f = fs.to_set();
        assert(fs.no_duplicates()) by {
            assert forall|i: int, j: int| 0 <= i < fs.len() && 0 <= j < fs.len() && i != j implies fs[i] != fs[j] by {
                assert(free[i] != free[j]);
            }
        }
        fs.unique_seq_to_set();
        let live = Set::new(|i: int| 0 <= i < n && metas[i].location is Some);
        assert(live.subset_of(r));
        vstd::set_lib::lemma_len_subset(live, r);
        assert(f.subset_of(r)) by {
            assert forall|x: int| f.contains(x) implies r.contains(x) by {
                let k = choose|k: int| 0 <= k < fs.len() && fs[k] == x;
                assert(free[k] < n);
            }
        }
        vstd::set_lib::lemma_len_subset(f, r);
        assert(live.disjoint(f)) by {
            assert forall|x: int| live.contains(x) implies !f.contains(x) by {
                if f.contains(x) {
                    let k = choose|k: int| 0 <= k < fs.len() && fs[k] == x;
                    assert(metas[free[k] as int].location is None);
                }
            }
        }
        assert(live + f =~= r) by {
            assert forall|x: int| r.contains(x) implies (live + f).contains(x) by {
                if metas[x].location is None {
                    assert(free.contains(x as u32));
                    let k = choose|k: int| 0 <= k < free.len() && free[k] == x as u32;
                    assert(fs[k] == x);
                }
            }
        }
        vstd::set_lib::lemma_set_disjoint_lens(live, f);
        let to_entity = |i: int| Entity::from_parts(i as u32, metas[i].generation);
        assert(vstd::relations::injective_on(to_entity, live)) by {
            assert forall|i: int, j: int| live.contains(i) && live.contains(j) && #[trigger] to_entity(i) == #[trigger] to_entity(j) implies i == j by {
                assert(to_entity(i).slot() == i as u32);
                assert(to_entity(j).slot() == j as u32);
            }
        }
        assert(live.map(to_entity) =~= self.view().dom()) by {
            assert forall|e: Entity| #[trigger] self.view().dom().contains(e) implies live.map(to_entity).contains(e) by {
                let i = e.slot() as int;
                assert(live.contains(i));
                assert(to_entity(i).slot() == e.slot());
                assert(to_entity(i).gen() == e.gen());
                assert(to_entity(i) == e);
            }
            assert forall|e: Entity| live.map(to_entity).contains(e) implies #[trigger] self.view().dom().contains(e) by {
                let i = choose|i: int| live.contains(i) && to_entity(i) == e;
                assert(to_entity(i).slot() == i as u32);
                assert(e.slot() == i);
            }
        }
        vstd::set_lib::lemma_map_size(live, self.view().dom(), to_entity);
    }

    /// Rows of archetypes `0..n` having every key, in archetype/row order.
    pub open spec fn rows_upto(&self, keys: Seq<u64>, n: int) -> Seq<Entity>
        decreases n,
    {
        if n <= 0 {
            Seq::empty()
        } else {
            self.rows_upto(keys, n - 1) + if self.has_all(n - 1, keys) {
                self.arch(n - 1).entities@
            } else {
                Seq::empty()
            }
        }
    }

    /// Entities having every key, in archetype/row order.
    pub open spec fn query_order(&self, keys: Seq<u64>) -> Seq<Entity> {
        self.rows_upto(keys, self.arch_count() as int)
    }

    /// Every row listed by `rows_upto` sits in a matching archetype below `n`.
    proof fn lemma_rows_upto_members(&self, keys: Seq<u64>, n: int, i: int)
        requires
            self.wf(),
            0 <= n <= self.arch_count(),
            0 <= i < self.rows_upto(keys, n).len(),
        ensures
            exists|a: int, r: int|
                0 <= a < n && self.has_all(a, keys) && 0 <= r < self.arch(a).rows()
                    && #[trigger] self.arch(a).entities@[r] == self.rows_upto(keys, n)[i],
        decreases n,
    {
        let prev = self.rows_upto(keys, n - 1);
        if i < prev.len() {
            self.lemma_rows_upto_members(keys, n - 1, i);
        } else {
            let r = i - prev.len();
            assert(self.arch(n - 1).entities@[r] == self.rows_upto(keys, n)[i]);
        }
    }

    /// The query order lists each live entity having every key exactly once.
    pub proof fn lemma_query_order(&self, keys: Seq<u64>)
        requires
            self.wf(),
        ensures
            self.query_order(keys).no_duplicates(),
            forall|i: int| 0 <= i < self.query_order(keys).len() ==> {
                let e = #[trigger] self.query_order(keys)[i];
                &&& self.view().contains_key(e)
                &&& forall|k: int| 0 <= k < keys.len() ==> self.view()[e].contains_key(#[trigger] keys[k])
            },
            forall|e: Entity| #[trigger] self.view().contains_key(e) && (forall|k: int| 0 <= k < keys.len()
                ==> self.view()[e].contains_key(#[trigger] keys[k])) ==> self.query_order(keys).contains(e),
    {
        self.lemma_rows_upto_props(keys, self.arch_count() as int);
        assert forall|i: int| 0 <= i < self.query_order(keys).len() implies {
            let e = #[trigger] self.query_order(keys)[i];
            &&& self.view().contains_key(e)
            &&& forall|k: int| 0 <= k < keys.len() ==> self.view()[e].contains_key(#[trigger] keys[k])
        } by {
            self.lemma_rows_upto_members(keys, self.arch_count() as int, i);
            let e = self.query_order(keys)[i];
            let (a, r) = choose|a: int, r: int|
                0 <= a < self.arch_count() && self.has_all(a, keys) && 0 <= r < self.arch(a).rows()
                    && #[trigger] self.arch(a).entities@[r] == e;
            assert(self.entities.location_of(e) == Some(EntityLocation { archetype_id: a as u32, row: r as u32 }));
        }
        assert forall|e: Entity| #[trigger] self.view().contains_key(e) && (forall|k: int| 0 <= k < keys.len()
            ==> self.view()[e].contains_key(#[trigger] keys[k])) implies self.query_order(keys).contains(e) by {
            let l = self.entities.location_of(e).unwrap();
            assert(self.metas()[e.slot() as int].location == Some(l));
            let a = l.archetype_id as int;
            assert forall|k: int| 0 <= k < keys.len() implies self.arch(a).types().contains(#[trigger] keys[k]) by {
                assert(self.view()[e].contains_key(keys[k]));
            }
            assert(self.has_all(a, keys));
            assert(self.arch(a).entities@[l.row as int] == e);
            self.lemma_rows_upto_contains(keys, self.arch_count() as int, a, l.row as int);
        }
    }

    proof fn lemma_rows_upto_contains(&self, keys: Seq<u64>, n: int, a: int, r: int)
        requires
            self.wf(),
            0 <= a < n <= self.arch_count(),
            self.has_all(a, keys),
            0 <= r < self.arch(a).rows(),
        ensures
            self.rows_upto(keys, n).contains(self.arch(a).entities@[r]),
        decreases n,
    {
        let prev = self.rows_upto(keys, n - 1);
        if a < n - 1 {
            self.lemma_rows_upto_contains(keys, n - 1, a, r);
            let k = choose|k: int| 0 <= k < prev.len() && prev[k] == self.arch(a).entities@[r];
            assert(self.rows_upto(keys, n)[k] == prev[k]);
        } else {
            assert(self.rows_upto(keys, n)[prev.len() + r] == self.arch(a).entities@[r]);
        }
    }

    /// Archetype id and row of a live entity.
    pub open spec fn place_of(&self, e: Entity) -> (int, int) {
        let l = self.entities.location_of(e).unwrap();
        (l.archetype_id as int, l.row as int)
    }

    /// `rows_upto` lists its entities by archetype id, then row.
    proof fn lemma_rows_upto_sorted(&self, keys: Seq<u64>, n: int)
        requires
            self.wf(),
            0 <= n <= self.arch_count(),
        ensures
            forall|i: int, j: int| 0 <= i < j < self.rows_upto(keys, n).len() ==> place_before(
                self.place_of(#[trigger] self.rows_upto(keys, n)[i]),
                self.place_of(#[trigger] self.rows_upto(keys, n)[j]),
            ),
        decreases n,
    {
        if n > 0 {
            self.lemma_rows_upto_sorted(keys, n - 1);
            self.lemma_rows_upto_props(keys, n - 1);
            let prev = self.rows_upto(keys, n - 1);
            let cur = self.rows_upto(keys, n);
            let a = n - 1;
            let add = if self.has_all(a, keys) { self.arch(a).entities@ } else { Seq::<Entity>::empty() };
            assert(cur == prev + add);
            assert forall|i: int| 0 <= i < add.len() implies #[trigger] self.place_of(add[i]) == (a, i) by {
                assert(add[i] == self.arch(a).entities@[i]);
                assert(self.entities.location_of(self.arch(a).entities@[i]) == Some(EntityLocation { archetype_id: a as u32, row: i as u32 }));
            }
            assert forall|i: int, j: int| 0 <= i < j < cur.len() implies place_before(
                self.place_of(#[trigger] cur[i]),
                self.place_of(#[trigger] cur[j]),
            ) by {
                if j < prev.len() {
                    assert(cur[i] == prev[i] && cur[j] == prev[j]);
                } else if i < prev.len() {
                    assert(cur[i] == prev[i]);
                    assert(cur[j] == add[j - prev.len()]);
                    assert(self.place_of(add[j - prev.len()]) == (a, j - prev.len()));
                    assert(self.entities.location_of(prev[i]).unwrap().archetype_id < a);
                } else {
                    assert(cur[i] == add[i - prev.len()]);
                    assert(cur[j] == add[j - prev.len()]);
                    assert(self.place_of(add[i - prev.len()]) == (a, i - prev.len()));
                    assert(self.place_of(add[j - prev.len()]) == (a, j - prev.len()));
                }
            }
        }
    }

    /// The query order lists entities by archetype id, then row; entities
    /// of one archetype have the same component keys.
    pub proof fn lemma_query_sorted(&self, keys: Seq<u64>)
        requires
            self.wf(),
        ensures
            forall|i: int, j: int| 0 <= i < j < self.query_order(keys).len() ==> place_before(
                self.place_of(#[trigger] self.query_order(keys)[i]),
                self.place_of(#[trigger] self.query_order(keys)[j]),
            ),
            forall|e: Entity, f: Entity| #[trigger] self.view().contains_key(e) && #[trigger] self.view().contains_key(f)
                && self.place_of(e).0 == self.place_of(f).0 ==> self.view()[e].dom() == self.view()[f].dom(),
    {
        self.lemma_rows_upto_sorted(keys, self.arch_count() as int);
        assert forall|e: Entity, f: Entity| #[trigger] self.view().contains_key(e) && #[trigger] self.view().contains_key(f)
            && self.place_of(e).0 == self.place_of(f).0 implies self.view()[e].dom() == self.view()[f].dom() by {
            let le = self.entities.location_of(e).unwrap();
            let lf = self.entities.location_of(f).unwrap();
            assert(self.metas()[e.slot() as int].location == Some(le));
            assert(self.metas()[f.slot() as int].location == Some(lf));
            assert(self.view()[e].dom() =~= self.view()[f].dom());
        }
    }

    proof fn lemma_rows_upto_props(&self, keys: Seq<u64>, n: int)
        requires
            self.wf(),
            0 <= n <= self.arch_count(),
        ensures
            self.rows_upto(keys, n).no_duplicates(),
            forall|i: int| 0 <= i < self.rows_upto(keys, n).len() ==> (#[trigger] self.entities.location_of(self.rows_upto(keys, n)[i])) is Some
                && self.entities.location_of(self.rows_upto(keys, n)[i]).unwrap().archetype_id < n,
        decreases n,
    {
        if n > 0 {
            self.lemma_rows_upto_props(keys, n - 1);
            let prev = self.rows_upto(keys, n - 1);
            let cur = self.rows_upto(keys, n);
            let a = n - 1;
            let add = if self.has_all(a, keys) { self.arch(a).entities@ } else { Seq::<Entity>::empty() };
            assert(cur == prev + add);
            assert forall|i: int| 0 <= i < add.len() implies (#[trigger] self.entities.location_of(add[i])) == Some(EntityLocation { archetype_id: a as u32, row: i as u32 }) by {
                assert(add[i] == self.arch(a).entities@[i]);
            }
            assert forall|i: int| 0 <= i < cur.len() implies (#[trigger] self.entities.location_of(cur[i])) is Some
                && self.entities.location_of(cur[i]).unwrap().archetype_id < n by {
                if i < prev.len() {
                    assert(cur[i] == prev[i]);
                } else {
                    assert(cur[i] == add[i - prev.len()]);
                }
            }
            assert forall|i: int, j: int| 0 <= i < cur.len() && 0 <= j < cur.len() && i != j implies cur[i] != cur[j] by {
                if i < prev.len() && j < prev.len() {
                    assert(cur[i] == prev[i] && cur[j] == prev[j]);
                } else if i < prev.len() {
                    assert(cur[i] == prev[i]);
                    assert(cur[j] == add[j - prev.len()]);
                    assert(self.entities.location_of(prev[i]).unwrap().archetype_id < a);
                    assert(self.entities.location_of(add[j - prev.len()]) == Some(EntityLocation { archetype_id: a as u32, row: (j - prev.len()) as u32 }));
                } else if j < prev.len() {
                    assert(cur[j] == prev[j]);
                    assert(cur[i] == add[i - prev.len()]);
                    assert(self.entities.location_of(prev[j]).unwrap().archetype_id < a);
                    assert(self.entities.location_of(add[i - prev.len()]) == Some(EntityLocation { archetype_id: a as u32, row: (i - prev.len()) as u32 }));
                } else {
                    assert(cur[i] == add[i - prev.len()]);
                    assert(cur[j] == add[j - prev.len()]);
                    assert(self.entities.location_of(add[i - prev.len()]) == Some(EntityLocation { archetype_id: a as u32, row: (i - prev.len()) as u32 }));
                    assert(self.entities.location_of(add[j - prev.len()]) == Some(EntityLocation { archetype_id: a as u32, row: (j - prev.len()) as u32 }));
                }
            }
        }
    }

    /// Archetype `a` has every key (executable check).
    fn arch_has_all(&self, a: usize, keys: &Vec<u64>) -> (r: bool)
        requires
            self.wf(),
            a < self.arch_count(),
        ensures
            r == self.has_all(a as int, keys@),
    {
        let arch = &self.archetypes[a];
        proof {
            assert(self.arch(a as int).wf());
        }
        let mut i: usize = 0;
        while i < keys.len()
            invariant
                i <= keys@.len(),
                strictly_sorted(arch.types()),
                a < self.arch_count(),
                *arch == self.arch(a as int),
                forall|k: int| 0 <= k < i ==> arch.types().contains(#[trigger] keys@[k]),
            decreases keys@.len() - i,
        {
            if !arch.has(keys[i]) {
                assert(!self.arch(a as int).types().contains(keys@[i as int]));
                return false;
            }
            i += 1;
        }
        true
    }

    /// Entities having every key in `keys`, in archetype/row order.
    pub fn query_entities_with(&self, keys: &Vec<u64>) -> (r: Vec<Entity>)
        requires
            self.wf(),
        ensures
            r@ == self.query_order(keys@),
    {
        let mut r: Vec<Entity> = Vec::new();
        let n = self.archetypes.len();
        let mut a: usize = 0;
        while a < n
            invariant
                a <= n,
                n == self.arch_count(),
                self.wf(),
                r@ == self.rows_upto(keys@, a as int),
            decreases n - a,
        {
            let ghost before = r@;
            if self.arch_has_all(a, keys) {
                let arch = &self.archetypes[a];
                let m = arch.entities.len();
                let mut q: usize = 0;
                while q < m
                    invariant
                        q <= m,
                        m == arch.entities@.len(),
                        r@ == before + arch.entities@.take(q as int),
                    decreases m - q,
                {
                    r.push(arch.entities[q]);
                    q += 1;
                    assert(r@ =~= before + arch.entities@.take(q as int));
                }
                assert(arch.entities@.take(m as int) =~= arch.entities@);
            } else {
                assert(r@ =~= before + Seq::<Entity>::empty());
            }
            a += 1;
        }
        r
    }

    /// A row of an archetype with `key` holds the entity's value for `key`.
    proof fn lemma_row_value(&self, a: int, q: int, j: int)
        requires
            self.wf(),
            0 <= a < self.arch_count(),
            0 <= q < self.arch(a).rows(),
            0 <= j < self.arch(a).types().len(),
        ensures
            self.view().contains_key(self.arch(a).entities@[q]),
            self.view()[self.arch(a).entities@[q]].contains_key(self.arch(a).types()[j]),
            self.view()[self.arch(a).entities@[q]][self.arch(a).types()[j]] == self.arch(a).col(j)[q],
    {
        let e = self.arch(a).entities@[q];
        assert(self.entities.location_of(e) == Some(EntityLocation { archetype_id: a as u32, row: q as u32 }));
        lemma_sorted_index_of(self.arch(a).types(), j);
    }

    /// `(entity, value of key)` for every entity with `key`, in archetype/row order.
    pub fn query1(&self, key: u64) -> (r: Vec<(Entity, &C)>)
        requires
            self.wf(),
        ensures
            r@.len() == self.query_order(seq![key]).len(),
            forall|i: int| 0 <= i < r@.len() ==> {
                &&& (#[trigger] r@[i]).0 == self.query_order(seq![key])[i]
                &&& *r@[i].1 == self.view()[r@[i].0][key]
            },
    {
        let ghost keys = seq![key];
        let mut r: Vec<(Entity, &C)> = Vec::new();
        let n = self.archetypes.len();
        let mut a: usize = 0;
        while a < n
            invariant
                a <= n,
                n == self.arch_count(),
                self.wf(),
                keys == seq![key],
                r@.len() == self.rows_upto(keys, a as int).len(),
                forall|i: int| 0 <= i < r@.len() ==> {
                    &&& (#[trigger] r@[i]).0 == self.rows_upto(keys, a as int)[i]
                    &&& self.view().contains_key(r@[i].0)
                    &&& *r@[i].1 == self.view()[r@[i].0][key]
                },
            decreases n - a,
        {
            let ghost before = r@;
            let ghost prev_rows = self.rows_upto(keys, a as int);
            let arch = &self.archetypes[a];
            proof {
                assert(self.arch(a as int).wf());
            }
            match arch.column_index(key) {
                Some(j) => {
                    proof {
                        assert(self.has_all(a as int, keys));
                        assert(arch.col(j as int).len() == arch.rows());
                    }
                    let col = &arch.columns[j];
                    let m = arch.entities.len();
                    let mut q: usize = 0;
                    while q < m
                        invariant
                            q <= m,
                            m == arch.entities@.len(),
                            col@ == arch.col(j as int),
                            col@.len() == m,
                            self.wf(),
                            a < self.arch_count(),
                            arch == self.arch(a as int),
                            j < arch.types().len(),
                            arch.types()[j as int] == key,
                            r@.len() == before.len() + q,
                            forall|i: int| 0 <= i < before.len() ==> #[trigger] r@[i] == before[i],
                            forall|i: int| 0 <= i < q ==> {
                                &&& (#[trigger] r@[before.len() + i]).0 == arch.entities@[i]
                                &&& self.view().contains_key(r@[before.len() + i].0)
                                &&& *r@[before.len() + i].1 == self.view()[r@[before.len() + i].0][key]
                            },
                        decreases m - q,
                    {
                        proof {
                            self.lemma_row_value(a as int, q as int, j as int);
                        }
                        r.push((arch.entities[q], &col[q]));
                        q += 1;
                    }
                    proof {
                        let cur = self.rows_upto(keys, a as int + 1);
                        assert(cur == prev_rows + arch.entities@);
                        assert forall|i: int| 0 <= i < r@.len() implies {
                            &&& (#[trigger] r@[i]).0 == cur[i]
                            &&& self.view().contains_key(r@[i].0)
                            &&& *r@[i].1 == self.view()[r@[i].0][key]
                        } by {
                            if i < before.len() {
                                assert(r@[i] == before[i]);
                            } else {
                                let k = i - before.len();
                                assert(r@[before.len() + k] == r@[i]);
                            }
                        }
                    }
                },
                None => {
                    proof {
                        assert(!arch.types().contains(seq![key][0]));
                        assert(!self.has_all(a as int, keys));
                        assert(self.rows_upto(keys, a as int + 1) =~= prev_rows);
                    }
                },
            }
            a += 1;
        }
        r
    }

    /// `(entity, value of a, value of b)` for every entity with both keys, in
    /// archetype/row order.
    pub fn query2(&self, ka: u64, kb: u64) -> (r: Vec<(Entity, &C, &C)>)
        requires
            self.wf(),
        ensures
            r@.len() == self.query_order(seq![ka, kb]).len(),
            forall|i: int| 0 <= i < r@.len() ==> {
                &&& (#[trigger] r@[i]).0 == self.query_order(seq![ka, kb])[i]
                &&& *r@[i].1 == self.view()[r@[i].0][ka]
                &&& *r@[i].2 == self.view()[r@[i].0][kb]
            },
    {
        let ghost keys = seq![ka, kb];
        let mut r: Vec<(Entity, &C, &C)> = Vec::new();
        let n = self.archetypes.len();
        let mut a: usize = 0;
        while a < n
            invariant
                a <= n,
                n == self.arch_count(),
                self.wf(),
                keys == seq![ka, kb],
                r@.len() == self.rows_upto(keys, a as int).len(),
                forall|i: int| 0 <= i < r@.len() ==> {
                    &&& (#[trigger] r@[i]).0 == self.rows_upto(keys, a as int)[i]
                    &&& self.view().contains_key(r@[i].0)
                    &&& *r@[i].1 == self.view()[r@[i].0][ka]
                    &&& *r@[i].2 == self.view()[r@[i].0][kb]
                },
            decreases n - a,
        {
            let ghost before = r@;
            let ghost prev_rows = self.rows_upto(keys, a as int);
            let arch = &self.archetypes[a];
            proof {
                assert(self.arch(a as int).wf());
            }
            let ja = arch.column_index(ka);
            let jb = arch.column_index(kb);
            if ja.is_some() && jb.is_some() {
                let ja = ja.unwrap();
                let jb = jb.unwrap();
                proof {
                    assert(self.has_all(a as int, keys));
                    assert(arch.col(ja as int).len() == arch.rows());
                    assert(arch.col(jb as int).len() == arch.rows());
                }
                let cola = &arch.columns[ja];
                let colb = &arch.columns[jb];
                let m = arch.entities.len();
                let mut q: usize = 0;
                while q < m
                    invariant
                        q <= m,
                        m == arch.entities@.len(),
                        cola@ == arch.col(ja as int),
                        colb@ == arch.col(jb as int),
                        cola@.len() == m,
                        colb@.len() == m,
                        self.wf(),
                        a < self.arch_count(),
                        arch == self.arch(a as int),
                        ja < arch.types().len(),
                        jb < arch.types().len(),
                        arch.types()[ja as int] == ka,
                        arch.types()[jb as int] == kb,
                        r@.len() == before.len() + q,
                        forall|i: int| 0 <= i < before.len() ==> #[trigger] r@[i] == before[i],
                        forall|i: int| 0 <= i < q ==> {
                            &&& (#[trigger] r@[before.len() + i]).0 == arch.entities@[i]
                            &&& self.view().contains_key(r@[before.len() + i].0)
                            &&& *r@[before.len() + i].1 == self.view()[r@[before.len() + i].0][ka]
                            &&& *r@[before.len() + i].2 == self.view()[r@[before.len() + i].0][kb]
                        },
                    decreases m - q,
                {
                    proof {
                        self.lemma_row_value(a as int, q as int, ja as int);
                        self.lemma_row_value(a as int, q as int, jb as int);
                    }
                    r.push((arch.entities[q], &cola[q], &colb[q]));
                    q += 1;
                }
                proof {
                    let cur = self.rows_upto(keys, a as int + 1);
                    assert(cur == prev_rows + arch.entities@);
                    assert forall|i: int| 0 <= i < r@.len() implies {
                        &&& (#[trigger] r@[i]).0 == cur[i]
                        &&& self.view().contains_key(r@[i].0)
                        &&& *r@[i].1 == self.view()[r@[i].0][ka]
                        &&& *r@[i].2 == self.view()[r@[i].0][kb]
                    } by {
                        if i < before.len() {
                            assert(r@[i] == before[i]);
                        } else {
                            let k = i - before.len();
                            assert(r@[before.len() + k] == r@[i]);
                        }
                    }
                }
            } else {
                proof {
                    if ja.is_none() {
                        assert(!arch.types().contains(keys[0]));
                    } else {
                        assert(!arch.types().contains(keys[1]));
                    }
                    assert(!self.has_all(a as int, keys));
                    assert(self.rows_upto(keys, a as int + 1) =~= prev_rows);
                }
            }
            a += 1;
        }
        r
    }

    /// `(entity, values of a, b and c)` for every entity with all three keys,
    /// in archetype/row order.
    pub fn query3(&self, ka: u64, kb: u64, kc: u64) -> (r: Vec<(Entity, &C, &C, &C)>)
        requires
            self.wf(),
        ensures
            r@.len() == self.query_order(seq![ka, kb, kc]).len(),
            forall|i: int| 0 <= i < r@.len() ==> {
                &&& (#[trigger] r@[i]).0 == self.query_order(seq![ka, kb, kc])[i]
                &&& *r@[i].1 == self.view()[r@[i].0][ka]
                &&& *r@[i].2 == self.view()[r@[i].0][kb]
                &&& *r@[i].3 == self.view()[r@[i].0][kc]
            },
    {
        let ghost keys = seq![ka, kb, kc];
        let mut r: Vec<(Entity, &C, &C, &C)> = Vec::new();
        let n = self.archetypes.len();
        let mut a: usize = 0;
        while a < n
            invariant
                a <= n,
                n == self.arch_count(),
                self.wf(),
                keys == seq![ka, kb, kc],
                r@.len() == self.rows_upto(keys, a as int).len(),
                forall|i: int| 0 <= i < r@.len() ==> {
                    &&& (#[trigger] r@[i]).0 == self.rows_upto(keys, a as int)[i]
                    &&& self.view().contains_key(r@[i].0)
                    &&& *r@[i].1 == self.view()[r@[i].0][ka]
                    &&& *r@[i].2 == self.view()[r@[i].0][kb]
                    &&& *r@[i].3 == self.view()[r@[i].0][kc]
                },
            decreases n - a,
        {
            let ghost before = r@;
            let ghost prev_rows = self.rows_upto(keys, a as int);
            let arch = &self.archetypes[a];
            proof {
                assert(self.arch(a as int).wf());
            }
            let ja = arch.column_index(ka);
            let jb = arch.column_index(kb);
            let jc = arch.column_index(kc);
            if ja.is_some() && jb.is_some() && jc.is_some() {
                let ja = ja.unwrap();
                let jb = jb.unwrap();
                let jc = jc.unwrap();
                proof {
                    assert(self.has_all(a as int, keys));
                    assert(arch.col(ja as int).len() == arch.rows());
                    assert(arch.col(jb as int).len() == arch.rows());
                    assert(arch.col(jc as int).len() == arch.rows());
                }
                let cola = &arch.columns[ja];
                let colb = &arch.columns[jb];
                let colc = &arch.columns[jc];
                let m = arch.entities.len();
                let mut q: usize = 0;
                while q < m
                    invariant
                        q <= m,
                        m == arch.entities@.len(),
                        cola@ == arch.col(ja as int),
                        colb@ == arch.col(jb as int),
                        colc@ == arch.col(jc as int),
                        cola@.len() == m,
                        colb@.len() == m,
                        colc@.len() == m,
                        self.wf(),
                        a < self.arch_count(),
                        arch == self.arch(a as int),
                        ja < arch.types().len(),
                        jb < arch.types().len(),
                        jc < arch.types().len(),
                        arch.types()[ja as int] == ka,
                        arch.types()[jb as int] == kb,
                        arch.types()[jc as int] == kc,
                        r@.len() == before.len() + q,
                        forall|i: int| 0 <= i < before.len() ==> #[trigger] r@[i] == before[i],
                        forall|i: int| 0 <= i < q ==> {
                            &&& (#[trigger] r@[before.len() + i]).0 == arch.entities@[i]
                            &&& self.view().contains_key(r@[before.len() + i].0)
                            &&& *r@[before.len() + i].1 == self.view()[r@[before.len() + i].0][ka]
                            &&& *r@[before.len() + i].2 == self.view()[r@[before.len() + i].0][kb]
                            &&& *r@[before.len() + i].3 == self.view()[r@[before.len() + i].0][kc]
                        },
                    decreases m - q,
                {
                    proof {
                        self.lemma_row_value(a as int, q as int, ja as int);
                        self.lemma_row_value(a as int, q as int, jb as int);
                        self.lemma_row_value(a as int, q as int, jc as int);
                    }
                    r.push((arch.entities[q], &cola[q], &colb[q], &colc[q]));
                    q += 1;
                }
                proof {
                    let cur = self.rows_upto(keys, a as int + 1);
                    assert(cur == prev_rows + arch.entities@);
                    assert forall|i: int| 0 <= i < r@.len() implies {
                        &&& (#[trigger] r@[i]).0 == cur[i]
                        &&& self.view().contains_key(r@[i].0)
                        &&& *r@[i].1 == self.view()[r@[i].0][ka]
                        &&& *r@[i].2 == self.view()[r@[i].0][kb]
                        &&& *r@[i].3 == self.view()[r@[i].0][kc]
                    } by {
                        if i < before.len() {
                            assert(r@[i] == before[i]);
                        } else {
                            let k = i - before.len();
                            assert(r@[before.len() + k] == r@[i]);
                        }
                    }
                }
            } else {
                proof {
                    if ja.is_none() {
                        assert(!arch.types().contains(keys[0]));
                    } else if jb.is_none() {
                        assert(!arch.types().contains(keys[1]));
                    } else {
                        assert(!arch.types().contains(keys[2]));
                    }
                    assert(!self.has_all(a as int, keys));
                    assert(self.rows_upto(keys, a as int + 1) =~= prev_rows);
                }
            }
            a += 1;
        }
        r
    }

    /// How `post` differs from `pre` when only column contents of archetype
    /// `a` changed (same lengths).
    pub open spec fn columns_rewritten(pre: Self, post: Self, a: int) -> bool {
        let (x, y) = (pre.arch(a), post.arch(a));
        &&& post.entities == pre.entities
        &&& post.arch_count() == pre.arch_count()
        &&& 0 <= a < pre.arch_count()
        &&& forall|b: int| 0 <= b < pre.arch_count() && b != a ==> #[trigger] post.arch(b) == pre.arch(b)
        &&& y.id == x.id
        &&& y.component_types == x.component_types
        &&& y.entities == x.entities
        &&& y.add_edges == x.add_edges
        &&& y.remove_edges == x.remove_edges
        &&& y.columns@.len() == x.columns@.len()
        &&& forall|j: int| 0 <= j < x.columns@.len() ==> (#[trigger] y.col(j)).len() == x.col(j).len()
    }

    /// Rewriting column contents keeps the invariant and the set of live
    /// entities; only rows of archetype `a` see new values.
    pub proof fn lemma_columns_rewritten(pre: Self, post: Self, a: int)
        requires
            pre.wf(),
            Self::columns_rewritten(pre, post, a),
        ensures
            post.wf(),
            post.view().dom() == pre.view().dom(),
            forall|e: Entity| #[trigger] post.view().contains_key(e) ==> post.entities.location_of(e) == pre.entities.location_of(e)
                && (pre.entities.location_of(e).unwrap().archetype_id != a ==> post.view()[e] == pre.view()[e]),
    {
        let x = pre.arch(a);
        let y = post.arch(a);
        assert(y.wf()) by {
            assert forall|i: int| 0 <= i < y.types().len() implies (#[trigger] y.col(i)).len() == y.rows() by {
                assert(x.col(i).len() == x.rows());
            }
        }
        assert forall|b: int| 0 <= b < post.arch_count() implies {
            &&& (#[trigger] post.arch(b)).types() == pre.arch(b).types()
            &&& post.arch(b).id == pre.arch(b).id
            &&& post.arch(b).add_edges == pre.arch(b).add_edges
            &&& post.arch(b).remove_edges == pre.arch(b).remove_edges
            &&& post.arch(b).wf()
            &&& post.arch(b).rows() <= u32::MAX
        } by {
            assert(pre.arch(b).wf());
        }
        post.lemma_shape_kept(pre);
        post.lemma_same_locations(pre);
        assert(post.view().dom() =~= pre.view().dom());
        assert forall|e: Entity| #[trigger] post.view().contains_key(e) implies post.entities.location_of(e) == pre.entities.location_of(e)
            && (pre.entities.location_of(e).unwrap().archetype_id != a ==> post.view()[e] == pre.view()[e]) by {
            let l = pre.entities.location_of(e).unwrap();
            if l.archetype_id != a {
                assert(post.arch(l.archetype_id as int) == pre.arch(l.archetype_id as int));
            }
        }
    }

    /// Replace the value of `key` of every entity having it by `f(entity,
    /// &value)`, in archetype/row order.
    pub fn update1<F: Fn(Entity, &C) -> C>(&mut self, key: u64, f: F)
        requires
            old(self).wf(),
            forall|e: Entity, v: &C| #[trigger] f.requires((e, v)),
        ensures
            final(self).wf(),
            final(self).spawn_room() == old(self).spawn_room(),
            final(self).arch_count() == old(self).arch_count(),
            final(self).view().dom() == old(self).view().dom(),
            forall|e: Entity| #[trigger] old(self).view().contains_key(e) ==> if old(self).view()[e].contains_key(key) {
                &&& final(self).view()[e].dom() == old(self).view()[e].dom()
                &&& forall|k: u64| #[trigger] old(self).view()[e].contains_key(k) && k != key ==> final(self).view()[e][k] == old(self).view()[e][k]
                &&& f.ensures((e, &old(self).view()[e][key]), final(self).view()[e][key])
            } else {
                final(self).view()[e] == old(self).view()[e]
            },
    {
        let n = self.archetypes.len();
        let mut a: usize = 0;
        while a < n
            invariant
                a <= n,
                n == self.arch_count(),
                n == old(self).arch_count(),
                self.wf(),
                old(self).wf(),
                self.entities == old(self).entities,
                forall|e: Entity, v: &C| #[trigger] f.requires((e, v)),
                forall|b: int| 0 <= b < n ==> (#[trigger] self.arch(b)).types() == old(self).arch(b).types()
                    && self.arch(b).entities == old(self).arch(b).entities,
                self.view().dom() == old(self).view().dom(),
                forall|e: Entity| #[trigger] old(self).view().contains_key(e) ==> if old(self).view()[e].contains_key(key)
                    && old(self).entities.location_of(e).unwrap().archetype_id < a {
                    &&& self.view()[e].dom() == old(self).view()[e].dom()
                    &&& forall|k: u64| #[trigger] old(self).view()[e].contains_key(k) && k != key ==> self.view()[e][k] == old(self).view()[e][k]
                    &&& f.ensures((e, &old(self).view()[e][key]), self.view()[e][key])
                } else {
                    self.view()[e] == old(self).view()[e]
                },
            decreases n - a,
        {
            proof {
                assert(self.arch(a as int).wf());
            }
            match self.archetypes[a].column_index(key) {
                Some(j) => {
                    let ghost s0 = *self;
                    let mut arch = self.take_arch(a);
                    let ghost arch0 = arch;
                    proof {
                        assert(arch0 == s0.arch(a as int));
                        assert(arch0.col(j as int).len() == arch0.rows());
                    }
                    let m = arch.entities.len();
                    let mut q: usize = 0;
                    while q < m
                        invariant
                            q <= m,
                            m == arch0.rows(),
                            arch0.wf(),
                            j < arch0.types().len(),
                            arch0.col(j as int).len() == m,
                            arch.id == arch0.id,
                            arch.component_types == arch0.component_types,
                            arch.entities == arch0.entities,
                            arch.add_edges == arch0.add_edges,
                            arch.remove_edges == arch0.remove_edges,
                            arch.columns@.len() == arch0.columns@.len(),
                            forall|i: int| 0 <= i < arch0.columns@.len() && i != j ==> #[trigger] arch.col(i) == arch0.col(i),
                            arch.col(j as int).len() == m,
                            forall|r: int| q <= r < m ==> #[trigger] arch.col(j as int)[r] == arch0.col(j as int)[r],
                            forall|r: int| 0 <= r < q ==> f.ensures((arch0.entities@[r], &arch0.col(j as int)[r]), #[trigger] arch.col(j as int)[r]),
                            forall|e: Entity, v: &C| #[trigger] f.requires((e, v)),
                        decreases m - q,
                    {
                        let e = arch.entities[q];
                        let nv = f(e, &arch.columns[j][q]);
                        let ghost before = arch;
                        arch.set_value(j, q, nv);
                        proof {
                            assert forall|r: int| 0 <= r < q + 1 implies f.ensures((arch0.entities@[r], &arch0.col(j as int)[r]), #[trigger] arch.col(j as int)[r]) by {
                                if r < q {
                                    assert(arch.col(j as int)[r] == before.col(j as int)[r]);
                                }
                            }
                        }
                        q += 1;
                    }
                    self.put_arch(a, arch);
                    proof {
                        let s1 = *self;
                        assert forall|b: int| 0 <= b < n && b != a implies #[trigger] s1.arch(b) == s0.arch(b) by {}
                        assert forall|i: int| 0 <= i < arch0.columns@.len() implies (#[trigger] s1.arch(a as int).col(i)).len() == s0.arch(a as int).col(i).len() by {
                            if i != j {
                                assert(s1.arch(a as int).col(i) == arch0.col(i));
                            }
                        }
                        Self::lemma_columns_rewritten(s0, s1, a as int);
                        lemma_sorted_index_of(arch0.types(), j as int);
                        assert forall|e: Entity| #[trigger] old(self).view().contains_key(e) implies if old(self).view()[e].contains_key(key)
                            && old(self).entities.location_of(e).unwrap().archetype_id < a + 1 {
                            &&& s1.view()[e].dom() == old(self).view()[e].dom()
                            &&& forall|k: u64| #[trigger] old(self).view()[e].contains_key(k) && k != key ==> s1.view()[e][k] == old(self).view()[e][k]
                            &&& f.ensures((e, &old(self).view()[e][key]), s1.view()[e][key])
                        } else {
                            s1.view()[e] == old(self).view()[e]
                        } by {
                            let l = old(self).entities.location_of(e).unwrap();
                            assert(s0.view().contains_key(e));
                            if l.archetype_id == a {
                                let row = l.row as int;
                                assert(old(self).metas()[e.slot() as int].location == Some(l));
                                assert(arch0.entities@[row] == e);
                                assert(s0.view()[e] == old(self).view()[e]);
                                assert(s0.view()[e] == arch0.row_components(row));
                                assert(s1.view()[e] == s1.arch(a as int).row_components(row));
                                assert(old(self).view()[e].contains_key(key));
                                assert forall|k: u64| #[trigger] old(self).view()[e].contains_key(k) && k != key implies s1.view()[e][k] == old(self).view()[e][k] by {
                                    let i = arch0.types().index_of(k);
                                    assert(0 <= i < arch0.types().len());
                                    assert(i != j);
                                }
                                assert(s1.view()[e].dom() =~= old(self).view()[e].dom());
                            }
                        }
                    }
                },
                None => {
                    proof {
                        assert forall|e: Entity| #[trigger] old(self).view().contains_key(e) && old(self).view()[e].contains_key(key)
                            implies old(self).entities.location_of(e).unwrap().archetype_id != a by {
                            let l = old(self).entities.location_of(e).unwrap();
                            assert(old(self).metas()[e.slot() as int].location == Some(l));
                            if l.archetype_id == a {
                                assert(self.arch(a as int).types() == old(self).arch(a as int).types());
                            }
                        }
                    }
                },
            }
            a += 1;
        }
    }
    /// Replace the values of `ka`, `kb` of every entity having all of them by the
    /// results of `f(entity, &ka, &kb)`, in archetype/row order.
    pub fn update2<F: Fn(Entity, &C, &C) -> (C, C)>(&mut self, ka: u64, kb: u64, f: F)
        requires
            old(self).wf(),
            ka != kb,
            forall|e: Entity, v0: &C, v1: &C| #[trigger] f.requires((e, v0, v1)),
        ensures
            final(self).wf(),
            final(self).spawn_room() == old(self).spawn_room(),
            final(self).arch_count() == old(self).arch_count(),
            final(self).view().dom() == old(self).view().dom(),
            forall|e: Entity| #[trigger] old(self).view().contains_key(e) ==> if old(self).view()[e].contains_key(ka) && old(self).view()[e].contains_key(kb) {
                &&& final(self).view()[e].dom() == old(self).view()[e].dom()
                &&& forall|k: u64| #[trigger] old(self).view()[e].contains_key(k)  && k != ka && k != kb ==> final(self).view()[e][k] == old(self).view()[e][k]
                &&& f.ensures((e, &old(self).view()[e][ka], &old(self).view()[e][kb]), (final(self).view()[e][ka], final(self).view()[e][kb]))
            } else {
                final(self).view()[e] == old(self).view()[e]
            },
    {
        let n = self.archetypes.len();
        let mut a: usize = 0;
        while a < n
            invariant
                a <= n,
                n == self.arch_count(),
                n == old(self).arch_count(),
                self.wf(),
                old(self).wf(),
                self.entities == old(self).entities,
                ka != kb,
                forall|e: Entity, v0: &C, v1: &C| #[trigger] f.requires((e, v0, v1)),
                forall|b: int| 0 <= b < n ==> (#[trigger] self.arch(b)).types() == old(self).arch(b).types()
                    && self.arch(b).entities == old(self).arch(b).entities,
                self.view().dom() == old(self).view().dom(),
                forall|e: Entity| #[trigger] old(self).view().contains_key(e) ==> if old(self).view()[e].contains_key(ka) && old(self).view()[e].contains_key(kb)
                    && old(self).entities.location_of(e).unwrap().archetype_id < a {
                    &&& self.view()[e].dom() == old(self).view()[e].dom()
                    &&& forall|k: u64| #[trigger] old(self).view()[e].contains_key(k)  && k != ka && k != kb ==> self.view()[e][k] == old(self).view()[e][k]
                    &&& f.ensures((e, &old(self).view()[e][ka], &old(self).view()[e][kb]), (self.view()[e][ka], self.view()[e][kb]))
                } else {
                    self.view()[e] == old(self).view()[e]
                },
            decreases n - a,
        {
            proof {
                assert(self.arch(a as int).wf());
            }
            let cols = (self.archetypes[a].column_index(ka), self.archetypes[a].column_index(kb));
            if cols.0.is_some() && cols.1.is_some() {
                let (ja, jb) = (cols.0.unwrap(), cols.1.unwrap());
                {
                    let ghost s0 = *self;
                    let mut arch = self.take_arch(a);
                    let ghost arch0 = arch;
                    proof {
                        assert(arch0 == s0.arch(a as int));
                        assert(arch0.col(ja as int).len() == arch0.rows());
                        assert(arch0.col(jb as int).len() == arch0.rows());
                    }
                    let m = arch.entities.len();
                    let mut q: usize = 0;
                    while q < m
                        invariant
                            q <= m,
                            m == arch0.rows(),
                            arch0.wf(),
                            arch0.types()[ja as int] == ka,
                            arch0.types()[jb as int] == kb,
                            ka != kb,
                            ja < arch0.types().len(),
                            arch0.col(ja as int).len() == m,
                            jb < arch0.types().len(),
                            arch0.col(jb as int).len() == m,
                            arch.id == arch0.id,
                            arch.component_types == arch0.component_types,
                            arch.entities == arch0.entities,
                            arch.add_edges == arch0.add_edges,
                            arch.remove_edges == arch0.remove_edges,
                            arch.columns@.len() == arch0.columns@.len(),
                            forall|i: int| 0 <= i < arch0.columns@.len() && i != ja && i != jb ==> #[trigger] arch.col(i) == arch0.col(i),
                            arch.col(ja as int).len() == m,
                            arch.col(jb as int).len() == m,
                            forall|r: int| q <= r < m ==> #[trigger] arch.col(ja as int)[r] == arch0.col(ja as int)[r],
                            forall|r: int| q <= r < m ==> #[trigger] arch.col(jb as int)[r] == arch0.col(jb as int)[r],
                            forall|r: int| 0 <= r < q ==> #[trigger] f.ensures((arch0.entities@[r], &arch0.col(ja as int)[r], &arch0.col(jb as int)[r]), (arch.col(ja as int)[r], arch.col(jb as int)[r])),
                            ka != kb,
                forall|e: Entity, v0: &C, v1: &C| #[trigger] f.requires((e, v0, v1)),
                        decreases m - q,
                    {
                        let e = arch.entities[q];
                        let nv = f(e, &arch.columns[ja][q], &arch.columns[jb][q]);
                        let ghost before = arch;
                        arch.set_value(ja, q, nv.0);
                        arch.set_value(jb, q, nv.1);
                        proof {
                            assert forall|r: int| 0 <= r < q + 1 implies #[trigger] f.ensures((arch0.entities@[r], &arch0.col(ja as int)[r], &arch0.col(jb as int)[r]), (arch.col(ja as int)[r], arch.col(jb as int)[r])) by {
                                if r < q {
                                    assert(arch.col(ja as int)[r] == before.col(ja as int)[r]);
                                    assert(arch.col(jb as int)[r] == before.col(jb as int)[r]);
                                } else {
                                    assert(ja != jb);
                                    assert(before.col(ja as int)[r] == arch0.col(ja as int)[r]);
                                    assert(before.col(jb as int)[r] == arch0.col(jb as int)[r]);
                                    assert(arch.col(ja as int)[r] == nv.0);
                                    assert(arch.col(jb as int)[r] == nv.1);
                                    assert(nv == (nv.0, nv.1));
                                }
                            }
                        }
                        q += 1;
                    }
                    self.put_arch(a, arch);
                    proof {
                        let s1 = *self;
                        assert forall|b: int| 0 <= b < n && b != a implies #[trigger] s1.arch(b) == s0.arch(b) by {}
                        assert forall|i: int| 0 <= i < arch0.columns@.len() implies (#[trigger] s1.arch(a as int).col(i)).len() == s0.arch(a as int).col(i).len() by {
                            if i != ja && i != jb {
                                assert(s1.arch(a as int).col(i) == arch0.col(i));
                            }
                        }
                        Self::lemma_columns_rewritten(s0, s1, a as int);
                        lemma_sorted_index_of(arch0.types(), ja as int);
                        lemma_sorted_index_of(arch0.types(), jb as int);
                        assert forall|e: Entity| #[trigger] old(self).view().contains_key(e) implies if old(self).view()[e].contains_key(ka) && old(self).view()[e].contains_key(kb)
                            && old(self).entities.location_of(e).unwrap().archetype_id < a + 1 {
                            &&& s1.view()[e].dom() == old(self).view()[e].dom()
                            &&& forall|k: u64| #[trigger] old(self).view()[e].contains_key(k)  && k != ka && k != kb ==> s1.view()[e][k] == old(self).view()[e][k]
                            &&& f.ensures((e, &old(self).view()[e][ka], &old(self).view()[e][kb]), (s1.view()[e][ka], s1.view()[e][kb]))
                        } else {
                            s1.view()[e] == old(self).view()[e]
                        } by {
                            let l = old(self).entities.location_of(e).unwrap();
                            assert(s0.view().contains_key(e));
                            if l.archetype_id == a {
                                let row = l.row as int;
                                assert(old(self).metas()[e.slot() as int].location == Some(l));
                                assert(arch0.entities@[row] == e);
                                assert(s0.view()[e] == old(self).view()[e]);
                                assert(s0.view()[e] == arch0.row_components(row));
                                assert(s1.view()[e] == s1.arch(a as int).row_components(row));
                                assert(old(self).view()[e].contains_key(ka) && old(self).view()[e].contains_key(kb));
                                assert forall|k: u64| #[trigger] old(self).view()[e].contains_key(k)  && k != ka && k != kb implies s1.view()[e][k] == old(self).view()[e][k] by {
                                    let i = arch0.types().index_of(k);
                                    assert(0 <= i < arch0.types().len());
                                    assert(i != ja);
                                    assert(i != jb);
                                }
                                assert(s1.view()[e].dom() =~= old(self).view()[e].dom());
                            }
                        }
                    }
                }
            } else {
                {
                    proof {
                        assert forall|e: Entity| #[trigger] old(self).view().contains_key(e) && old(self).view()[e].contains_key(ka) && old(self).view()[e].contains_key(kb)
                            implies old(self).entities.location_of(e).unwrap().archetype_id != a by {
                            let l = old(self).entities.location_of(e).unwrap();
                            assert(old(self).metas()[e.slot() as int].location == Some(l));
                            if l.archetype_id == a {
                                assert(self.arch(a as int).types() == old(self).arch(a as int).types());
                                assert(old(self).view()[e].contains_key(ka));
                                assert(old(self).view()[e].contains_key(kb));
                            }
                        }
                    }
                }
            }
            a += 1;
        }
    }
    /// Replace the values of `ka`, `kb`, `kc` of every entity having all of them by the
    /// results of `f(entity, &ka, &kb, &kc)`, in archetype/row order.
    pub fn update3<F: Fn(Entity, &C, &C, &C) -> (C, C, C)>(&mut self, ka: u64, kb: u64, kc: u64, f: F)
        requires
            old(self).wf(),
            ka != kb && ka != kc && kb != kc,
            forall|e: Entity, v0: &C, v1: &C, v2: &C| #[trigger] f.requires((e, v0, v1, v2)),
        ensures
            final(self).wf(),
            final(self).spawn_room() == old(self).spawn_room(),
            final(self).arch_count() == old(self).arch_count(),
            final(self).view().dom() == old(self).view().dom(),
            forall|e: Entity| #[trigger] old(self).view().contains_key(e) ==> if old(self).view()[e].contains_key(ka) && old(self).view()[e].contains_key(kb) && old(self).view()[e].contains_key(kc) {
                &&& final(self).view()[e].dom() == old(self).view()[e].dom()
                &&& forall|k: u64| #[trigger] old(self).view()[e].contains_key(k)  && k != ka && k != kb && k != kc ==> final(self).view()[e][k] == old(self).view()[e][k]
                &&& f.ensures((e, &old(self).view()[e][ka], &old(self).view()[e][kb], &old(self).view()[e][kc]), (final(self).view()[e][ka], final(self).view()[e][kb], final(self).view()[e][kc]))
            } else {
                final(self).view()[e] == old(self).view()[e]
            },
    {
        let n = self.archetypes.len();
        let mut a: usize = 0;
        while a < n
            invariant
                a <= n,
                n == self.arch_count(),
                n == old(self).arch_count(),
                self.wf(),
                old(self).wf(),
                self.entities == old(self).entities,
                ka != kb && ka != kc && kb != kc,
                forall|e: Entity, v0: &C, v1: &C, v2: &C| #[trigger] f.requires((e, v0, v1, v2)),
                forall|b: int| 0 <= b < n ==> (#[trigger] self.arch(b)).types() == old(self).arch(b).types()
                    && self.arch(b).entities == old(self).arch(b).entities,
                self.view().dom() == old(self).view().dom(),
                forall|e: Entity| #[trigger] old(self).view().contains_key(e) ==> if old(self).view()[e].contains_key(ka) && old(self).view()[e].contains_key(kb) && old(self).view()[e].contains_key(kc)
                    && old(self).entities.location_of(e).unwrap().archetype_id < a {
                    &&& self.view()[e].dom() == old(self).view()[e].dom()
                    &&& forall|k: u64| #[trigger] old(self).view()[e].contains_key(k)  && k != ka && k != kb && k != kc ==> self.view()[e][k] == old(self).view()[e][k]
                    &&& f.ensures((e, &old(self).view()[e][ka], &old(self).view()[e][kb], &old(self).view()[e][kc]), (self.view()[e][ka], self.view()[e][kb], self.view()[e][kc]))
                } else {
                    self.view()[e] == old(self).view()[e]
                },
            decreases n - a,
        {
            proof {
                assert(self.arch(a as int).wf());
            }
            let cols = (self.archetypes[a].column_index(ka), self.archetypes[a].column_index(kb), self.archetypes[a].column_index(kc));
            if cols.0.is_some() && cols.1.is_some() && cols.2.is_some() {
                let (ja, jb, jc) = (cols.0.unwrap(), cols.1.unwrap(), cols.2.unwrap());
                {
                    let ghost s0 = *self;
                    let mut arch = self.take_arch(a);
                    let ghost arch0 = arch;
                    proof {
                        assert(arch0 == s0.arch(a as int));
                        assert(arch0.col(ja as int).len() == arch0.rows());
                        assert(arch0.col(jb as int).len() == arch0.rows());
                        assert(arch0.col(jc as int).len() == arch0.rows());
                    }
                    let m = arch.entities.len();
                    let mut q: usize = 0;
                    while q < m
                        invariant
                            q <= m,
                            m == arch0.rows(),
                            arch0.wf(),
                            arch0.types()[ja as int] == ka,
                            arch0.types()[jb as int] == kb,
                            arch0.types()[jc as int] == kc,
                            ka != kb && ka != kc && kb != kc,
                            ja < arch0.types().len(),
                            arch0.col(ja as int).len() == m,
                            jb < arch0.types().len(),
                            arch0.col(jb as int).len() == m,
                            jc < arch0.types().len(),
                            arch0.col(jc as int).len() == m,
                            arch.id == arch0.id,
                            arch.component_types == arch0.component_types,
                            arch.entities == arch0.entities,
                            arch.add_edges == arch0.add_edges,
                            arch.remove_edges == arch0.remove_edges,
                            arch.columns@.len() == arch0.columns@.len(),
                            forall|i: int| 0 <= i < arch0.columns@.len() && i != ja && i != jb && i != jc ==> #[trigger] arch.col(i) == arch0.col(i),
                            arch.col(ja as int).len() == m,
                            arch.col(jb as int).len() == m,
                            arch.col(jc as int).len() == m,
                            forall|r: int| q <= r < m ==> #[trigger] arch.col(ja as int)[r] == arch0.col(ja as int)[r],
                            forall|r: int| q <= r < m ==> #[trigger] arch.col(jb as int)[r] == arch0.col(jb as int)[r],
                            forall|r: int| q <= r < m ==> #[trigger] arch.col(jc as int)[r] == arch0.col(jc as int)[r],
                            forall|r: int| 0 <= r < q ==> #[trigger] f.ensures((arch0.entities@[r], &arch0.col(ja as int)[r], &arch0.col(jb as int)[r], &arch0.col(jc as int)[r]), (arch.col(ja as int)[r], arch.col(jb as int)[r], arch.col(jc as int)[r])),
                            ka != kb && ka != kc && kb != kc,
                forall|e: Entity, v0: &C, v1: &C, v2: &C| #[trigger] f.requires((e, v0, v1, v2)),
                        decreases m - q,
                    {
                        let e = arch.entities[q];
                        let nv = f(e, &arch.columns[ja][q], &arch.columns[jb][q], &arch.columns[jc][q]);
                        let ghost before = arch;
                        arch.set_value(ja, q, nv.0);
                        arch.set_value(jb, q, nv.1);
                        arch.set_value(jc, q, nv.2);
                        proof {
                            assert forall|r: int| 0 <= r < q + 1 implies #[trigger] f.ensures((arch0.entities@[r], &arch0.col(ja as int)[r], &arch0.col(jb as int)[r], &arch0.col(jc as int)[r]), (arch.col(ja as int)[r], arch.col(jb as int)[r], arch.col(jc as int)[r])) by {
                                if r < q {
                                    assert(arch.col(ja as int)[r] == before.col(ja as int)[r]);
                                    assert(arch.col(jb as int)[r] == before.col(jb as int)[r]);
                                    assert(arch.col(jc as int)[r] == before.col(jc as int)[r]);
                                } else {
                                    assert(ja != jb && ja != jc && jb != jc);
                                    assert(before.col(ja as int)[r] == arch0.col(ja as int)[r]);
                                    assert(before.col(jb as int)[r] == arch0.col(jb as int)[r]);
                                    assert(before.col(jc as int)[r] == arch0.col(jc as int)[r]);
                                    assert(arch.col(ja as int)[r] == nv.0);
                                    assert(arch.col(jb as int)[r] == nv.1);
                                    assert(arch.col(jc as int)[r] == nv.2);
                                    assert(nv == (nv.0, nv.1, nv.2));
                                }
                            }
                        }
                        q += 1;
                    }
                    self.put_arch(a, arch);
                    proof {
                        let s1 = *self;
                        assert forall|b: int| 0 <= b < n && b != a implies #[trigger] s1.arch(b) == s0.arch(b) by {}
                        assert forall|i: int| 0 <= i < arch0.columns@.len() implies (#[trigger] s1.arch(a as int).col(i)).len() == s0.arch(a as int).col(i).len() by {
                            if i != ja && i != jb && i != jc {
                                assert(s1.arch(a as int).col(i) == arch0.col(i));
                            }
                        }
                        Self::lemma_columns_rewritten(s0, s1, a as int);
                        lemma_sorted_index_of(arch0.types(), ja as int);
                        lemma_sorted_index_of(arch0.types(), jb as int);
                        lemma_sorted_index_of(arch0.types(), jc as int);
                        assert forall|e: Entity| #[trigger] old(self).view().contains_key(e) implies if old(self).view()[e].contains_key(ka) && old(self).view()[e].contains_key(kb) && old(self).view()[e].contains_key(kc)
                            && old(self).entities.location_of(e).unwrap().archetype_id < a + 1 {
                            &&& s1.view()[e].dom() == old(self).view()[e].dom()
                            &&& forall|k: u64| #[trigger] old(self).view()[e].contains_key(k)  && k != ka && k != kb && k != kc ==> s1.view()[e][k] == old(self).view()[e][k]
                            &&& f.ensures((e, &old(self).view()[e][ka], &old(self).view()[e][kb], &old(self).view()[e][kc]), (s1.view()[e][ka], s1.view()[e][kb], s1.view()[e][kc]))
                        } else {
                            s1.view()[e] == old(self).view()[e]
                        } by {
                            let l = old(self).entities.location_of(e).unwrap();
                            assert(s0.view().contains_key(e));
                            if l.archetype_id == a {
                                let row = l.row as int;
                                assert(old(self).metas()[e.slot() as int].location == Some(l));
                                assert(arch0.entities@[row] == e);
                                assert(s0.view()[e] == old(self).view()[e]);
                                assert(s0.view()[e] == arch0.row_components(row));
                                assert(s1.view()[e] == s1.arch(a as int).row_components(row));
                                assert(old(self).view()[e].contains_key(ka) && old(self).view()[e].contains_key(kb) && old(self).view()[e].contains_key(kc));
                                assert forall|k: u64| #[trigger] old(self).view()[e].contains_key(k)  && k != ka && k != kb && k != kc implies s1.view()[e][k] == old(self).view()[e][k] by {
                                    let i = arch0.types().index_of(k);
                                    assert(0 <= i < arch0.types().len());
                                    assert(i != ja);
                                    assert(i != jb);
                                    assert(i != jc);
                                }
                                assert(s1.view()[e].dom() =~= old(self).view()[e].dom());
                            }
                        }
                    }
                }
            } else {
                {
                    proof {
                        assert forall|e: Entity| #[trigger] old(self).view().contains_key(e) && old(self).view()[e].contains_key(ka) && old(self).view()[e].contains_key(kb) && old(self).view()[e].contains_key(kc)
                            implies old(self).entities.location_of(e).unwrap().archetype_id != a by {
                            let l = old(self).entities.location_of(e).unwrap();
                            assert(old(self).metas()[e.slot() as int].location == Some(l));
                            if l.archetype_id == a {
                                assert(self.arch(a as int).types() == old(self).arch(a as int).types());
                                assert(old(self).view()[e].contains_key(ka));
                                assert(old(self).view()[e].contains_key(kb));
                                assert(old(self).view()[e].contains_key(kc));
                            }
                        }
                    }
                }
            }
            a += 1;
        }
    }
}

/// Position `a` comes before position `b`: a lower archetype id, or the
/// same archetype and an earlier row.
pub open spec fn place_before(a: (int, int), b: (int, int)) -> bool {
    a.0 < b.0 || (a.0 == b.0 && a.1 < b.1)
}

} // verus!
