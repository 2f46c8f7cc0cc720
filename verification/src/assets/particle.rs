//! Particle resources: typed asset ids, the global particle budget and live
//! count, the world's deterministic seed source for emitters, and the
//! registry of loaded particle configs.

use vstd::prelude::*;

use std::collections::HashMap;

use crate::assets::name_map::NameMap;
use crate::rng::{spec_splitmix64, splitmix64};

verus! {

/// Typed handle to a loaded asset: a dense index into the owning registry,
/// tagged with the asset kind.
#[derive(Debug, Hash)]
pub struct AssetId<T> {
    index: u32,
    _marker: core::marker::PhantomData<T>,
}

impl<T> AssetId<T> {
    /// The registry index.
    pub closed spec fn spec_index(self) -> u32 {
        self.index
    }

    /// The id of registry slot `index`.
    pub fn new(index: u32) -> (r: Self)
        ensures
            r.spec_index() == index,
    {
        AssetId { index, _marker: core::marker::PhantomData }
    }

    /// The registry index.
    pub fn index(self) -> (r: u32)
        ensures
            r == self.spec_index(),
    {
        self.index
    }
}

impl<T> Clone for AssetId<T> {
    fn clone(&self) -> (r: Self)
        ensures
            r == *self,
    {
        AssetId { index: self.index, _marker: core::marker::PhantomData }
    }
}

impl<T> Copy for AssetId<T> {}

impl<T> PartialEq for AssetId<T> {
    fn eq(&self, other: &Self) -> (r: bool) {
        self.index == other.index
    }
}

impl<T> vstd::std_specs::cmp::PartialEqSpecImpl for AssetId<T> {
    open spec fn obeys_eq_spec() -> bool {
        true
    }

    open spec fn eq_spec(&self, other: &Self) -> bool {
        self.spec_index() == other.spec_index()
    }
}

impl<T> Eq for AssetId<T> {}

/// How particle colours are blended.
#[derive(Debug, Clone, Copy, PartialEq, Eq, Structural)]
pub enum BlendMode {
    Alpha,
    Premultiplied,
}

/// The blend mode a particle config gets when it names none.
pub fn default_blend() -> (r: BlendMode)
    ensures
        r == BlendMode::Alpha,
{
    BlendMode::Alpha
}

/// The value of a flag a particle config leaves out.
pub fn default_true() -> (r: bool)
    ensures
        r,
{
    true
}

/// Global cap on live particles across all emitters.
#[derive(Debug, Clone, Copy, PartialEq, Eq, Structural)]
pub struct ParticleBudget {
    pub global_cap: u32,
}

impl ParticleBudget {
    pub const DEFAULT_GLOBAL_CAP: u32 = 10_000;
}

impl Default for ParticleBudget {
    fn default() -> (r: Self)
        ensures
            r.global_cap == 10_000,
    {
        ParticleBudget { global_cap: 10_000 }
    }
}

/// Live particles across all emitters.
#[derive(Debug, Clone, Copy, PartialEq, Eq, Structural)]
pub struct ParticleActive {
    pub count: u32,
}

impl Default for ParticleActive {
    fn default() -> (r: Self)
        ensures
            r.count == 0,
    {
        ParticleActive { count: 0 }
    }
}

/// Counter from which emitters without their own seed take one, so the same
/// scene set-up gives the same particle streams on every run.
#[derive(Debug, Clone, Copy, PartialEq, Eq, Structural)]
pub struct WorldRngSeed {
    pub next: u64,
}

impl Default for WorldRngSeed {
    fn default() -> (r: Self)
        ensures
            r.next == 0,
    {
        WorldRngSeed { next: 0 }
    }
}

impl WorldRngSeed {
    /// A seed source counting from `start`.
    pub fn new(start: u64) -> (r: Self)
        ensures
            r.next == start,
    {
        WorldRngSeed { next: start }
    }

    /// The next emitter seed: SplitMix64 of the counter, which then moves on
    /// by one (wrapping).
    pub fn derive_seed(&mut self) -> (r: u64)
        ensures
            r == spec_splitmix64(old(self).next),
            final(self).next == (if old(self).next == u64::MAX { 0 } else { (old(self).next + 1) as u64 }),
    {
        let n = self.next;
        self.next = self.next.wrapping_add(1);
        splitmix64(n)
    }
}


/// The registry of loaded particle configs. Each registration mints the
/// next id and records the config, its name and its path under it; a name
/// or path registered again points at the newest id. A hot reload swaps the
/// config behind an id and keeps the id.
#[derive(Debug)]
pub struct ParticleConfigRegistry<C> {
    by_id: HashMap<u32, C>,
    id_by_name: NameMap<u32>,
    name_by_id: HashMap<u32, String>,
    id_by_path: NameMap<u32>,
    path_by_id: HashMap<u32, String>,
    next_index: u32,
}

impl<C> ParticleConfigRegistry<C> {
    /// The name and path indexes each hold a key once.
    pub closed spec fn wf(&self) -> bool {
        self.id_by_name.wf() && self.id_by_path.wf()
    }

    /// The configs, by id index.
    pub closed spec fn configs(&self) -> Map<u32, C> {
        self.by_id@
    }

    /// The id index each registered name points at.
    pub closed spec fn ids_by_name(&self) -> Map<Seq<char>, u32> {
        self.id_by_name@
    }

    /// The id index each registered path points at.
    pub closed spec fn ids_by_path(&self) -> Map<Seq<char>, u32> {
        self.id_by_path@
    }

    /// The name registered under each id index.
    pub closed spec fn names_by_id(&self) -> Map<u32, Seq<char>> {
        self.name_by_id@.map_values(|s: String| s@)
    }

    /// The path registered under each id index.
    pub closed spec fn paths_by_id(&self) -> Map<u32, Seq<char>> {
        self.path_by_id@.map_values(|s: String| s@)
    }

    /// The index the next registration mints.
    pub closed spec fn next_id(&self) -> u32 {
        self.next_index
    }

    /// An empty registry.
    pub fn new() -> (r: Self)
        ensures
            r.wf(),
            r.configs() == Map::<u32, C>::empty(),
            r.ids_by_name() == Map::<Seq<char>, u32>::empty(),
            r.ids_by_path() == Map::<Seq<char>, u32>::empty(),
            r.names_by_id() == Map::<u32, Seq<char>>::empty(),
            r.paths_by_id() == Map::<u32, Seq<char>>::empty(),
            r.next_id() == 0,
    {
        let r = ParticleConfigRegistry {
            by_id: HashMap::new(),
            id_by_name: NameMap::new(),
            name_by_id: HashMap::new(),
            id_by_path: NameMap::new(),
            path_by_id: HashMap::new(),
            next_index: 0,
        };
        assert(r.names_by_id() =~= Map::<u32, Seq<char>>::empty());
        assert(r.paths_by_id() =~= Map::<u32, Seq<char>>::empty());
        r
    }

    /// The index the next registration mints; registration needs it below
    /// `u32::MAX`.
    pub fn next_index(&self) -> (r: u32)
        ensures
            r == self.next_id(),
    {
        self.next_index
    }

    /// Register a newly loaded config under a fresh id. A name or path that
    /// was registered before now points at the new id.
    pub fn register(&mut self, name: String, path: String, config: C) -> (id: AssetId<C>)
        requires
            old(self).wf(),
            old(self).next_id() < u32::MAX,
        ensures
            final(self).wf(),
            id.spec_index() == old(self).next_id(),
            final(self).next_id() == old(self).next_id() + 1,
            final(self).configs() == old(self).configs().insert(id.spec_index(), config),
            final(self).ids_by_name() == old(self).ids_by_name().insert(name@, id.spec_index()),
            final(self).names_by_id() == old(self).names_by_id().insert(id.spec_index(), name@),
            final(self).ids_by_path() == old(self).ids_by_path().insert(path@, id.spec_index()),
            final(self).paths_by_id() == old(self).paths_by_id().insert(id.spec_index(), path@),
    {
        broadcast use vstd::std_specs::hash::group_hash_axioms;
        let index = self.next_index;
        let id = AssetId::<C>::new(index);
        self.next_index = index + 1;
        let name_key = name.clone();
        let path_key = path.clone();
        let _ = self.id_by_name.insert(name_key, index);
        let _ = self.name_by_id.insert(index, name);
        let _ = self.id_by_path.insert(path_key, index);
        let _ = self.path_by_id.insert(index, path);
        let _ = self.by_id.insert(index, config);
        proof {
            assert(self.names_by_id() =~= old(self).names_by_id().insert(index, name@));
            assert(self.paths_by_id() =~= old(self).paths_by_id().insert(index, path@));
        }
        id
    }

    /// Swap the config behind `id`, keeping the id; names and paths stay.
    pub fn replace(&mut self, id: AssetId<C>, config: C)
        requires
            old(self).wf(),
        ensures
            final(self).wf(),
            final(self).configs() == old(self).configs().insert(id.spec_index(), config),
            final(self).ids_by_name() == old(self).ids_by_name(),
            final(self).ids_by_path() == old(self).ids_by_path(),
            final(self).names_by_id() == old(self).names_by_id(),
            final(self).paths_by_id() == old(self).paths_by_id(),
            final(self).next_id() == old(self).next_id(),
    {
        broadcast use vstd::std_specs::hash::group_hash_axioms;
        let _ = self.by_id.insert(id.index(), config);
    }

    /// The config behind `id`.
    pub fn get(&self, id: AssetId<C>) -> (r: Option<&C>)
        ensures
            match r {
                Some(c) => self.configs().contains_key(id.spec_index()) && self.configs()[id.spec_index()] == *c,
                None => !self.configs().contains_key(id.spec_index()),
            },
    {
        broadcast use vstd::std_specs::hash::group_hash_axioms;
        let index = id.index();
        self.by_id.get(&index)
    }

    /// The id a name points at.
    pub fn id_for_name(&self, name: &str) -> (r: Option<AssetId<C>>)
        requires
            self.wf(),
        ensures
            match r {
                Some(id) => self.ids_by_name().contains_key(name@) && self.ids_by_name()[name@] == id.spec_index(),
                None => !self.ids_by_name().contains_key(name@),
            },
    {
        match self.id_by_name.get(name) {
            Some(index) => Some(AssetId::new(*index)),
            None => None,
        }
    }

    /// The name registered under `id`.
    pub fn name_for_id(&self, id: AssetId<C>) -> (r: Option<&str>)
        ensures
            match r {
                Some(n) => self.names_by_id().contains_key(id.spec_index()) && self.names_by_id()[id.spec_index()] == n@,
                None => !self.names_by_id().contains_key(id.spec_index()),
            },
    {
        broadcast use vstd::std_specs::hash::group_hash_axioms;
        let index = id.index();
        match self.name_by_id.get(&index) {
            Some(n) => Some(n.as_str()),
            None => None,
        }
    }

    /// The id a path points at.
    pub fn id_for_path(&self, path: &str) -> (r: Option<AssetId<C>>)
        requires
            self.wf(),
        ensures
            match r {
                Some(id) => self.ids_by_path().contains_key(path@) && self.ids_by_path()[path@] == id.spec_index(),
                None => !self.ids_by_path().contains_key(path@),
            },
    {
        match self.id_by_path.get(path) {
            Some(index) => Some(AssetId::new(*index)),
            None => None,
        }
    }

    /// The path registered under `id`.
    pub fn path_for_id(&self, id: AssetId<C>) -> (r: Option<&str>)
        ensures
            match r {
                Some(p) => self.paths_by_id().contains_key(id.spec_index()) && self.paths_by_id()[id.spec_index()] == p@,
                None => !self.paths_by_id().contains_key(id.spec_index()),
            },
    {
        broadcast use vstd::std_specs::hash::group_hash_axioms;
        let index = id.index();
        match self.path_by_id.get(&index) {
            Some(p) => Some(p.as_str()),
            None => None,
        }
    }

    /// Number of configs held.
    pub fn len(&self) -> (r: usize)
        ensures
            r == self.configs().len(),
    {
        broadcast use vstd::std_specs::hash::group_hash_axioms;
        self.by_id.len()
    }

    /// True when no config is held.
    pub fn is_empty(&self) -> (r: bool)
        ensures
            r == (self.configs().len() == 0),
    {
        broadcast use vstd::std_specs::hash::group_hash_axioms;
        self.by_id.len() == 0
    }

    /// Every registered name, once each.
    pub fn names(&self) -> (r: Vec<&str>)
        requires
            self.wf(),
        ensures
            r@.len() == self.ids_by_name().dom().len(),
            forall|i: int| 0 <= i < r@.len() ==> self.ids_by_name().dom().contains((#[trigger] r@[i])@),
            forall|i: int, j: int| 0 <= i < j < r@.len() ==> r@[i]@ != r@[j]@,
    {
        proof { self.id_by_name.lemma_keys(); }
        let r = self.id_by_name.keys();
        proof {
            assert forall|i: int, j: int| 0 <= i < j < r@.len() implies r@[i]@ != r@[j]@ by {
                assert(r@[i]@ == self.id_by_name.key_seq()[i]);
                assert(r@[j]@ == self.id_by_name.key_seq()[j]);
            }
            assert forall|i: int| 0 <= i < r@.len() implies self.ids_by_name().dom().contains((#[trigger] r@[i])@) by {
                assert(self.id_by_name.key_seq().contains(self.id_by_name.key_seq()[i]));
            }
        }
        r
    }
}

} // verus!
