//! The `World`: entities, their components and keyed resources.

use vstd::prelude::*;

use super::command_buffer::{spawn_count, commands_wf, use_wf, Command, CommandBuffer, CommandTarget};
use super::entity::Entity;
use super::storage::{place_before, Archetypes};

verus! {

/// Keys of a resource list.
pub open spec fn resource_keys<C>(res: Seq<(u64, C)>) -> Seq<u64> {
    res.map_values(|p: (u64, C)| p.0)
}

/// Resource list as a map.
pub open spec fn resource_map<C>(res: Seq<(u64, C)>) -> Map<u64, C> {
    Map::new(
        |k: u64| resource_keys(res).contains(k),
        |k: u64| res[resource_keys(res).index_of(k)].1,
    )
}

/// How a resource list differs from `res` when only the value at `i` changed.
pub open spec fn resource_value_updated<C>(res: Seq<(u64, C)>, post: Seq<(u64, C)>, i: int) -> bool {
    &&& post.len() == res.len()
    &&& post[i].0 == res[i].0
    &&& forall|j: int| 0 <= j < res.len() && j != i ==> #[trigger] post[j] == res[j]
}

/// Replacing the value at index `i` keeps the key list and updates the map at
/// that key.
pub proof fn lemma_resource_update<C>(res: Seq<(u64, C)>, i: int)
    requires
        resource_keys(res).no_duplicates(),
        0 <= i < res.len(),
    ensures
        forall|post: Seq<(u64, C)>|
            #![trigger resource_map(post)]
            resource_value_updated(res, post, i) ==> resource_map(post) == resource_map(res).insert(res[i].0, post[i].1),
        forall|post: Seq<(u64, C)>|
            #![trigger resource_keys(post)]
            resource_value_updated(res, post, i) ==> resource_keys(post) == resource_keys(res),
{
    assert forall|post: Seq<(u64, C)>|
        #![trigger resource_map(post)]
        resource_value_updated(res, post, i) implies resource_map(post) == resource_map(res).insert(res[i].0, post[i].1) by {
        lemma_resource_update_one(res, post, i);
    }
    assert forall|post: Seq<(u64, C)>|
        #![trigger resource_keys(post)]
        resource_value_updated(res, post, i) implies resource_keys(post) == resource_keys(res) by {
        lemma_resource_update_one(res, post, i);
    }
}

proof fn lemma_resource_update_one<C>(res: Seq<(u64, C)>, post: Seq<(u64, C)>, i: int)
    requires
        resource_keys(res).no_duplicates(),
        0 <= i < res.len(),
        resource_value_updated(res, post, i),
    ensures
        resource_keys(post) == resource_keys(res),
        resource_map(post) == resource_map(res).insert(res[i].0, post[i].1),
{
    let ks0 = resource_keys(res);
    let ks = resource_keys(post);
    assert(ks =~= ks0) by {
        assert forall|j: int| 0 <= j < ks.len() implies ks[j] == ks0[j] by {
            if j != i {
                assert(post[j] == res[j]);
            }
        }
    }
    let key = res[i].0;
    assert(ks0[i] == key);
    assert(resource_map(post) =~= resource_map(res).insert(key, post[i].1)) by {
        assert forall|k: u64| #[trigger] resource_map(post).contains_key(k) implies resource_map(post)[k]
            == resource_map(res).insert(key, post[i].1)[k] by {
            let j = ks.index_of(k);
            assert(ks[j] == k);
            if k == key {
                assert(j == i);
            } else {
                assert(j != i);
                assert(post[j] == res[j]);
            }
        }
    }
}

/// Effect of one queued command on the world's contents; `pend` are the
/// entities the flush spawned for the buffer's pending handles.
pub open spec fn apply_command<C>(
    view: Map<Entity, Map<u64, C>>,
    cmd: Command<C>,
    pend: Seq<Entity>,
) -> Map<Entity, Map<u64, C>> {
    match cmd {
        Command::Spawn { .. } => view,
        Command::Insert { target, key, value } => {
            let e = match target {
                CommandTarget::Live(e) => e,
                CommandTarget::Pending(id) => pend[id as int],
            };
            if view.contains_key(e) {
                view.insert(e, view[e].insert(key, value))
            } else {
                view
            }
        },
        Command::Remove { entity, key } => {
            if view.contains_key(entity) && view[entity].contains_key(key) {
                view.insert(entity, view[entity].remove(key))
            } else {
                view
            }
        },
        Command::Despawn(e) => view.remove(e),
    }
}

/// Effect of a command list, applied in order.
pub open spec fn replay<C>(
    view: Map<Entity, Map<u64, C>>,
    cmds: Seq<Command<C>>,
    pend: Seq<Entity>,
) -> Map<Entity, Map<u64, C>>
    decreases cmds.len(),
{
    if cmds.len() == 0 {
        view
    } else {
        apply_command(replay(view, cmds.drop_last(), pend), cmds.last(), pend)
    }
}

/// `cmd` inserts component `key` into entity `e`; `pend` are the entities
/// spawned for the buffer's pending handles.
pub open spec fn inserts_into<C>(cmd: Command<C>, e: Entity, key: u64, pend: Seq<Entity>) -> bool {
    match cmd {
        Command::Insert { target, key: k, .. } => k == key && match target {
            CommandTarget::Live(t) => t == e,
            CommandTarget::Pending(id) => pend[id as int] == e,
        },
        _ => false,
    }
}

/// A queued removal sticks: once the commands have run, an entity whose
/// component `key` was queued for removal does not have that component,
/// unless a later command inserts it again.
pub proof fn lemma_replay_remove<C>(view: Map<Entity, Map<u64, C>>, cmds: Seq<Command<C>>, pend: Seq<Entity>, i: int, e: Entity, key: u64)
    requires
        0 <= i < cmds.len(),
        cmds[i] == (Command::<C>::Remove { entity: e, key: key }),
        forall|j: int| i < j < cmds.len() ==> !inserts_into(#[trigger] cmds[j], e, key, pend),
    ensures
        !(replay(view, cmds, pend).contains_key(e) && replay(view, cmds, pend)[e].contains_key(key)),
    decreases cmds.len(),
{
    let n = cmds.len() as int;
    let prev = cmds.drop_last();
    if i < n - 1 {
        assert forall|j: int| i < j < prev.len() implies !inserts_into(#[trigger] prev[j], e, key, pend) by {
            assert(prev[j] == cmds[j]);
        }
        assert(prev[i] == cmds[i]);
        lemma_replay_remove(view, prev, pend, i, e, key);
        assert(!inserts_into(cmds[n - 1], e, key, pend));
    }
}

/// The entity a command target names; `pend` are the entities spawned for
/// the buffer's pending handles.
pub open spec fn target_entity(target: CommandTarget, pend: Seq<Entity>) -> Entity {
    match target {
        CommandTarget::Live(t) => t,
        CommandTarget::Pending(id) => pend[id as int],
    }
}

/// `cmd` removes component `key` from entity `e` or despawns `e`.
pub open spec fn clears<C>(cmd: Command<C>, e: Entity, key: u64) -> bool {
    match cmd {
        Command::Remove { entity, key: k } => entity == e && k == key,
        Command::Despawn(d) => d == e,
        _ => false,
    }
}

/// A despawned entity stays dead: no later command brings it back.
pub proof fn lemma_replay_despawn<C>(view: Map<Entity, Map<u64, C>>, cmds: Seq<Command<C>>, pend: Seq<Entity>, i: int, e: Entity)
    requires
        0 <= i < cmds.len(),
        cmds[i] == Command::<C>::Despawn(e),
    ensures
        !replay(view, cmds, pend).contains_key(e),
    decreases cmds.len(),
{
    let n = cmds.len() as int;
    if i < n - 1 {
        assert(cmds.drop_last()[i] == cmds[i]);
        lemma_replay_despawn(view, cmds.drop_last(), pend, i, e);
    }
}

/// An entity that is never despawned stays alive.
proof fn lemma_replay_keeps<C>(view: Map<Entity, Map<u64, C>>, cmds: Seq<Command<C>>, pend: Seq<Entity>, e: Entity)
    requires
        view.contains_key(e),
        forall|j: int| 0 <= j < cmds.len() ==> #[trigger] cmds[j] != Command::<C>::Despawn(e),
    ensures
        replay(view, cmds, pend).contains_key(e),
    decreases cmds.len(),
{
    if cmds.len() > 0 {
        let prev = cmds.drop_last();
        assert forall|j: int| 0 <= j < prev.len() implies #[trigger] prev[j] != Command::<C>::Despawn(e) by {
            assert(prev[j] == cmds[j]);
        }
        lemma_replay_keeps(view, prev, pend, e);
        assert(cmds[cmds.len() - 1] != Command::<C>::Despawn(e));
    }
}

/// A queued insert takes effect and lasts: when its entity is alive, never
/// despawned, and no later command removes or rewrites that component, the
/// entity ends with the inserted value.
pub proof fn lemma_replay_insert<C>(
    view: Map<Entity, Map<u64, C>>,
    cmds: Seq<Command<C>>,
    pend: Seq<Entity>,
    i: int,
    target: CommandTarget,
    key: u64,
    value: C,
)
    requires
        0 <= i < cmds.len(),
        cmds[i] == (Command::<C>::Insert { target: target, key: key, value: value }),
        view.contains_key(target_entity(target, pend)),
        forall|j: int| 0 <= j < cmds.len() ==> #[trigger] cmds[j] != Command::<C>::Despawn(target_entity(target, pend)),
        forall|j: int| i < j < cmds.len() ==> !inserts_into(#[trigger] cmds[j], target_entity(target, pend), key, pend)
            && !clears(cmds[j], target_entity(target, pend), key),
    ensures
        replay(view, cmds, pend).contains_key(target_entity(target, pend)),
        replay(view, cmds, pend)[target_entity(target, pend)].contains_key(key),
        replay(view, cmds, pend)[target_entity(target, pend)][key] == value,
    decreases cmds.len(),
{
    let e = target_entity(target, pend);
    let n = cmds.len() as int;
    let prev = cmds.drop_last();
    assert forall|j: int| 0 <= j < prev.len() implies #[trigger] prev[j] != Command::<C>::Despawn(e) by {
        assert(prev[j] == cmds[j]);
    }
    lemma_replay_keeps(view, prev, pend, e);
    if i < n - 1 {
        assert forall|j: int| i < j < prev.len() implies !inserts_into(#[trigger] prev[j], e, key, pend) && !clears(prev[j], e, key) by {
            assert(prev[j] == cmds[j]);
        }
        assert(prev[i] == cmds[i]);
        lemma_replay_insert(view, prev, pend, i, target, key, value);
        assert(!inserts_into(cmds[n - 1], e, key, pend) && !clears(cmds[n - 1], e, key));
        assert(cmds[n - 1] != Command::<C>::Despawn(e));
    }
}

/// `view` with every entity of `pend` added without components.
pub open spec fn with_spawned<C>(view: Map<Entity, Map<u64, C>>, pend: Seq<Entity>) -> Map<Entity, Map<u64, C>> {
    view.union_prefer_right(Map::new(|e: Entity| pend.contains(e), |e: Entity| Map::<u64, C>::empty()))
}

/// A prefix never holds more spawns than the whole list.
pub proof fn lemma_spawn_count_prefix<C>(cmds: Seq<Command<C>>, i: int)
    requires
        0 <= i <= cmds.len(),
    ensures
        spawn_count(cmds.take(i)) <= spawn_count(cmds),
    decreases cmds.len(),
{
    if i < cmds.len() {
        assert(cmds.drop_last().take(i) =~= cmds.take(i));
        lemma_spawn_count_prefix(cmds.drop_last(), i);
    } else {
        assert(cmds.take(i) =~= cmds);
    }
}

/// Entity/component/resource container. Component and resource kinds are
/// identified by `u64` keys; their values have type `C`.
pub struct World<C> {
    archetypes: Archetypes<C>,
    resources: Vec<(u64, C)>,
}

impl<C> World<C> {
    /// Every live entity with its components by key.
    pub closed spec fn view(&self) -> Map<Entity, Map<u64, C>> {
        self.archetypes.view()
    }

    /// Resources by key.
    pub closed spec fn resources_view(&self) -> Map<u64, C> {
        resource_map(self.resources@)
    }

    /// Internal invariant.
    pub closed spec fn wf(&self) -> bool {
        &&& self.archetypes.wf()
        &&& resource_keys(self.resources@).no_duplicates()
    }

    /// How many more entities can be allocated before slot indices run out.
    pub closed spec fn spawn_room(&self) -> int {
        self.archetypes.spawn_room()
    }

    /// How many more archetypes can be created before their ids run out.
    pub closed spec fn archetype_room(&self) -> int {
        u32::MAX - 1 - self.archetypes.arch_count()
    }

    /// The generation stored for slot `slot`, for slots handed out so far:
    /// a handle of that slot is live only with this generation.
    pub closed spec fn slot_generation(&self, slot: int) -> Option<u32> {
        self.archetypes.slot_generation(slot)
    }

    /// Archetype id and row of a live entity: queries list entities in
    /// this order, and entities of one archetype share their component keys.
    pub closed spec fn location(&self, entity: Entity) -> (int, int) {
        self.archetypes.place_of(entity)
    }

    /// Finitely many entities are alive.
    pub proof fn lemma_view_finite(&self)
        requires
            self.wf(),
        ensures
            self.view().dom().finite(),
    {
        self.archetypes.lemma_live_count();
    }

    /// A live handle names its slot's current generation.
    pub proof fn lemma_live_generation(&self, entity: Entity)
        requires
            self.wf(),
            self.view().contains_key(entity),
        ensures
            self.slot_generation(entity.id_spec()) == Some(entity.gen()),
    {
    }

    /// Empty world.
    pub fn new() -> (w: Self)
        ensures
            w.wf(),
            w.view() == Map::<Entity, Map<u64, C>>::empty(),
            w.resources_view() == Map::<u64, C>::empty(),
            w.spawn_room() == u32::MAX,
            w.archetype_room() == u32::MAX - 2,
    {
        let w = World { archetypes: Archetypes::new(), resources: Vec::new() };
        assert(w.resources_view() =~= Map::<u64, C>::empty());
        w
    }

    /// Spawn an entity with no components.
    pub fn spawn(&mut self) -> (entity: Entity)
        requires
            old(self).wf(),
            old(self).spawn_room() > 0,
        ensures
            final(self).wf(),
            !old(self).view().contains_key(entity),
            final(self).view() == old(self).view().insert(entity, Map::empty()),
            final(self).resources_view() == old(self).resources_view(),
            final(self).spawn_room() == old(self).spawn_room() - 1,
            final(self).archetype_room() == old(self).archetype_room(),
            final(self).slot_generation(entity.id_spec()) == Some(entity.gen()),
            old(self).slot_generation(entity.id_spec()) is Some ==> old(self).slot_generation(entity.id_spec()) == Some(entity.gen()),
            forall|s: int| s != entity.id_spec() ==> #[trigger] final(self).slot_generation(s) == old(self).slot_generation(s),
    {
        self.archetypes.spawn()
    }

    /// Despawn an entity; a dead entity is a no-op, so deferred despawns are
    /// idempotent.
    pub fn despawn(&mut self, entity: Entity)
        requires
            old(self).wf(),
        ensures
            final(self).wf(),
            final(self).view() == old(self).view().remove(entity),
            final(self).resources_view() == old(self).resources_view(),
            final(self).spawn_room() == old(self).spawn_room() + if old(self).view().contains_key(entity) { 1int } else { 0 },
            final(self).archetype_room() == old(self).archetype_room(),
            old(self).view().contains_key(entity) ==> final(self).slot_generation(entity.id_spec())
                == Some(vstd::wrapping::u32_specs::wrapping_add(entity.gen(), 1)),
            forall|s: int| (s != entity.id_spec() || !old(self).view().contains_key(entity))
                ==> #[trigger] final(self).slot_generation(s) == old(self).slot_generation(s),
    {
        if self.is_alive(entity) {
            self.archetypes.despawn(entity);
        } else {
            assert(self.view() =~= self.view().remove(entity));
        }
    }

    /// The entity is alive.
    pub fn is_alive(&self, entity: Entity) -> (r: bool)
        ensures
            r == self.view().contains_key(entity),
    {
        self.archetypes.entities.is_alive(entity)
    }

    /// Number of slots in use. O(1).
    pub fn entity_count(&self) -> (r: u32)
        requires
            self.wf(),
        ensures
            r == self.view().dom().len(),
    {
        proof {
            self.archetypes.lemma_live_count();
        }
        self.archetypes.entities.live_count()
    }

    /// Attach or overwrite component `key`; the entity must be alive.
    pub fn insert(&mut self, entity: Entity, key: u64, component: C)
        requires
            old(self).wf(),
            old(self).view().contains_key(entity),
            old(self).archetype_room() > 0,
        ensures
            final(self).wf(),
            final(self).view() == old(self).view().insert(entity, old(self).view()[entity].insert(key, component)),
            final(self).resources_view() == old(self).resources_view(),
            final(self).spawn_room() == old(self).spawn_room(),
            old(self).archetype_room() - 1 <= final(self).archetype_room() <= old(self).archetype_room(),
    {
        self.archetypes.insert(entity, key, component);
    }

    /// Detach component `key`, returning it; `None` when the entity is dead or
    /// lacks it.
    pub fn remove_component(&mut self, entity: Entity, key: u64) -> (r: Option<C>)
        requires
            old(self).wf(),
            old(self).archetype_room() > 0,
        ensures
            final(self).wf(),
            final(self).resources_view() == old(self).resources_view(),
            final(self).spawn_room() == old(self).spawn_room(),
            old(self).archetype_room() - 1 <= final(self).archetype_room() <= old(self).archetype_room(),
            match r {
                Some(v) => {
                    &&& old(self).view().contains_key(entity)
                    &&& old(self).view()[entity].contains_key(key)
                    &&& v == old(self).view()[entity][key]
                    &&& final(self).view() == old(self).view().insert(entity, old(self).view()[entity].remove(key))
                },
                None => {
                    &&& !(old(self).view().contains_key(entity) && old(self).view()[entity].contains_key(key))
                    &&& final(self).view() == old(self).view()
                },
            },
    {
        self.archetypes.remove(entity, key)
    }

    /// Component `key` of a live entity.
    pub fn get(&self, entity: Entity, key: u64) -> (r: Option<&C>)
        requires
            self.wf(),
        ensures
            match r {
                Some(v) => self.view().contains_key(entity) && self.view()[entity].contains_key(key)
                    && *v == self.view()[entity][key],
                None => !(self.view().contains_key(entity) && self.view()[entity].contains_key(key)),
            },
    {
        self.archetypes.get(entity, key)
    }

    /// Mutable access to component `key` of a live entity.
    pub fn get_mut(&mut self, entity: Entity, key: u64) -> (r: Option<&mut C>)
        requires
            old(self).wf(),
        ensures
            (r is Some) == (old(self).view().contains_key(entity) && old(self).view()[entity].contains_key(key)),
            r matches Some(v) ==> *v == old(self).view()[entity][key],
            r matches Some(v) ==> final(self).view() == old(self).view().insert(entity, old(self).view()[entity].insert(key, *final(v))),
            r is None ==> final(self).view() == old(self).view(),
            final(self).wf(),
            final(self).resources_view() == old(self).resources_view(),
            final(self).spawn_room() == old(self).spawn_room(),
            final(self).archetype_room() == old(self).archetype_room(),
    {
        self.archetypes.get_mut(entity, key)
    }

    /// The live entity has component `key`.
    pub fn has(&self, entity: Entity, key: u64) -> (r: bool)
        requires
            self.wf(),
        ensures
            r == (self.view().contains_key(entity) && self.view()[entity].contains_key(key)),
    {
        self.archetypes.has(entity, key)
    }

    /// Position of resource `key` in the list.
    fn resource_index(&self, key: u64) -> (r: Option<usize>)
        requires
            self.wf(),
        ensures
            r is Some <==> self.resources_view().contains_key(key),
            r matches Some(i) ==> i < self.resources@.len() && self.resources@[i as int].0 == key
                && resource_keys(self.resources@).index_of(key) == i,
    {
        let mut i: usize = 0;
        while i < self.resources.len()
            invariant
                i <= self.resources@.len(),
                self.wf(),
                forall|j: int| 0 <= j < i ==> self.resources@[j].0 != key,
            decreases self.resources@.len() - i,
        {
            if self.resources[i].0 == key {
                proof {
                    let ks = resource_keys(self.resources@);
                    assert(ks[i as int] == key);
                    assert(ks.contains(key));
                    let j = ks.index_of(key);
                    assert(ks[j] == key);
                    if j != i {
                        assert(ks.no_duplicates());
                    }
                }
                return Some(i);
            }
            i += 1;
        }
        proof {
            let ks = resource_keys(self.resources@);
            if ks.contains(key) {
                let j = choose|j: int| 0 <= j < ks.len() && ks[j] == key;
                assert(self.resources@[j].0 == key);
            }
        }
        None
    }

    /// Insert or replace resource `key`.
    pub fn insert_resource(&mut self, key: u64, resource: C)
        requires
            old(self).wf(),
        ensures
            final(self).wf(),
            final(self).resources_view() == old(self).resources_view().insert(key, resource),
            final(self).view() == old(self).view(),
            final(self).spawn_room() == old(self).spawn_room(),
            final(self).archetype_room() == old(self).archetype_room(),
    {
        let ghost pre = self.resources@;
        match self.resource_index(key) {
            Some(i) => {
                self.resources.set(i, (key, resource));
                proof {
                    let ks0 = resource_keys(pre);
                    let ks = resource_keys(self.resources@);
                    assert(ks =~= ks0);
                    assert(self.resources_view() =~= resource_map(pre).insert(key, resource)) by {
                        assert forall|k: u64| #[trigger] self.resources_view().contains_key(k) implies self.resources_view()[k]
                            == resource_map(pre).insert(key, resource)[k] by {
                            let j = ks.index_of(k);
                            assert(ks[j] == k);
                            if k != key {
                                assert(j != i);
                            }
                        }
                    }
                }
            },
            None => {
                self.resources.push((key, resource));
                proof {
                    let ks0 = resource_keys(pre);
                    let ks = resource_keys(self.resources@);
                    assert(ks =~= ks0.push(key));
                    assert(!ks0.contains(key));
                    assert(ks.no_duplicates()) by {
                        assert forall|a: int, b: int| 0 <= a < ks.len() && 0 <= b < ks.len() && a != b implies ks[a] != ks[b] by {
                            if a < ks0.len() && b < ks0.len() {
                            } else if a < ks0.len() {
                                assert(ks0.contains(ks0[a]));
                            } else {
                                assert(ks0.contains(ks0[b]));
                            }
                        }
                    }
                    assert(self.resources_view() =~= resource_map(pre).insert(key, resource)) by {
                        assert forall|k: u64| #[trigger] self.resources_view().contains_key(k) == resource_map(pre).insert(key, resource).contains_key(k) by {
                            if ks0.contains(k) {
                                let j = choose|j: int| 0 <= j < ks0.len() && ks0[j] == k;
                                assert(ks[j] == k);
                            }
                            if ks.contains(k) && k != key {
                                let j = choose|j: int| 0 <= j < ks.len() && ks[j] == k;
                                assert(j < ks0.len());
                                assert(ks0[j] == k);
                            }
                            if k == key {
                                assert(ks[ks0.len() as int] == key);
                            }
                        }
                        assert forall|k: u64| #[trigger] self.resources_view().contains_key(k) implies self.resources_view()[k]
                            == resource_map(pre).insert(key, resource)[k] by {
                            let j = ks.index_of(k);
                            assert(ks[j] == k);
                            if k == key {
                                assert(ks[ks0.len() as int] == key);
                                assert(j == ks0.len());
                            } else {
                                assert(j < ks0.len()) by {
                                    if j == ks0.len() {
                                        assert(ks[j] == key);
                                    }
                                }
                                assert(ks0[j] == k);
                                assert(ks0.contains(k));
                                let j0 = ks0.index_of(k);
                                assert(ks0[j0] == k);
                                assert(ks[j0] == k);
                                assert(j0 == j);
                            }
                        }
                    }
                }
            },
        }
    }

    /// Resource `key`.
    pub fn get_resource(&self, key: u64) -> (r: Option<&C>)
        requires
            self.wf(),
        ensures
            match r {
                Some(v) => self.resources_view().contains_key(key) && *v == self.resources_view()[key],
                None => !self.resources_view().contains_key(key),
            },
    {
        match self.resource_index(key) {
            Some(i) => Some(&self.resources[i].1),
            None => None,
        }
    }

    /// Resource `key` is present.
    pub fn has_resource(&self, key: u64) -> (r: bool)
        requires
            self.wf(),
        ensures
            r == self.resources_view().contains_key(key),
    {
        match self.resource_index(key) {
            Some(_) => true,
            None => false,
        }
    }

    /// Mutable access to resource `key`.
    pub fn get_resource_mut(&mut self, key: u64) -> (r: Option<&mut C>)
        requires
            old(self).wf(),
        ensures
            (r is Some) == old(self).resources_view().contains_key(key),
            r matches Some(v) ==> *v == old(self).resources_view()[key],
            r matches Some(v) ==> final(self).resources_view() == old(self).resources_view().insert(key, *final(v)),
            r is None ==> final(self).resources_view() == old(self).resources_view(),
            final(self).wf(),
            final(self).view() == old(self).view(),
            final(self).spawn_room() == old(self).spawn_room(),
            final(self).archetype_room() == old(self).archetype_room(),
    {
        match self.resource_index(key) {
            Some(i) => {
                proof {
                    lemma_resource_update(self.resources@, i as int);
                }
                let slot = &mut self.resources[i];
                Some(&mut slot.1)
            },
            None => None,
        }
    }

    /// Remove resource `key`, returning it.
    pub fn remove_resource(&mut self, key: u64) -> (r: Option<C>)
        requires
            old(self).wf(),
        ensures
            final(self).wf(),
            match r {
                Some(v) => old(self).resources_view().contains_key(key) && v == old(self).resources_view()[key],
                None => !old(self).resources_view().contains_key(key),
            },
            final(self).resources_view() == old(self).resources_view().remove(key),
            final(self).view() == old(self).view(),
            final(self).spawn_room() == old(self).spawn_room(),
            final(self).archetype_room() == old(self).archetype_room(),
    {
        let ghost pre = self.resources@;
        match self.resource_index(key) {
            Some(i) => {
                let (_, v) = self.resources.remove(i);
                proof {
                    let ks0 = resource_keys(pre);
                    let ks = resource_keys(self.resources@);
                    assert(ks =~= ks0.remove(i as int));
                    assert(ks.no_duplicates()) by {
                        assert forall|a: int, b: int| 0 <= a < ks.len() && 0 <= b < ks.len() && a != b implies ks[a] != ks[b] by {
                            let a0 = if a < i { a } else { a + 1 };
                            let b0 = if b < i { b } else { b + 1 };
                            assert(ks[a] == ks0[a0]);
                            assert(ks[b] == ks0[b0]);
                        }
                    }
                    assert(self.resources_view() =~= resource_map(pre).remove(key)) by {
                        assert forall|k: u64| #[trigger] self.resources_view().contains_key(k) == resource_map(pre).remove(key).contains_key(k) by {
                            if ks.contains(k) {
                                let j = choose|j: int| 0 <= j < ks.len() && ks[j] == k;
                                let j0 = if j < i { j } else { j + 1 };
                                assert(ks0[j0] == k);
                                assert(j0 != i);
                            }
                            if ks0.contains(k) && k != key {
                                let j0 = choose|j: int| 0 <= j < ks0.len() && ks0[j] == k;
                                assert(j0 != i);
                                let j = if j0 < i { j0 } else { j0 - 1 };
                                assert(ks[j] == k);
                            }
                        }
                        assert forall|k: u64| #[trigger] self.resources_view().contains_key(k) implies self.resources_view()[k]
                            == resource_map(pre).remove(key)[k] by {
                            let j = ks.index_of(k);
                            assert(ks[j] == k);
                            let j0 = if j < i { j } else { j + 1 };
                            assert(ks0[j0] == k);
                            assert(ks0.contains(k));
                            let jj = ks0.index_of(k);
                            assert(ks0[jj] == k);
                            assert(jj == j0);
                        }
                    }
                }
                Some(v)
            },
            None => {
                proof {
                    assert(self.resources_view() =~= resource_map(pre).remove(key));
                }
                None
            },
        }
    }

    /// Entities having every key in `keys`, in archetype/row order (the order
    /// of all queries).
    pub closed spec fn query_order(&self, keys: Seq<u64>) -> Seq<Entity> {
        self.archetypes.query_order(keys)
    }

    /// Queries list each live entity having every requested key exactly once,
    /// and nothing else, by archetype id and then row.
    pub proof fn lemma_query_order(&self, keys: Seq<u64>)
        requires
            self.wf(),
        ensures
            self.query_order(keys).no_duplicates(),
            forall|i: int| 0 <= i < self.query_order(keys).len() ==> {
                let e = #[trigger] self.query_order(keys)[i];
                &&& self.view().contains_key(e)
                &&& forall|k: int| 0 <= k < keys.len() ==> self.view()[e].contains_key(#[trigger] keys[k])
            },
            forall|e: Entity| #[trigger] self.view().contains_key(e) && (forall|k: int| 0 <= k < keys.len()
                ==> self.view()[e].contains_key(#[trigger] keys[k])) ==> self.query_order(keys).contains(e),
            forall|i: int, j: int| 0 <= i < j < self.query_order(keys).len() ==> place_before(
                self.location(#[trigger] self.query_order(keys)[i]),
                self.location(#[trigger] self.query_order(keys)[j]),
            ),
            forall|e: Entity, f: Entity| #[trigger] self.view().contains_key(e) && #[trigger] self.view().contains_key(f)
                && self.location(e).0 == self.location(f).0 ==> self.view()[e].dom() == self.view()[f].dom(),
    {
        self.archetypes.lemma_query_order(keys);
        self.archetypes.lemma_query_sorted(keys);
    }

    /// `(entity, component)` for every entity with `key`, in archetype/row order.
    pub fn query(&self, key: u64) -> (r: Vec<(Entity, &C)>)
        requires
            self.wf(),
        ensures
            r@.len() == self.query_order(seq![key]).len(),
            forall|i: int| 0 <= i < r@.len() ==> {
                &&& (#[trigger] r@[i]).0 == self.query_order(seq![key])[i]
                &&& *r@[i].1 == self.view()[r@[i].0][key]
            },
    {
        self.archetypes.query1(key)
    }

    /// Entities with `key`; use before mixed mutable access.
    pub fn query_entities(&self, key: u64) -> (r: Vec<Entity>)
        requires
            self.wf(),
        ensures
            r@ == self.query_order(seq![key]),
    {
        let mut keys = Vec::new();
        keys.push(key);
        proof { assert(keys@ =~= seq![key]); }
        self.archetypes.query_entities_with(&keys)
    }

    /// `(entity, a, b)` for every entity with both keys.
    pub fn query2(&self, a: u64, b: u64) -> (r: Vec<(Entity, &C, &C)>)
        requires
            self.wf(),
        ensures
            r@.len() == self.query_order(seq![a, b]).len(),
            forall|i: int| 0 <= i < r@.len() ==> {
                &&& (#[trigger] r@[i]).0 == self.query_order(seq![a, b])[i]
                &&& *r@[i].1 == self.view()[r@[i].0][a]
                &&& *r@[i].2 == self.view()[r@[i].0][b]
            },
    {
        self.archetypes.query2(a, b)
    }

    /// Entities with both keys; use before mutable access.
    pub fn query2_entities(&self, a: u64, b: u64) -> (r: Vec<Entity>)
        requires
            self.wf(),
        ensures
            r@ == self.query_order(seq![a, b]),
    {
        let mut keys = Vec::new();
        keys.push(a);
        keys.push(b);
        proof { assert(keys@ =~= seq![a, b]); }
        self.archetypes.query_entities_with(&keys)
    }

    /// `(entity, a, b, c)` for every entity with all three keys.
    pub fn query3(&self, a: u64, b: u64, c: u64) -> (r: Vec<(Entity, &C, &C, &C)>)
        requires
            self.wf(),
        ensures
            r@.len() == self.query_order(seq![a, b, c]).len(),
            forall|i: int| 0 <= i < r@.len() ==> {
                &&& (#[trigger] r@[i]).0 == self.query_order(seq![a, b, c])[i]
                &&& *r@[i].1 == self.view()[r@[i].0][a]
                &&& *r@[i].2 == self.view()[r@[i].0][b]
                &&& *r@[i].3 == self.view()[r@[i].0][c]
            },
    {
        self.archetypes.query3(a, b, c)
    }

    /// Entities with all three keys; use before mutable access.
    pub fn query3_entities(&self, a: u64, b: u64, c: u64) -> (r: Vec<Entity>)
        requires
            self.wf(),
        ensures
            r@ == self.query_order(seq![a, b, c]),
    {
        let mut keys = Vec::new();
        keys.push(a);
        keys.push(b);
        keys.push(c);
        proof { assert(keys@ =~= seq![a, b, c]); }
        self.archetypes.query_entities_with(&keys)
    }

    /// Replace component `key` of every entity having it by `f(entity,
    /// &component)`, in archetype/row order.
    pub fn query_mut<F: Fn(Entity, &C) -> C>(&mut self, key: u64, f: F)
        requires
            old(self).wf(),
            forall|e: Entity, v: &C| #[trigger] f.requires((e, v)),
        ensures
            final(self).wf(),
            final(self).resources_view() == old(self).resources_view(),
            final(self).spawn_room() == old(self).spawn_room(),
            final(self).archetype_room() == old(self).archetype_room(),
            final(self).view().dom() == old(self).view().dom(),
            forall|e: Entity| #[trigger] old(self).view().contains_key(e) ==> if old(self).view()[e].contains_key(key) {
                &&& final(self).view()[e].dom() == old(self).view()[e].dom()
                &&& forall|k: u64| #[trigger] old(self).view()[e].contains_key(k) && k != key ==> final(self).view()[e][k] == old(self).view()[e][k]
                &&& f.ensures((e, &old(self).view()[e][key]), final(self).view()[e][key])
            } else {
                final(self).view()[e] == old(self).view()[e]
            },
    {
        self.archetypes.update1(key, f);
    }

    /// Replace components `a` and `b` of every entity having both by the
    /// results of `f(entity, &a, &b)`; the keys must differ.
    pub fn query2_mut<F: Fn(Entity, &C, &C) -> (C, C)>(&mut self, a: u64, b: u64, f: F)
        requires
            old(self).wf(),
            a != b,
            forall|e: Entity, v0: &C, v1: &C| #[trigger] f.requires((e, v0, v1)),
        ensures
            final(self).wf(),
            final(self).resources_view() == old(self).resources_view(),
            final(self).spawn_room() == old(self).spawn_room(),
            final(self).archetype_room() == old(self).archetype_room(),
            final(self).view().dom() == old(self).view().dom(),
            forall|e: Entity| #[trigger] old(self).view().contains_key(e) ==> if old(self).view()[e].contains_key(a)
                && old(self).view()[e].contains_key(b) {
                &&& final(self).view()[e].dom() == old(self).view()[e].dom()
                &&& forall|k: u64| #[trigger] old(self).view()[e].contains_key(k) && k != a && k != b ==> final(self).view()[e][k] == old(self).view()[e][k]
                &&& f.ensures((e, &old(self).view()[e][a], &old(self).view()[e][b]), (final(self).view()[e][a], final(self).view()[e][b]))
            } else {
                final(self).view()[e] == old(self).view()[e]
            },
    {
        self.archetypes.update2(a, b, f);
    }

    /// Replace components `a`, `b` and `c` of every entity having all three by
    /// the results of `f(entity, &a, &b, &c)`; the keys must differ.
    pub fn query3_mut<F: Fn(Entity, &C, &C, &C) -> (C, C, C)>(&mut self, a: u64, b: u64, c: u64, f: F)
        requires
            old(self).wf(),
            a != b && a != c && b != c,
            forall|e: Entity, v0: &C, v1: &C, v2: &C| #[trigger] f.requires((e, v0, v1, v2)),
        ensures
            final(self).wf(),
            final(self).resources_view() == old(self).resources_view(),
            final(self).spawn_room() == old(self).spawn_room(),
            final(self).archetype_room() == old(self).archetype_room(),
            final(self).view().dom() == old(self).view().dom(),
            forall|e: Entity| #[trigger] old(self).view().contains_key(e) ==> if old(self).view()[e].contains_key(a)
                && old(self).view()[e].contains_key(b) && old(self).view()[e].contains_key(c) {
                &&& final(self).view()[e].dom() == old(self).view()[e].dom()
                &&& forall|k: u64| #[trigger] old(self).view()[e].contains_key(k) && k != a && k != b && k != c ==> final(self).view()[e][k] == old(self).view()[e][k]
                &&& f.ensures((e, &old(self).view()[e][a], &old(self).view()[e][b], &old(self).view()[e][c]), (final(self).view()[e][a], final(self).view()[e][b], final(self).view()[e][c]))
            } else {
                final(self).view()[e] == old(self).view()[e]
            },
    {
        self.archetypes.update3(a, b, c, f);
    }

    /// Flush queued commands: first spawn one entity per pending handle, then
    /// replay every command in order. Inserts and removals on dead entities
    /// and despawns of dead entities are no-ops.
    #[verifier::rlimit(40)]
    pub fn flush(&mut self, buffer: CommandBuffer<C>)
        requires
            old(self).wf(),
            buffer.wf(),
            old(self).spawn_room() >= buffer.pending_count(),
            old(self).archetype_room() >= buffer.commands().len(),
        ensures
            final(self).wf(),
            final(self).resources_view() == old(self).resources_view(),
            exists|pend: Seq<Entity>| {
                &&& pend.len() == buffer.pending_count()
                &&& pend.no_duplicates()
                &&& forall|i: int| 0 <= i < pend.len() ==> !old(self).view().contains_key(#[trigger] pend[i])
                &&& final(self).view() == replay(with_spawned(old(self).view(), pend), buffer.commands(), pend)
                &&& forall|i: int| 0 <= i < buffer.commands().len() ==> match #[trigger] buffer.commands()[i] {
                    Command::Remove { entity, key } => (forall|j: int| i < j < buffer.commands().len()
                        ==> !inserts_into(#[trigger] buffer.commands()[j], entity, key, pend))
                        ==> !(final(self).view().contains_key(entity) && final(self).view()[entity].contains_key(key)),
                    Command::Despawn(e) => !final(self).view().contains_key(e),
                    Command::Insert { target, key, value } => (
                        with_spawned(old(self).view(), pend).contains_key(target_entity(target, pend))
                        && (forall|j: int| 0 <= j < buffer.commands().len()
                            ==> #[trigger] buffer.commands()[j] != Command::<C>::Despawn(target_entity(target, pend)))
                        && (forall|j: int| i < j < buffer.commands().len()
                            ==> !inserts_into(#[trigger] buffer.commands()[j], target_entity(target, pend), key, pend)
                            && !clears(buffer.commands()[j], target_entity(target, pend), key))
                    ) ==> final(self).view().contains_key(target_entity(target, pend))
                        && final(self).view()[target_entity(target, pend)].contains_key(key)
                        && final(self).view()[target_entity(target, pend)][key] == value,
                    _ => true,
                }
            },
    {
        let ghost cmds = buffer.commands();
        let ghost count = buffer.pending_count();
        proof {
            use_wf(&buffer);
        }
        let (mut commands, _pending_count) = buffer.into_commands();
        let mut pending: Vec<Entity> = Vec::new();
        let n = commands.len();
        let mut i: usize = 0;
        while i < n
            invariant
                i <= n,
                n == cmds.len(),
                commands@ == cmds,
                commands_wf(cmds, count),
                self.wf(),
                pending@.len() == spawn_count(cmds.take(i as int)),
                old(self).spawn_room() >= count,
                self.spawn_room() == old(self).spawn_room() - pending@.len(),
                self.archetype_room() == old(self).archetype_room(),
                self.resources_view() == old(self).resources_view(),
                pending@.no_duplicates(),
                forall|k: int| 0 <= k < pending@.len() ==> !old(self).view().contains_key(#[trigger] pending@[k]),
                self.view() == with_spawned(old(self).view(), pending@),
            decreases n - i,
        {
            proof {
                assert(cmds.take(i as int + 1).drop_last() =~= cmds.take(i as int));
                assert(cmds.take(i as int + 1).last() == cmds[i as int]);
                lemma_spawn_count_prefix(cmds, i as int + 1);
            }
            let is_spawn = match &commands[i] {
                Command::Spawn { .. } => true,
                _ => false,
            };
            if is_spawn {
                let ghost pre_view = self.view();
                let ghost pre_pend = pending@;
                let e = self.spawn();
                pending.push(e);
                proof {
                    assert forall|k: int| 0 <= k < pre_pend.len() implies pre_pend[k] != e by {
                        assert(pre_view.contains_key(pre_pend[k]));
                    }
                    assert(pending@.no_duplicates()) by {
                        assert forall|a: int, b: int| 0 <= a < pending@.len() && 0 <= b < pending@.len() && a != b implies pending@[a] != pending@[b] by {
                            if a < pre_pend.len() && b < pre_pend.len() {
                                assert(pending@[a] == pre_pend[a] && pending@[b] == pre_pend[b]);
                            } else if a < pre_pend.len() {
                                assert(pending@[a] == pre_pend[a]);
                            } else {
                                assert(pending@[b] == pre_pend[b]);
                            }
                        }
                    }
                    assert(!old(self).view().contains_key(e));
                    assert(self.view() =~= with_spawned(old(self).view(), pending@)) by {
                        assert forall|x: Entity| #[trigger] pending@.contains(x) <==> (pre_pend.contains(x) || x == e) by {
                            if pending@.contains(x) {
                                let k = choose|k: int| 0 <= k < pending@.len() && pending@[k] == x;
                                if k < pre_pend.len() {
                                    assert(pre_pend[k] == x);
                                }
                            }
                            if pre_pend.contains(x) {
                                let k = choose|k: int| 0 <= k < pre_pend.len() && pre_pend[k] == x;
                                assert(pending@[k] == x);
                            }
                            if x == e {
                                assert(pending@[pre_pend.len() as int] == e);
                            }
                        }
                    }
                }
            }
            i += 1;
        }
        proof {
            assert(cmds.take(n as int) =~= cmds);
        }
        let ghost pend = pending@;
        let ghost start = self.view();
        let mut rev: Vec<Command<C>> = Vec::new();
        while commands.len() > 0
            invariant
                commands@.len() + rev@.len() == cmds.len(),
                commands@ == cmds.take(commands@.len() as int),
                forall|k: int| 0 <= k < rev@.len() ==> #[trigger] rev@[k] == cmds[cmds.len() - 1 - k],
            decreases commands@.len(),
        {
            let c = commands.pop().unwrap();
            rev.push(c);
            proof {
                assert(commands@ =~= cmds.take(commands@.len() as int));
            }
        }
        let mut k: usize = 0;
        while rev.len() > 0
            invariant
                k + rev@.len() == cmds.len(),
                cmds.len() == n,
                forall|j: int| 0 <= j < rev@.len() ==> #[trigger] rev@[j] == cmds[cmds.len() - 1 - j],
                commands_wf(cmds, count),
                pend.len() == count,
                pending@ == pend,
                self.wf(),
                self.resources_view() == old(self).resources_view(),
                self.archetype_room() >= rev@.len(),
                self.view() == replay(start, cmds.take(k as int), pend),
            decreases rev@.len(),
        {
            let cmd = rev.pop().unwrap();
            proof {
                assert(cmd == cmds[k as int]);
                assert(cmds.take(k as int + 1).drop_last() =~= cmds.take(k as int));
                assert(cmds.take(k as int + 1).last() == cmds[k as int]);
            }
            match cmd {
                Command::Spawn { .. } => {},
                Command::Insert { target, key, value } => {
                    let entity = match target {
                        CommandTarget::Live(e) => e,
                        CommandTarget::Pending(id) => {
                            proof {
                                assert(cmds[k as int] == cmd);
                            }
                            pending[id as usize]
                        },
                    };
                    if self.is_alive(entity) {
                        self.insert(entity, key, value);
                    }
                },
                Command::Remove { entity, key } => {
                    let _ = self.remove_component(entity, key);
                },
                Command::Despawn(entity) => {
                    self.despawn(entity);
                },
            }
            k += 1;
        }
        proof {
            assert(cmds.take(k as int) =~= cmds);
            assert forall|i: int| 0 <= i < cmds.len() implies match #[trigger] cmds[i] {
                Command::Remove { entity, key } => (forall|j: int| i < j < cmds.len()
                    ==> !inserts_into(#[trigger] cmds[j], entity, key, pend))
                    ==> !(self.view().contains_key(entity) && self.view()[entity].contains_key(key)),
                Command::Despawn(e) => !self.view().contains_key(e),
                Command::Insert { target, key, value } => (
                    start.contains_key(target_entity(target, pend))
                    && (forall|j: int| 0 <= j < cmds.len() ==> #[trigger] cmds[j] != Command::<C>::Despawn(target_entity(target, pend)))
                    && (forall|j: int| i < j < cmds.len() ==> !inserts_into(#[trigger] cmds[j], target_entity(target, pend), key, pend)
                        && !clears(cmds[j], target_entity(target, pend), key))
                ) ==> self.view().contains_key(target_entity(target, pend))
                    && self.view()[target_entity(target, pend)].contains_key(key)
                    && self.view()[target_entity(target, pend)][key] == value,
                _ => true,
            } by {
                match cmds[i] {
                    Command::Remove { entity, key } => {
                        if forall|j: int| i < j < cmds.len() ==> !inserts_into(#[trigger] cmds[j], entity, key, pend) {
                            lemma_replay_remove(start, cmds, pend, i, entity, key);
                        }
                    },
                    Command::Despawn(e) => {
                        lemma_replay_despawn(start, cmds, pend, i, e);
                    },
                    Command::Insert { target, key, value } => {
                        if start.contains_key(target_entity(target, pend))
                            && (forall|j: int| 0 <= j < cmds.len() ==> #[trigger] cmds[j] != Command::<C>::Despawn(target_entity(target, pend)))
                            && (forall|j: int| i < j < cmds.len() ==> !inserts_into(#[trigger] cmds[j], target_entity(target, pend), key, pend)
                                && !clears(cmds[j], target_entity(target, pend), key)) {
                            lemma_replay_insert(start, cmds, pend, i, target, key, value);
                        }
                    },
                    _ => {},
                }
            }
        }
    }
}


impl<C> Default for World<C> {
    fn default() -> (w: Self)
        ensures
            w.wf(),
            w.view() == Map::<Entity, Map<u64, C>>::empty(),
            w.resources_view() == Map::<u64, C>::empty(),
    {
        World::new()
    }
}

} // verus!
