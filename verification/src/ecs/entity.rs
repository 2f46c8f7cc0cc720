//! Generational entity handles and the free-list slot allocator.

use vstd::prelude::*;

use crate::text::{decimal, push_decimal};

verus! {

/// Generational entity handle; `id()` returns the slot index.
///
/// The generation rejects stale handles after a slot is reused.
#[derive(Debug, Clone, Copy, PartialEq, Eq, Hash, Structural)]
pub struct Entity {
    pub(crate) index: u32,
    pub(crate) generation: u32,
}

impl Entity {
    /// Generation of the slot when the handle was minted.
    pub fn generation(self) -> (r: u32)
        ensures
            r == self.gen(),
    {
        self.generation
    }

    /// Slot index.
    pub fn id(self) -> (r: u32)
        ensures
            r == self.slot(),
    {
        self.index
    }

    /// The handle as text for logs: `Entity(<slot index>)`.
    pub fn display_text(self) -> (r: String)
        ensures
            r@ == "Entity("@ + decimal(self.slot() as nat) + ")"@,
    {
        let mut out = String::new();
        out.append("Entity(");
        push_decimal(&mut out, self.index as u64);
        out.append(")");
        proof {
            reveal_strlit("Entity(");
            reveal_strlit(")");
        }
        out
    }

    /// Slot index of the handle, as an integer.
    pub open spec fn id_spec(self) -> int {
        self.slot() as int
    }

    /// Slot index of the handle.
    pub closed spec fn slot(self) -> u32 {
        self.index
    }

    /// Generation the handle was minted with.
    pub closed spec fn gen(self) -> u32 {
        self.generation
    }

    /// The handle with the given slot and generation.
    pub closed spec fn from_parts(slot: u32, generation: u32) -> Entity {
        Entity { index: slot, generation }
    }

    /// `from_parts` builds a handle with exactly those parts.
    pub broadcast proof fn lemma_from_parts(slot: u32, generation: u32)
        ensures
            #[trigger] Entity::from_parts(slot, generation).slot() == slot,
            Entity::from_parts(slot, generation).gen() == generation,
    {
    }

    /// Two handles with the same slot and generation are the same handle.
    pub broadcast proof fn lemma_eq_by_parts(a: Entity, b: Entity)
        requires
            #[trigger] a.slot() == #[trigger] b.slot(),
            a.gen() == b.gen(),
        ensures
            a == b,
    {
    }
}

/// Entity row inside archetype storage.
#[derive(Debug, Clone, Copy, PartialEq, Eq, Structural)]
pub struct EntityLocation {
    pub archetype_id: u32,
    pub row: u32,
}

/// Entity-table slot metadata.
#[derive(Debug, Clone, Copy)]
pub struct EntityMeta {
    /// Slot generation, incremented when the slot is freed.
    pub generation: u32,
    /// Archetype row of the live slot.
    pub location: Option<EntityLocation>,
}

/// Free-list entity allocator.
#[derive(Debug)]
pub struct Entities {
    meta: Vec<EntityMeta>,
    free: Vec<u32>,
}

impl Entities {
    /// Slot metadata, indexed by slot.
    pub closed spec fn metas(&self) -> Seq<EntityMeta> {
        self.meta@
    }

    /// Free slots, in the order they will be handed out again from the back.
    pub closed spec fn free_slots(&self) -> Seq<u32> {
        self.free@
    }

    /// Allocator invariant: every slot index fits in `u32`, the free list holds
    /// distinct in-range slots, and free slots carry no location.
    pub open spec fn wf(&self) -> bool {
        &&& self.metas().len() <= u32::MAX
        &&& self.free_slots().no_duplicates()
        &&& forall|i: int|
            0 <= i < self.free_slots().len() ==> {
                &&& (#[trigger] self.free_slots()[i]) < self.metas().len()
                &&& self.metas()[self.free_slots()[i] as int].location is None
            }
    }

    /// The handle names the slot's current generation and the slot is not free.
    pub open spec fn is_current(&self, entity: Entity) -> bool {
        &&& entity.slot() < self.metas().len()
        &&& self.metas()[entity.slot() as int].generation == entity.gen()
        &&& !self.free_slots().contains(entity.slot())
    }

    /// Location of a handle: `None` for stale, out-of-range or unplaced handles.
    pub open spec fn location_of(&self, entity: Entity) -> Option<EntityLocation> {
        if entity.slot() < self.metas().len() && self.metas()[entity.slot() as int].generation
            == entity.gen() {
            self.metas()[entity.slot() as int].location
        } else {
            None
        }
    }

    /// Generation matches and the slot has a location.
    pub open spec fn alive(&self, entity: Entity) -> bool {
        self.location_of(entity) is Some
    }

    /// Empty allocator.
    pub fn new() -> (r: Self)
        ensures
            r.wf(),
            r.metas().len() == 0,
            r.free_slots().len() == 0,
    {
        Entities { meta: Vec::new(), free: Vec::new() }
    }

    /// Allocate an entity slot: the most recently freed slot if any, else a new
    /// slot with generation 0. The slot is left without a location.
    pub fn allocate(&mut self) -> (entity: Entity)
        requires
            old(self).wf(),
            old(self).free_slots().len() > 0 || old(self).metas().len() < u32::MAX,
        ensures
            final(self).wf(),
            final(self).is_current(entity),
            final(self).metas()[entity.slot() as int].location is None,
            old(self).free_slots().len() > 0 ==> {
                &&& entity.slot() == old(self).free_slots().last()
                &&& final(self).free_slots() == old(self).free_slots().drop_last()
                &&& final(self).metas() == old(self).metas()
            },
            old(self).free_slots().len() == 0 ==> {
                &&& entity.slot() == old(self).metas().len()
                &&& entity.gen() == 0
                &&& final(self).free_slots() == old(self).free_slots()
                &&& final(self).metas() == old(self).metas().push(
                    EntityMeta { generation: 0, location: None },
                )
            },
            entity.gen() == final(self).metas()[entity.slot() as int].generation,
    {
        if let Some(index) = self.free.pop() {
            proof {
                let s = old(self).free@;
                assert(s[s.len() - 1] == index);
                assert forall|i: int| 0 <= i < self.free@.len() implies #[trigger] self.free@[i]
                    != index by {
                    assert(self.free@[i] == s[i]);
                }
                assert forall|i: int| 0 <= i < self.free@.len() implies {
                    &&& (#[trigger] self.free@[i]) < self.meta@.len()
                    &&& self.meta@[self.free@[i] as int].location is None
                } by {
                    assert(self.free@[i] == s[i]);
                }
                assert(self.free@ == s.drop_last());
            }
            let meta = &self.meta[index as usize];
            Entity { index, generation: meta.generation }
        } else {
            let index = self.meta.len() as u32;
            self.meta.push(EntityMeta { generation: 0, location: None });
            proof {
                assert forall|i: int| 0 <= i < self.free@.len() implies {
                    &&& (#[trigger] self.free@[i]) < self.meta@.len()
                    &&& self.meta@[self.free@[i] as int].location is None
                } by {
                    assert(self.meta@[self.free@[i] as int] == old(self).meta@[self.free@[i] as int]);
                }
            }
            Entity { index, generation: 0 }
        }
    }

    /// Free a current entity: bump its generation (wrapping), clear its
    /// location and push the slot on the free list.
    pub fn free(&mut self, entity: Entity)
        requires
            old(self).wf(),
            old(self).is_current(entity),
        ensures
            final(self).wf(),
            final(self).metas() == old(self).metas().update(
                entity.slot() as int,
                EntityMeta {
                    generation: vstd::wrapping::u32_specs::wrapping_add(entity.gen(), 1),
                    location: None,
                },
            ),
            final(self).free_slots() == old(self).free_slots().push(entity.slot()),
    {
        let idx = entity.index as usize;
        let g = self.meta[idx].generation.wrapping_add(1);
        self.meta.set(idx, EntityMeta { generation: g, location: None });
        self.free.push(entity.index);
        proof {
            let s = old(self).free@;
            assert forall|i: int| 0 <= i < self.free@.len() implies {
                &&& (#[trigger] self.free@[i]) < self.meta@.len()
                &&& self.meta@[self.free@[i] as int].location is None
            } by {
                if i < s.len() {
                    assert(self.free@[i] == s[i]);
                }
            }
            assert forall|i: int, j: int|
                0 <= i < self.free@.len() && 0 <= j < self.free@.len() && i != j implies self.free@[i]
                != self.free@[j] by {
                if i < s.len() && j < s.len() {
                } else if i < s.len() {
                    assert(s.contains(s[i]));
                } else {
                    assert(s.contains(s[j]));
                }
            }
        }
    }

    /// Live location; `None` for stale or unplaced handles.
    pub fn get(&self, entity: Entity) -> (r: Option<EntityLocation>)
        ensures
            r == self.location_of(entity),
    {
        if (entity.index as usize) < self.meta.len() {
            let meta = &self.meta[entity.index as usize];
            if meta.generation != entity.generation {
                return None;
            }
            meta.location
        } else {
            None
        }
    }

    /// Set the location of a current entity.
    pub fn set_location(&mut self, entity: Entity, loc: EntityLocation)
        requires
            old(self).wf(),
            old(self).is_current(entity),
        ensures
            final(self).wf(),
            final(self).metas() == old(self).metas().update(
                entity.slot() as int,
                EntityMeta { generation: entity.gen(), location: Some(loc) },
            ),
            final(self).free_slots() == old(self).free_slots(),
    {
        let idx = entity.index as usize;
        self.meta.set(idx, EntityMeta { generation: entity.generation, location: Some(loc) });
        proof {
            assert forall|i: int| 0 <= i < self.free@.len() implies {
                &&& (#[trigger] self.free@[i]) < self.meta@.len()
                &&& self.meta@[self.free@[i] as int].location is None
            } by {
                assert(self.free@[i] != entity.slot());
            }
        }
    }

    /// Generation matches and the slot has a location.
    pub fn is_alive(&self, entity: Entity) -> (r: bool)
        ensures
            r == self.alive(entity),
    {
        match self.get(entity) {
            Some(_) => true,
            None => false,
        }
    }

    /// Number of slots not on the free list. O(1).
    pub fn live_count(&self) -> (r: u32)
        requires
            self.wf(),
        ensures
            r == self.metas().len() - self.free_slots().len(),
    {
        proof {
            lemma_distinct_bounded_len(self.free@, self.meta@.len());
        }
        (self.meta.len() - self.free.len()) as u32
    }
}

/// A duplicate-free sequence of values below `n` has at most `n` elements.
pub proof fn lemma_distinct_bounded_len(s: Seq<u32>, n: nat)
    requires
        s.no_duplicates(),
        forall|i: int| 0 <= i < s.len() ==> (#[trigger] s[i]) < n,
    ensures
        s.len() <= n,
{
    let t = s.map_values(|x: u32| x as int);
    assert(t.no_duplicates()) by {
        assert forall|i: int, j: int| 0 <= i < t.len() && 0 <= j < t.len() && i != j implies t[i]
            != t[j] by {
            assert(s[i] != s[j]);
        }
    }
    t.unique_seq_to_set();
    let r = vstd::set_lib::set_int_range(0, n as int);
    vstd::set_lib::lemma_int_range(0, n as int);
    assert(t.to_set().subset_of(r)) by {
        assert forall|x: int| t.to_set().contains(x) implies r.contains(x) by {
            let k = choose|k: int| 0 <= k < t.len() && t[k] == x;
            assert(s[k] < n);
        }
    }
    vstd::set_lib::lemma_len_subset(t.to_set(), r);
}

} // verus!
