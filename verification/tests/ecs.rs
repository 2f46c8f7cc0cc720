use tungsten_core::ecs::{CommandBuffer, EventQueue, World};

#[derive(Debug, Clone, PartialEq)]
enum Comp {
    Pos(i32),
    Vel(i32),
    Name(String),
}

const POS: u64 = 1;
const VEL: u64 = 2;
const NAME: u64 = 3;

#[test]
fn spawn_insert_get_remove() {
    let mut world: World<Comp> = World::new();
    let e = world.spawn();
    assert!(world.is_alive(e));
    assert_eq!(world.entity_count(), 1);
    world.insert(e, POS, Comp::Pos(3));
    world.insert(e, VEL, Comp::Vel(-1));
    assert_eq!(world.get(e, POS), Some(&Comp::Pos(3)));
    assert!(world.has(e, VEL));
    assert!(!world.has(e, NAME));
    world.insert(e, POS, Comp::Pos(4));
    assert_eq!(world.get(e, POS), Some(&Comp::Pos(4)));
    assert_eq!(world.remove_component(e, VEL), Some(Comp::Vel(-1)));
    assert_eq!(world.remove_component(e, VEL), None);
    assert_eq!(world.get(e, POS), Some(&Comp::Pos(4)));
}

#[test]
fn despawn_rejects_stale_handles() {
    let mut world: World<Comp> = World::new();
    let a = world.spawn();
    world.insert(a, NAME, Comp::Name("a".to_string()));
    world.despawn(a);
    assert!(!world.is_alive(a));
    assert_eq!(world.entity_count(), 0);
    let b = world.spawn();
    assert_eq!(b.id(), a.id());
    assert_ne!(b, a);
    assert!(!world.is_alive(a));
    assert_eq!(world.get(a, NAME), None);
    assert_eq!(world.get(b, NAME), None);
    world.despawn(a);
    assert!(world.is_alive(b));
}

#[test]
fn queries_see_matching_entities() {
    let mut world: World<Comp> = World::new();
    let a = world.spawn();
    let b = world.spawn();
    let c = world.spawn();
    world.insert(a, POS, Comp::Pos(1));
    world.insert(b, POS, Comp::Pos(2));
    world.insert(b, VEL, Comp::Vel(5));
    world.insert(c, VEL, Comp::Vel(7));
    let mut with_pos = world.query_entities(POS);
    with_pos.sort_by_key(|e| e.id());
    assert_eq!(with_pos, vec![a, b]);
    assert_eq!(world.query2_entities(POS, VEL), vec![b]);
    let rows = world.query2(POS, VEL);
    assert_eq!(rows.len(), 1);
    assert_eq!(rows[0].0, b);
    assert_eq!(rows[0].1, &Comp::Pos(2));
    assert_eq!(rows[0].2, &Comp::Vel(5));
    assert!(world.query3_entities(POS, VEL, NAME).is_empty());
}

#[test]
fn query_mut_rewrites_every_match() {
    let mut world: World<Comp> = World::new();
    let a = world.spawn();
    let b = world.spawn();
    world.insert(a, POS, Comp::Pos(1));
    world.insert(b, POS, Comp::Pos(10));
    world.query_mut(POS, |_e, c| match c {
        Comp::Pos(p) => Comp::Pos(p + 1),
        other => other.clone(),
    });
    assert_eq!(world.get(a, POS), Some(&Comp::Pos(2)));
    assert_eq!(world.get(b, POS), Some(&Comp::Pos(11)));
    if let Some(v) = world.get_mut(a, POS) {
        *v = Comp::Pos(100);
    }
    assert_eq!(world.get(a, POS), Some(&Comp::Pos(100)));
}

#[test]
fn resources_insert_get_remove() {
    let mut world: World<Comp> = World::new();
    assert!(!world.has_resource(9));
    world.insert_resource(9, Comp::Vel(1));
    assert_eq!(world.get_resource(9), Some(&Comp::Vel(1)));
    world.insert_resource(9, Comp::Vel(2));
    assert_eq!(world.get_resource(9), Some(&Comp::Vel(2)));
    if let Some(r) = world.get_resource_mut(9) {
        *r = Comp::Vel(3);
    }
    assert_eq!(world.remove_resource(9), Some(Comp::Vel(3)));
    assert_eq!(world.get_resource(9), None);
}

#[test]
fn command_buffer_flush_applies_in_order() {
    let mut world: World<Comp> = World::new();
    let existing = world.spawn();
    let mut buffer: CommandBuffer<Comp> = CommandBuffer::new();
    assert!(buffer.is_empty());
    let pending = buffer.spawn();
    buffer.insert_pending(pending, POS, Comp::Pos(7));
    buffer.insert(existing, VEL, Comp::Vel(1));
    buffer.remove_component(existing, VEL);
    buffer.despawn(existing);
    assert_eq!(buffer.len(), 5);
    world.flush(buffer);
    assert!(!world.is_alive(existing));
    assert_eq!(world.entity_count(), 1);
    let spawned = world.query_entities(POS);
    assert_eq!(spawned.len(), 1);
    assert_eq!(world.get(spawned[0], POS), Some(&Comp::Pos(7)));
}

#[test]
fn event_queue_keeps_two_frames() {
    let mut q: EventQueue<u32> = EventQueue::new();
    q.send(1);
    q.send(2);
    assert_eq!(q.len(), 2);
    assert_eq!(q.iter_current(), vec![&1, &2]);
    q.flush();
    q.send(3);
    assert_eq!(q.iter(), vec![&1, &2, &3]);
    assert_eq!(q.iter_current(), vec![&3]);
    q.flush();
    assert_eq!(q.iter(), vec![&3]);
    q.flush();
    assert!(q.is_empty());
}

#[test]
fn entity_display_text_shows_the_slot() {
    let mut world: World<u8> = World::new();
    let _a = world.spawn();
    let b = world.spawn();
    assert_eq!(b.display_text(), "Entity(1)");
}

#[test]
fn queries_list_by_archetype_then_row_and_counts_follow_spawns() {
    let mut world: World<Comp> = World::new();
    let a = world.spawn();
    let b = world.spawn();
    let c = world.spawn();
    assert_eq!(world.entity_count(), 3);
    // `c` moves first into the POS archetype, then `a`; `b` gets POS and VEL.
    world.insert(c, POS, Comp::Pos(3));
    world.insert(a, POS, Comp::Pos(1));
    world.insert(b, POS, Comp::Pos(2));
    world.insert(b, VEL, Comp::Vel(2));
    assert_eq!(world.query_entities(POS), vec![c, a, b]);
    let rows = world.query(POS);
    assert_eq!(rows.iter().map(|r| r.0).collect::<Vec<_>>(), vec![c, a, b]);
    world.despawn(b);
    assert_eq!(world.entity_count(), 2);
    world.despawn(b);
    assert_eq!(world.entity_count(), 2);
    let d = world.spawn();
    assert_eq!(world.entity_count(), 3);
    assert!(world.is_alive(d));
}
