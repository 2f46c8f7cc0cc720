use tungsten_core::components::{ParticleEmitter, Sprite, Tag, Visibility};
use tungsten_core::assets::particle::AssetId;
use tungsten_core::ecs::component::{ComponentRegistry, ComponentStore};
use tungsten_core::ecs::World;
use tungsten_core::inspect::Inspectable;
use tungsten_core::physics::islands::{uf_find, uf_union};
use tungsten_core::physics::keys::{entity_key, hash_key, hash_pair, pair_key};
use tungsten_core::rng::{splitmix64, Pcg32};
use tungsten_core::assets::material::MaterialAssetId;
use tungsten_core::text::{decimal_string, parse_u16, parse_u32, signed_decimal_string, str_eq};
use tungsten_core::post::{PostPassKind, PostStack};
use tungsten_core::physics::grid::{CellGrid, CellRange};
use tungsten_core::physics::sleep::{SleepEntry, SleepTable};

#[test]
fn decimal_text_round_trips() {
    assert_eq!(decimal_string(0), "0");
    assert_eq!(decimal_string(4294967295), "4294967295");
    assert_eq!(parse_u32("4294967295"), Some(u32::MAX));
    assert_eq!(parse_u32("4294967296"), None);
    assert_eq!(parse_u32("+12"), Some(12));
    assert_eq!(parse_u32("-1"), None);
    assert_eq!(parse_u32(""), None);
    assert_eq!(parse_u16("65536"), None);
    assert_eq!(signed_decimal_string(-42), "-42");
    assert_eq!(signed_decimal_string(i32::MIN), "-2147483648");
    assert!(str_eq("abc", "abc") && !str_eq("abc", "abd"));
    for n in [0u32, 9, 10, 99, 1000, 65535, 123456789] {
        assert_eq!(parse_u32(&decimal_string(n as u64)), Some(n));
    }
}

#[test]
fn rng_is_deterministic() {
    assert_eq!(splitmix64(0), 0xE220A8397B1DCDAF);
    let mut a = Pcg32::seeded(7);
    let mut b = Pcg32::seeded(7);
    for _ in 0..5 {
        assert_eq!(a.next_u32(), b.next_u32());
    }
}

#[test]
fn inspect_rows_render_components() {
    let sprite = Sprite { asset_id: "hero".to_string(), color: [255, 0, 10, 128], z_order: -3, material_id: None };
    let rows = sprite.inspect_rows();
    assert_eq!(rows, vec![("asset", "hero".to_string()), ("tint", "[255, 0, 10, 128]".to_string()), ("z", "-3".to_string())]);
    assert_eq!(Tag::new("boss".to_string()).inspect_rows(), vec![("name", "boss".to_string())]);
    assert_eq!(Visibility::default().inspect_rows(), vec![("visible", "true".to_string())]);
    let s = Sprite::new("coin".to_string()).with_material(MaterialAssetId(3));
    assert_eq!(s.color, [255; 4]);
    assert_eq!(s.material_id, Some(MaterialAssetId(3)));
}

#[test]
fn union_find_joins_under_smallest_root() {
    let mut parent: Vec<u32> = (0..6).collect();
    uf_union(&mut parent, 4, 2);
    uf_union(&mut parent, 5, 4);
    uf_union(&mut parent, 1, 3);
    assert_eq!(uf_find(&mut parent, 5), 2);
    assert_eq!(uf_find(&mut parent, 4), 2);
    assert_eq!(uf_find(&mut parent, 3), 1);
    assert_eq!(uf_find(&mut parent, 0), 0);
    uf_union(&mut parent, 3, 5);
    assert_eq!(uf_find(&mut parent, 5), 1);
}

#[test]
fn body_and_pair_keys() {
    let mut world: World<u8> = World::new();
    let e = world.spawn();
    let key = entity_key(e);
    assert_eq!(key, (1u64 << 63) | (((e.generation() & 0x7FFF_FFFF) as u64) << 32) | (e.id() as u64));
    assert_eq!(pair_key(5, 9), pair_key(9, 5));
    assert_eq!(pair_key(5, 9), (9u128 << 64) | 5);
    let h = 5u64.wrapping_mul(0xD6E8_FEB8_6659_FD93);
    assert_eq!(hash_key(5), h ^ (h >> 32));
    let k: u128 = (3u128 << 64) | 11;
    let h1 = 11u64 ^ 3u64.wrapping_mul(0x9E37_79B9_7F4A_7C15);
    let h2 = (h1 ^ (h1 >> 32)).wrapping_mul(0xD6E8_FEB8_6659_FD93);
    assert_eq!(hash_pair(k), h2 ^ (h2 >> 32));
}

#[test]
fn component_stores_by_kind() {
    let mut world: World<u8> = World::new();
    let a = world.spawn();
    let b = world.spawn();
    let mut reg: ComponentRegistry<&str> = ComponentRegistry::new();
    reg.get_or_create_store(1).insert(a, "pos-a");
    reg.get_or_create_store(1).insert(b, "pos-b");
    reg.get_or_create_store(2).insert(a, "vel-a");
    assert_eq!(reg.get_store(1).unwrap().len(), 2);
    reg.remove_entity(a);
    assert!(!reg.get_store(1).unwrap().contains(a));
    assert_eq!(reg.get_store(1).unwrap().get(b), Some(&"pos-b"));
    assert_eq!(reg.get_store(2).unwrap().len(), 0);
    if let Some(store) = reg.get_store_mut(1) {
        if let Some(v) = store.get_mut(b) {
            *v = "moved";
        }
    }
    assert_eq!(reg.get_store(1).unwrap().get(b), Some(&"moved"));
    let mut store: ComponentStore<i32> = ComponentStore::new();
    store.insert(a, 1);
    assert_eq!(store.remove(a), Some(1));
    assert!(store.entities().is_empty());
}

#[test]
fn post_stack_reorder_moves_and_clamps() {
    let mut stack: PostStack<u32> = PostStack::new();
    assert!(stack.is_empty());
    stack.reorder(3, 0);
    assert!(stack.is_empty());
    for pass in [10, 20, 30, 40] {
        stack.push(pass);
    }
    stack.reorder(0, 2);
    assert_eq!(stack.as_slice(), &[20, 30, 10, 40]);
    stack.reorder(2, 0);
    assert_eq!(stack.as_slice(), &[10, 20, 30, 40]);
    stack.reorder(9, 0);
    assert_eq!(stack.as_slice(), &[40, 10, 20, 30]);
    stack.reorder(1, 99);
    assert_eq!(stack.as_slice(), &[40, 20, 30, 10]);
    stack.reorder(7, 8);
    assert_eq!(stack.as_slice(), &[40, 20, 30, 10]);
    assert_eq!(stack.len(), 4);
    stack.clear();
    assert_eq!(stack.len(), 0);
}

#[test]
fn post_pass_kind_labels_are_stable() {
    assert_eq!(PostPassKind::Tonemap.kind_name(), "tonemap");
    assert_eq!(PostPassKind::ChromaticAberration.kind_name(), "chromatic_aberration");
    assert_eq!(PostPassKind::WipeRadial.kind_name(), "wipe_radial");
    assert_eq!(PostPassKind::GodRays.kind_name(), "god_rays");
}

fn cells(min_x: i32, min_y: i32, max_x: i32, max_y: i32) -> CellRange {
    CellRange { min_x, min_y, max_x, max_y }
}

#[test]
fn cell_grid_queries_find_each_overlapping_proxy_once() {
    let mut grid = CellGrid::new();
    grid.insert(0, cells(0, 0, 1, 1));
    grid.insert(1, cells(1, 1, 2, 2));
    grid.insert(2, cells(5, 5, 5, 5));
    grid.insert(3, cells(-3, -3, -1, -1));
    assert_eq!(grid.cell_refs(), 4 + 4 + 1 + 9);

    let mut out = vec![99];
    grid.query(cells(0, 0, 1, 1), None, &mut out);
    assert_eq!(out, vec![0, 1]);

    grid.query(cells(1, 1, 5, 5), Some(1), &mut out);
    assert_eq!(out, vec![0, 2]);

    grid.query(cells(-10, -10, -2, -2), None, &mut out);
    assert_eq!(out, vec![3]);

    grid.query(cells(100, 100, 120, 101), None, &mut out);
    assert!(out.is_empty());

    grid.insert(4, cells(-1, -1, 0, 0));
    grid.query(cells(-1, -1, 0, 0), Some(0), &mut out);
    assert_eq!(out, vec![3, 4]);

    grid.clear();
    assert_eq!(grid.cell_refs(), 0);
    grid.query(cells(-10, -10, 10, 10), None, &mut out);
    assert!(out.is_empty());
}

#[test]
fn cell_grid_handles_many_queries_and_aliased_slots() {
    let mut grid = CellGrid::new();
    for id in 0..200u32 {
        let x = (id as i32) * 3 - 300;
        grid.insert(id, cells(x, -x, x + 1, -x));
    }
    let mut out = Vec::new();
    for round in 0..50 {
        let id = (round * 3) as i32;
        let x = id * 3 - 300;
        grid.query(cells(x, -x, x, -x), None, &mut out);
        assert_eq!(out, vec![id as u32]);
    }
    grid.query(cells(-310, -310, 310, 310), Some(5), &mut out);
    assert_eq!(out.len(), 199);
    let mut sorted = out.clone();
    sorted.sort();
    sorted.dedup();
    assert_eq!(sorted.len(), 199);
    assert!(!out.contains(&5));
}

#[test]
fn particle_emitters_keep_config_and_seed() {
    let config: AssetId<String> = AssetId::new(3);
    let plain = ParticleEmitter::new(config);
    assert_eq!(plain.config, config);
    assert_eq!(plain.seed_override, None);
    let seeded = ParticleEmitter::with_seed(config, 42);
    assert_eq!(seeded.config.index(), 3);
    assert_eq!(seeded.seed_override, Some(42));
}

#[test]
fn waking_a_sleeper_wakes_its_island_only() {
    let mut world: World<u8> = World::new();
    let a = world.spawn();
    let b = world.spawn();
    let c = world.spawn();
    let d = world.spawn();
    let (ka, kb, kc, kd) = (entity_key(a), entity_key(b), entity_key(c), entity_key(d));
    let asleep = |island| SleepEntry { timer: 2.5f32, sleeping: true, island, center: (1, 1) };
    let mut table: SleepTable<f32, (i32, i32)> = SleepTable::new();
    table.insert(ka, asleep(ka));
    table.insert(kb, asleep(ka));
    table.insert(kc, asleep(kc));
    table.insert(kd, SleepEntry { timer: 0.25, sleeping: false, island: 0, center: (0, 0) });
    assert_eq!(table.sleeping_count(), 3);
    assert!(table.is_sleeping(b));

    table.wake(b, 0.0);
    assert!(!table.is_sleeping(a));
    assert!(!table.is_sleeping(b));
    assert!(table.is_sleeping(c));
    assert_eq!(table.get(ka).unwrap().timer, 0.0);
    assert_eq!(table.get(kc).unwrap().timer, 2.5);
    assert_eq!(table.sleeping_count(), 1);

    table.wake(d, 0.0);
    assert_eq!(table.get(kd).unwrap().timer, 0.0);
    assert!(!table.is_sleeping(d));

    table.insert(ka, asleep(ka));
    table.retag(ka, kc);
    assert_eq!(table.get(ka).unwrap().island, kc);
    table.wake_islands(&[kc], 0.0);
    assert_eq!(table.sleeping_count(), 0);
}

#[test]
fn post_stack_passes_edit_in_place() {
    let mut stack: PostStack<u32> = PostStack::default();
    stack.push(1);
    stack.push(2);
    stack.as_slice_mut()[1] = 7;
    assert_eq!(stack.as_slice(), &[1, 7]);
    assert_eq!(stack.0, vec![1, 7]);
}
