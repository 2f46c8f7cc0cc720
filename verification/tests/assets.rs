use tungsten_core::assets::animation::{step_frame, AnimationData, AnimationFrame, AnimationRegistry};
use tungsten_core::assets::atlas::{pack_shelf, AtlasPage, PackInput};
use tungsten_core::assets::manifest::{ManifestError, ResolvedAnimation, ResolvedManifest, ResolvedSprite, FilterMode};
use tungsten_core::assets::name_map::NameMap;
use tungsten_core::assets::particle::{AssetId, ParticleBudget, ParticleConfigRegistry, WorldRngSeed};
use tungsten_core::assets::registry::{AssetRegistry, FontRegistry, TextureHandle};
use tungsten_core::assets::shader::{ShaderAssetId, ShaderRegistry};
use tungsten_core::assets::tilemap::{LayerKind, TilemapData, TilemapError, TilemapLayer, TilemapRegistry};
use tungsten_core::rng::splitmix64;

fn frame(sprite: &str, ms: u32) -> AnimationFrame {
    AnimationFrame { sprite: sprite.to_string(), duration_ms: ms }
}

#[test]
fn animation_duration_and_registry() {
    let data = AnimationData { looping: true, frames: vec![frame("a", 100), frame("b", 250)] };
    assert_eq!(data.total_duration_ms(), 350);
    let mut reg = AnimationRegistry::new();
    reg.insert_with_path("walk".to_string(), data.clone(), "/assets/walk.json".to_string());
    assert_eq!(reg.id_for_path("/assets/walk.json"), Some("walk"));
    assert_eq!(reg.get("walk").unwrap().frames.len(), 2);
    assert!(reg.get("run").is_none());
    reg.insert("run".to_string(), AnimationData { looping: false, frames: vec![] });
    assert_eq!(reg.ids(), vec!["walk", "run"]);
    assert_eq!(reg.iter().len(), 2);
}

fn map_with(layers: Vec<Vec<i32>>, tileset: usize) -> TilemapData {
    TilemapData {
        tile_width: 16,
        tile_height: 16,
        width: 2,
        height: 2,
        tileset: (0..tileset).map(|i| format!("t{i}")).collect(),
        layers: layers
            .into_iter()
            .enumerate()
            .map(|(i, tiles)| TilemapLayer { name: format!("l{i}"), kind: LayerKind::Render, tiles })
            .collect(),
    }
}

#[test]
fn tilemap_validation_and_lookup() {
    let ok = map_with(vec![vec![0, 1, -1, 1]], 2);
    assert_eq!(ok.validate(), Ok(()));
    assert_eq!(ok.tile_at(0, 1, 1), Some(1));
    assert_eq!(ok.tile_at(0, 0, 1), Some(-1));
    assert_eq!(ok.tile_at(0, 2, 0), None);
    assert_eq!(ok.tile_at(1, 0, 0), None);
    let short = map_with(vec![vec![0, 1, 1]], 2);
    assert_eq!(short.validate(), Err(TilemapError::LayerSize { layer: 0, tiles: 3, cells: 4 }));
    let past = map_with(vec![vec![0, 0, 0, 0], vec![0, 2, 5, 0]], 2);
    assert_eq!(past.validate(), Err(TilemapError::TileOutOfRange { layer: 1, index: 1, tile: 2, tileset_len: 2 }));
    let mut zero = map_with(vec![], 0);
    zero.tile_height = 0;
    assert_eq!(zero.validate(), Err(TilemapError::ZeroTileSize { width: 16, height: 0 }));
    let mut reg = TilemapRegistry::new();
    reg.insert_with_path("level".to_string(), ok, "/maps/level.tmj".to_string());
    assert_eq!(reg.id_for_path("/maps/level.tmj"), Some("level"));
    assert!(reg.get("level").is_some());
    assert_eq!(LayerKind::default(), LayerKind::Render);
}

#[test]
fn shader_ids_are_dense_and_stable() {
    let mut reg = ShaderRegistry::new();
    let a = reg.allocate("water", "/s/water.wgsl".to_string());
    let b = reg.allocate("fire", "/s/fire.wgsl".to_string());
    assert_eq!(a, ShaderAssetId(0));
    assert_eq!(b, ShaderAssetId(1));
    let again = reg.allocate("water", "/s/water2.wgsl".to_string());
    assert_eq!(again, a);
    assert_eq!(reg.id_for_path("/s/water2.wgsl"), Some(a));
    assert_eq!(reg.id_for_path("/s/water.wgsl"), None);
    assert_eq!(reg.path_for_id(a), Some("/s/water2.wgsl"));
    assert_eq!(reg.name_for_id(b), Some("fire"));
    assert_eq!(reg.name_for_id(ShaderAssetId(2)), None);
    assert_eq!(reg.get("fire"), Some(b));
    assert_eq!(reg.iter(), vec![("water", a), ("fire", b)]);
}

#[test]
fn font_registry_lookup() {
    let mut fonts = FontRegistry::new();
    fonts.register("ui".to_string(), "/f/ui.ttf".to_string());
    assert_eq!(fonts.id_for_path("/f/ui.ttf"), Some("ui"));
    assert!(fonts.contains_id("ui"));
    assert!(!fonts.contains_id("title"));
}

#[test]
fn seeds_are_splitmix_of_a_counter() {
    let mut seeds = WorldRngSeed::new(41);
    assert_eq!(seeds.derive_seed(), splitmix64(41));
    assert_eq!(seeds.next, 42);
    let mut last = WorldRngSeed::new(u64::MAX);
    last.derive_seed();
    assert_eq!(last.next, 0);
    assert_eq!(ParticleBudget::default().global_cap, ParticleBudget::DEFAULT_GLOBAL_CAP);
    let id: AssetId<u8> = AssetId::new(7);
    assert_eq!(id.index(), 7);
    assert!(id == AssetId::new(7));
}

#[test]
fn name_map_insert_remove() {
    let mut m: NameMap<u32> = NameMap::new();
    assert_eq!(m.insert("a".to_string(), 1), None);
    assert_eq!(m.insert("b".to_string(), 2), None);
    assert_eq!(m.insert("a".to_string(), 3), Some(1));
    assert_eq!(m.get("a"), Some(&3));
    assert_eq!(m.len(), 2);
    assert_eq!(m.remove("a"), Some(3));
    assert_eq!(m.keys(), vec!["b"]);
}

#[test]
fn shelf_packing_places_sorted_sprites() {
    let inputs = [
        PackInput { id: "small", width: 4, height: 4 },
        PackInput { id: "tall", width: 4, height: 10 },
        PackInput { id: "wide", width: 12, height: 4 },
        PackInput { id: "b_same", width: 4, height: 4 },
    ];
    let result = pack_shelf(&inputs, 32, 1);
    assert_eq!(result.pages, vec![AtlasPage { width: 32, height: 16 }]);
    let s = &result.sprites;
    assert_eq!(s[1].id, "tall");
    assert_eq!((s[1].page, s[1].x, s[1].y), (0, 1, 1));
    assert_eq!((s[2].x, s[2].y), (6, 1));
    assert_eq!((s[3].x, s[3].y), (19, 1));
    assert_eq!((s[0].x, s[0].y), (24, 1));
    assert!(pack_shelf(&[], 32, 1).pages.is_empty());
}

#[test]
fn shelf_packing_opens_new_shelves_and_pages() {
    let inputs = [
        PackInput { id: "a", width: 6, height: 6 },
        PackInput { id: "b", width: 6, height: 6 },
        PackInput { id: "c", width: 6, height: 6 },
    ];
    let result = pack_shelf(&inputs, 8, 1);
    assert_eq!(result.pages.len(), 3);
    assert_eq!((result.sprites[2].page, result.sprites[2].x, result.sprites[2].y), (2, 1, 1));
    assert_eq!(result.pages[0], AtlasPage { width: 8, height: 8 });
}

#[test]
fn manifest_merge_rejects_duplicates() {
    let mut a: ResolvedManifest<u8> = ResolvedManifest::new();
    a.sprites.insert("hero".to_string(), ResolvedSprite { path: "/a/hero.png".to_string(), filter: FilterMode::Nearest });
    let mut b: ResolvedManifest<u8> = ResolvedManifest::new();
    b.animations.insert("hero".to_string(), ResolvedAnimation { path: "/b/hero.json".to_string() });
    b.sounds.insert("click".to_string(), 1);
    assert!(a.merge(b).is_ok());
    assert!(a.animations.contains_key("hero"));
    assert!(a.sounds.contains_key("click"));
    let mut c: ResolvedManifest<u8> = ResolvedManifest::new();
    c.sprites.insert("hero".to_string(), ResolvedSprite { path: "/c/hero.png".to_string(), filter: FilterMode::Linear });
    match a.merge(c) {
        Err(ManifestError::DuplicateId { id }) => assert_eq!(id, "hero"),
        other => panic!("unexpected result: {other:?}"),
    }
}

#[test]
fn particle_registry_indexes_by_name_path_and_id() {
    let mut registry: ParticleConfigRegistry<&str> = ParticleConfigRegistry::new();
    assert!(registry.is_empty());
    let sparks = registry.register("sparks".to_string(), "fx/sparks.json".to_string(), "v1");
    let smoke = registry.register("smoke".to_string(), "fx/smoke.json".to_string(), "smoke");
    assert_eq!(sparks.index(), 0);
    assert_eq!(smoke.index(), 1);
    assert_eq!(registry.len(), 2);
    assert_eq!(registry.get(sparks), Some(&"v1"));
    assert_eq!(registry.id_for_name("sparks"), Some(sparks));
    assert_eq!(registry.id_for_path("fx/smoke.json"), Some(smoke));
    assert_eq!(registry.name_for_id(smoke), Some("smoke"));
    assert_eq!(registry.path_for_id(sparks), Some("fx/sparks.json"));
    assert_eq!(registry.id_for_name("rain"), None);

    registry.replace(sparks, "v2");
    assert_eq!(registry.get(sparks), Some(&"v2"));
    assert_eq!(registry.id_for_name("sparks"), Some(sparks));
    assert_eq!(registry.len(), 2);

    let again = registry.register("sparks".to_string(), "fx/sparks2.json".to_string(), "v3");
    assert_eq!(again.index(), 2);
    assert_eq!(registry.id_for_name("sparks"), Some(again));
    assert_eq!(registry.name_for_id(sparks), Some("sparks"));
    let mut names = registry.names();
    names.sort();
    assert_eq!(names, vec!["smoke", "sparks"]);
    assert_eq!(registry.get(AssetId::new(9)), None);
}

#[test]
fn sprite_registry_maps_ids_and_source_paths() {
    let mut registry: AssetRegistry<(u8, u8)> = AssetRegistry::new();
    assert!(!registry.contains_sprite("hero"));
    registry.register_sprite(
        "hero".to_string(),
        FilterMode::Nearest,
        16,
        24,
        "art/hero.png".to_string(),
        TextureHandle(1),
        (0, 0),
        Some("art/hero_n.png".to_string()),
        None,
        None,
    );
    registry.register_sprite(
        "lamp".to_string(),
        FilterMode::Linear,
        8,
        8,
        "art/lamp.png".to_string(),
        TextureHandle(1),
        (1, 0),
        None,
        Some("art/lamp_e.png".to_string()),
        Some(TextureHandle(1)),
    );
    assert!(registry.contains_sprite("hero"));
    assert_eq!(registry.sprite_id_for_path("art/hero.png"), Some("hero"));
    assert_eq!(registry.sprite_id_for_path("art/hero_n.png"), Some("hero"));
    assert_eq!(registry.sprite_id_for_path("art/lamp_e.png"), Some("lamp"));
    assert_eq!(registry.sprite_id_for_path("art/none.png"), None);
    let hero = registry.get_sprite("hero").unwrap();
    assert_eq!((hero.width, hero.height, hero.uv, hero.atlas), (16, 24, (0, 0), TextureHandle(1)));
    assert_eq!(hero.normal_path.as_deref(), Some("art/hero_n.png"));

    registry.update_sprite_entry("hero", TextureHandle(2), (3, 4), 32, 48);
    let hero = registry.get_sprite("hero").unwrap();
    assert_eq!((hero.width, hero.height, hero.uv, hero.atlas), (32, 48, (3, 4), TextureHandle(2)));
    assert_eq!(hero.path, "art/hero.png");
    registry.update_sprite_lit_atlas("hero", Some(TextureHandle(2)));
    assert_eq!(registry.get_sprite("hero").unwrap().lit_atlas, Some(TextureHandle(2)));
    registry.update_sprite_entry("ghost", TextureHandle(9), (9, 9), 1, 1);
    assert!(registry.get_sprite("ghost").is_none());

    let mut ids = registry.sprite_ids();
    ids.sort();
    assert_eq!(ids, vec!["hero", "lamp"]);
}

#[test]
fn animation_frames_step_loop_and_finish() {
    assert_eq!(step_frame(0, 3, false), (1, false));
    assert_eq!(step_frame(2, 3, true), (0, false));
    assert_eq!(step_frame(2, 3, false), (2, true));
    assert_eq!(step_frame(0, 1, true), (0, false));

    let mut registry = AnimationRegistry::new();
    registry.insert(
        "walk".to_string(),
        AnimationData {
            looping: true,
            frames: vec![
                AnimationFrame { sprite: "walk_0".to_string(), duration_ms: 100 },
                AnimationFrame { sprite: "walk_1".to_string(), duration_ms: 100 },
            ],
        },
    );
    assert_eq!(registry.frame_sprite("walk", 1), Some("walk_1"));
    assert_eq!(registry.frame_sprite("walk", 2), None);
    assert_eq!(registry.frame_sprite("run", 0), None);
}

#[test]
fn packed_sprites_stay_inside_their_pages_and_apart() {
    let names: Vec<String> = (0..40).map(|i| format!("s{i}")).collect();
    let inputs: Vec<PackInput> = names
        .iter()
        .enumerate()
        .map(|(i, id)| PackInput { id: id.as_str(), width: (i as u32 * 7) % 23 + 1, height: (i as u32 * 5) % 19 + 1 })
        .collect();
    let pad = 2;
    let result = pack_shelf(&inputs, 64, pad);
    assert_eq!(result.sprites.len(), inputs.len());
    for (i, a) in result.sprites.iter().enumerate() {
        let page = result.pages[a.page as usize];
        assert!(a.x >= pad && a.y >= pad);
        assert!(a.x + a.width + pad <= page.width);
        assert!(a.y + a.height + pad <= page.height);
        for b in result.sprites.iter().skip(i + 1) {
            if a.page == b.page {
                assert!(
                    a.x + a.width + pad <= b.x
                        || b.x + b.width + pad <= a.x
                        || a.y + a.height + pad <= b.y
                        || b.y + b.height + pad <= a.y
                );
            }
        }
    }
}

#[test]
fn shelf_packing_with_large_pages_and_empty_input() {
    assert!(pack_shelf(&[], u32::MAX, u32::MAX).pages.is_empty());
    assert!(pack_shelf(&[], u32::MAX, u32::MAX).sprites.is_empty());
    let inputs = [PackInput { id: "dot", width: 3, height: 5 }];
    let result = pack_shelf(&inputs, 0x8000_0000, 2);
    assert_eq!(result.pages, vec![AtlasPage { width: 8, height: 16 }]);
    assert_eq!((result.sprites[0].page, result.sprites[0].x, result.sprites[0].y), (0, 2, 2));
    let big = [
        PackInput { id: "a", width: 0x2000_0000, height: 0x2000_0000 },
        PackInput { id: "b", width: 0x2000_0000, height: 0x2000_0000 },
    ];
    let result = pack_shelf(&big, 0x8000_0000, 1);
    assert_eq!(result.pages, vec![AtlasPage { width: 0x8000_0000, height: 0x4000_0000 }]);
    assert_eq!((result.sprites[0].x, result.sprites[0].y), (1, 1));
    assert_eq!((result.sprites[1].page, result.sprites[1].x, result.sprites[1].y), (0, 0x2000_0002, 1));
}

#[test]
fn shelf_packing_every_page_holds_a_sprite() {
    let inputs = [
        PackInput { id: "a", width: 6, height: 6 },
        PackInput { id: "b", width: 3, height: 3 },
        PackInput { id: "c", width: 6, height: 6 },
        PackInput { id: "d", width: 2, height: 2 },
    ];
    let result = pack_shelf(&inputs, 8, 1);
    for (j, page) in result.pages.iter().enumerate() {
        assert!(page.width <= 8 && page.height <= 8);
        assert!(result.sprites.iter().any(|s| s.page as usize == j));
    }
}

#[test]
fn manifest_merge_reports_first_clashing_kind() {
    let mut a: ResolvedManifest<u8> = ResolvedManifest::new();
    a.animations.insert("walk".to_string(), ResolvedAnimation { path: "/a/walk.json".to_string() });
    a.sounds.insert("click".to_string(), 1);
    let mut b: ResolvedManifest<u8> = ResolvedManifest::new();
    b.sprites.insert("hero".to_string(), ResolvedSprite { path: "/b/hero.png".to_string(), filter: FilterMode::Nearest });
    b.animations.insert("walk".to_string(), ResolvedAnimation { path: "/b/walk.json".to_string() });
    b.sounds.insert("click".to_string(), 2);
    b.sounds.insert("boom".to_string(), 3);
    match a.merge(b) {
        Err(ManifestError::DuplicateId { id }) => assert_eq!(id, "walk"),
        other => panic!("unexpected result: {other:?}"),
    }
    // Sprites, before the clash, are merged; sounds, after it, are untouched.
    assert!(a.sprites.contains_key("hero"));
    assert_eq!(a.animations.get("walk").map(|x| x.path.as_str()), Some("/a/walk.json"));
    assert_eq!(a.sounds.get("click"), Some(&1));
    assert!(!a.sounds.contains_key("boom"));
}

#[test]
fn tilemap_registry_lists_each_id_once() {
    let mut reg = TilemapRegistry::new();
    reg.insert_with_path("level".to_string(), map_with(vec![vec![0]], 1), "/maps/level.tmj".to_string());
    reg.insert_with_path("level".to_string(), map_with(vec![vec![-1]], 1), "/maps/level2.tmj".to_string());
    reg.insert("other".to_string(), map_with(vec![vec![0]], 1));
    assert_eq!(reg.ids(), vec!["level", "other"]);
    assert_eq!(reg.id_for_path("/maps/level.tmj"), Some("level"));
    assert_eq!(reg.id_for_path("/maps/level2.tmj"), Some("level"));
    assert_eq!(reg.get("level").map(|m| m.layers[0].tiles.clone()), Some(vec![-1]));
}
