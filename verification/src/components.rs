//! Render components: sprites, visibility, name tags and particle emitters.

use vstd::prelude::*;

use crate::assets::material::MaterialAssetId;
use crate::assets::particle::AssetId;

verus! {

/// Sprite render data, resolved by asset id when frames are extracted.
#[derive(Debug, Clone)]
pub struct Sprite {
    pub asset_id: String,
    pub color: [u8; 4],
    pub z_order: i32,
    pub material_id: Option<MaterialAssetId>,
}

impl Sprite {
    /// Untinted, at depth zero, drawn by the built-in sprite pipeline.
    pub fn new(asset_id: String) -> (r: Self)
        ensures
            r.asset_id@ == asset_id@,
            r.color@ == seq![255u8, 255u8, 255u8, 255u8],
            r.z_order == 0,
            r.material_id is None,
    {
        let r = Sprite { asset_id, color: [255u8, 255u8, 255u8, 255u8], z_order: 0, material_id: None };
        assert(r.color@ =~= seq![255u8, 255u8, 255u8, 255u8]);
        r
    }

    /// The same sprite drawn with `material`.
    pub fn with_material(self, material: MaterialAssetId) -> (r: Self)
        ensures
            r.asset_id == self.asset_id,
            r.color == self.color,
            r.z_order == self.z_order,
            r.material_id == Some(material),
    {
        let mut s = self;
        s.material_id = Some(material);
        s
    }
}

/// Whether an entity is drawn.
#[derive(Debug, Clone, Copy, PartialEq, Eq, Structural)]
pub struct Visibility {
    pub visible: bool,
}

impl Default for Visibility {
    fn default() -> (r: Self)
        ensures
            r.visible,
    {
        Visibility { visible: true }
    }
}

/// A name for debugging and lookup.
#[derive(Debug, Clone)]
pub struct Tag {
    pub name: String,
}

impl Tag {
    /// A tag with `name`.
    pub fn new(name: String) -> (r: Self)
        ensures
            r.name@ == name@,
    {
        Tag { name }
    }
}


/// A declarative particle emitter: the config it emits with, and an
/// optional seed that replaces the world-derived one.
#[derive(Debug)]
pub struct ParticleEmitter<C> {
    pub config: AssetId<C>,
    pub seed_override: Option<u64>,
}

impl<C> Clone for ParticleEmitter<C> {
    fn clone(&self) -> (r: Self)
        ensures
            r == *self,
    {
        ParticleEmitter { config: self.config, seed_override: self.seed_override }
    }
}

impl<C> Copy for ParticleEmitter<C> {}

impl<C> ParticleEmitter<C> {
    /// An emitter seeded from the world.
    pub fn new(config: AssetId<C>) -> (r: Self)
        ensures
            r.config == config,
            r.seed_override is None,
    {
        ParticleEmitter { config, seed_override: None }
    }

    /// An emitter with a fixed seed.
    pub fn with_seed(config: AssetId<C>, seed: u64) -> (r: Self)
        ensures
            r.config == config,
            r.seed_override == Some(seed),
    {
        ParticleEmitter { config, seed_override: Some(seed) }
    }
}

} // verus!
