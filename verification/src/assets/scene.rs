//! Scene file pieces that carry no geometry: sprites and tween repetition.

use vstd::prelude::*;

verus! {

/// How often a scene tween runs.
#[derive(Debug, Clone, Copy, PartialEq, Eq, Structural)]
pub enum SceneTweenRepeat {
    Once,
    Loop,
    PingPong,
    Times(u32),
}

impl Default for SceneTweenRepeat {
    fn default() -> (r: Self)
        ensures
            r == SceneTweenRepeat::Once,
    {
        SceneTweenRepeat::Once
    }
}

/// A sprite placed by a scene file.
#[derive(Debug, Clone)]
pub struct SceneSprite {
    pub asset_id: String,
    pub color: [u8; 4],
    pub z_order: i32,
}

/// The colour a scene sprite has when the file gives none: opaque white.
pub fn white() -> (r: [u8; 4])
    ensures
        r@ == seq![255u8, 255u8, 255u8, 255u8],
{
    let r = [255u8, 255u8, 255u8, 255u8];
    assert(r@ =~= seq![255u8, 255u8, 255u8, 255u8]);
    r
}

/// Whether a scene entity is visible when the file does not say.
pub fn default_visible() -> (r: bool)
    ensures
        r,
{
    true
}

} // verus!
