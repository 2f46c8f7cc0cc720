//! Camera behaviour modes.

use vstd::prelude::*;

use crate::ecs::entity::Entity;

verus! {

/// How the camera moves.
#[derive(Debug, Clone, Copy, PartialEq, Eq)]
pub enum CameraMode {
    Free,
    Follow(Entity),
    Scripted,
}

} // verus!
