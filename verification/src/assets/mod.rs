//! Asset registries and data: animations, tilemaps, shaders, materials,
//! sprites, fonts and sounds, the sprite atlas packer, manifests, scene
//! pieces and the particle resources.

pub mod name_map;
pub mod animation;
pub mod tilemap;
pub mod shader;
pub mod registry;
pub mod particle;
pub mod atlas;
pub mod manifest;
pub mod material;
pub mod scene;
pub mod audio;
