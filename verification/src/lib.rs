//! Core building blocks for the Tungsten engine: a generational archetype ECS,
//! configuration and display resolution, input bindings, asset registries,
//! the sprite atlas packer, the physics broadphase grid and sleep islands,
//! the post-processing stack and the deterministic random-number generators.

pub mod assets;
pub mod camera;
pub mod components;
pub mod config;
pub mod display;
pub mod ecs;
pub mod input;
pub mod inspect;
pub mod laws;
pub mod physics;
pub mod post;
pub mod rng;
pub mod text;
