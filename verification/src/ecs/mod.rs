//! Archetypal entity-component store with generational handles, deferred
//! command buffers and two-window event queues.

pub mod archetype;
pub mod command_buffer;
pub mod component;
pub mod entity;
pub mod event_queue;
pub mod storage;
pub mod world;

pub use command_buffer::{CommandBuffer, PendingEntity};
pub use entity::Entity;
pub use event_queue::EventQueue;
pub use world::World;
