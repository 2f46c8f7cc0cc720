//! Keyboard, mouse and scroll input: the key types, their config names, the
//! per-frame button state and the named action bindings.

pub mod action_map;
pub mod key_serde;
pub mod patch;
pub mod state;

pub use action_map::{ActionMap, ActionMapError, Binding};
pub use state::{InputState, KeyCode, MouseButton, ScrollDirection};
