//! Physics bookkeeping over integers: the keys that identify bodies and
//! contact pairs across frames, their hashes, the union-find that groups
//! touching bodies into islands, island sleep state, and the broadphase's
//! cell grid.

pub mod body;
pub mod grid;
pub mod islands;
pub mod keys;
pub mod sleep;
