//! Body kinds.

use vstd::prelude::*;

verus! {

/// Static or integrated body.
#[derive(Debug, Clone, Copy, PartialEq, Eq, Structural)]
pub enum BodyKind {
    Static,
    Dynamic,
}

} // verus!
