//! A spatial index for proximity queries over moving bodies: integer
//! coordinates, axis-aligned regions, a generation-checked slot map and the
//! quad tree built from them.

use vstd::prelude::*;

pub mod coord;
pub mod node;
pub mod region;
pub mod slot_map;
pub mod tree;

verus! {

/// Occupants a leaf may hold before it is split.
pub const MAX_CELL_SIZE: usize = 10;

/// Depth at which a leaf is split no further, however many it holds.
pub const MAX_DEPTH: usize = 7;

} // verus!
