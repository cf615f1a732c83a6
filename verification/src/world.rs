//! Plain identifiers of world spaces, cells and stable objects.

use vstd::prelude::*;

verus! {

/// Identifier of one world space of the project.
#[derive(Clone, Copy, Debug, PartialEq, Eq, Hash, Structural)]
pub struct WorldSpaceId(pub u32);

/// Integer coordinate of one square world cell.
#[derive(Clone, Copy, Debug, PartialEq, Eq, Hash, Structural)]
pub struct CellCoord {
    pub x: i32,
    pub z: i32,
}

impl CellCoord {
    /// The cell at the world origin.
    pub fn zero() -> (cell: CellCoord)
        ensures
            cell.x == 0 && cell.z == 0,
    {
        CellCoord { x: 0, z: 0 }
    }
}

/// Stable identity of an authored object, kept across sessions.
#[derive(Clone, Copy, Debug, PartialEq, Eq, Hash, Structural)]
pub struct StableObjectId(pub u128);

} // verus!
