use vstd::prelude::*;

use crate::tileset;

verus! {

/// For staggered and hexagonal maps, which axis is staggered.
#[derive(Clone, Copy, Debug, PartialEq, Eq, Structural)]
pub enum StaggerAxis {
    X,
    Y,
}

/// For staggered and hexagonal maps, whether the even or the odd indexes along
/// the staggered axis are shifted.
#[derive(Clone, Copy, Debug, PartialEq, Eq, Structural)]
pub enum StaggerIndex {
    Odd,
    Even,
}

/// Map orientation.
#[derive(Clone, Copy, Debug, PartialEq, Eq, Structural)]
pub enum Orientation {
    Orthogonal,
    Isometric,
    Staggered { stagger_axis: StaggerAxis, stagger_index: StaggerIndex },
    Hexagonal {
        /// The width or height (by the staggered axis) of a tile's edge, in pixels.
        hexside_length: i32,
        stagger_axis: StaggerAxis,
        stagger_index: StaggerIndex,
    },
}

/// The order in which the tiles of a layer are drawn, row by row.
#[derive(Clone, Copy, Debug, PartialEq, Eq, Structural)]
pub enum RenderOrder {
    RightDown,
    RightUp,
    LeftDown,
    LeftUp,
}

/// A tileset as a map refers to it: the first global id it covers, and the
/// tileset itself or the file that holds it.
#[derive(Clone, Debug)]
pub struct Tileset {
    /// The global id that maps to the first tile of this tileset.
    pub first_gid: u32,
    pub kind: TilesetKind,
}

/// A tileset written inside the map, or stored in a file of its own.
#[derive(Clone, Debug)]
pub enum TilesetKind {
    Embedded(tileset::Tileset),
    External {
        /// The file that holds the tileset.
        source: String,
    },
}

} // verus!
