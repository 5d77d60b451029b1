use vstd::prelude::*;

use crate::metadata::Metadata;

verus! {

/// The image that a tileset cuts its tiles from.
#[derive(Clone, Debug, PartialEq, Eq, Hash)]
pub struct Image {
    /// The reference to the tileset image file.
    pub source: String,
    /// A color treated as transparent, such as `#FF00FF`.
    pub transparent_color: Option<String>,
    /// The image width in pixels.
    pub width: u32,
    /// The image height in pixels.
    pub height: u32,
}

/// Per-tile information of a tileset.
#[derive(Clone, Debug, PartialEq, Eq, Hash)]
pub struct Tile {
    /// The local tile id within its tileset.
    pub id: u32,
    /// The type of the tile, naming an object type.
    pub tile_type: String,
}

/// A set of tiles cut from one image.
#[derive(Clone, Debug, PartialEq, Eq, Hash)]
pub struct Tileset {
    pub metadata: Option<Metadata>,
    /// The name of this tileset.
    pub name: String,
    /// The (maximum) width of the tiles in this tileset.
    pub tile_width: u32,
    /// The (maximum) height of the tiles in this tileset.
    pub tile_height: u32,
    /// The spacing in pixels between the tiles in the image.
    pub spacing: u32,
    /// The margin around the tiles in the image.
    pub margin: u32,
    /// The number of tiles in this tileset.
    pub tile_count: usize,
    /// The number of tile columns in the tileset.
    pub columns: u32,
    pub background_color: Option<String>,
    pub image: Image,
    pub tiles: Vec<Tile>,
}

} // verus!
