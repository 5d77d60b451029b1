//! Tile-map data decoding: a schema-free markup-to-value converter and the
//! tile-layer payload pipeline (encoding resolution, CSV and binary decoding,
//! flip-flag access and layer assembly).

pub mod csv;
pub mod decode;
pub mod layer;
pub mod map;
pub mod markup;
pub mod metadata;
pub mod text;
pub mod tileset;
pub mod to_json;

pub use tileset::Tileset;
