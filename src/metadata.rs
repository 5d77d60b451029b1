use vstd::prelude::*;

verus! {

/// The format version and the editor version that a map or tileset was saved with.
#[derive(Clone, Debug, PartialEq, Eq, Hash)]
pub struct Metadata {
    pub version: String,
    pub tiled_version: String,
}

} // verus!
