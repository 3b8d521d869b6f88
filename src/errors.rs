use vstd::prelude::*;

use crate::fowrectangle::FoWRectangle;

verus! {

/// The ways in which a request to the visibility engine can be refused.
#[derive(Debug, Clone, Copy, PartialEq, Eq)]
pub enum RustVttError {
    /// The observer does not lie strictly inside the map.
    OutOfBounds { coordinate: crate::vtt::Coordinate },
    /// The observer lies on a wall segment or a closed portal.
    InvalidPoint { coordinate: crate::vtt::Coordinate },
    /// The rectangle is already too small to be split further.
    MinimumRectangle { rectangle: FoWRectangle },
    /// The map image could not be read.
    NoImage,
    /// Visibility was asked of a node that is not a leaf.
    InvalidInput,
}

} // verus!
