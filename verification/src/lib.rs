//! Build-time asset packing for 2D sprite atlases.
//!
//! The crate trims transparent borders from RGBA sprite images, splits tile
//! sheets into individual tiles, packs the resulting rectangles into the
//! smallest power-of-two texture atlas, composites the packed image with
//! premultiplied alpha, and serializes the region table into a compact
//! binary layout.

pub mod asset_packer;
pub mod atlas;
pub mod codec;
pub mod image;
pub mod names;
pub mod preprocess;
pub mod rect_packer;

use vstd::prelude::*;

verus! {

/// A fatal asset-pipeline error: every variant reports a misconfigured
/// input set or an atlas that cannot be formed, and aborts the build.
#[derive(Debug, Clone, Copy, PartialEq, Eq, Structural)]
pub enum BuildError {
    /// A tile-sheet name carries a tile width of zero or one too large.
    InvalidTileWidth,
    /// A tile sheet's dimensions are not divisible by its tile width.
    NonDivisibleTileDims,
    /// A source image has no pixel with non-zero alpha.
    EmptyImage,
    /// Two images (or tiles) ended up with the same name.
    DuplicateName,
    /// An image name holds a character outside ASCII.
    NonAsciiName,
    /// No bin width up to the maximum dimension fits all rectangles.
    AtlasFailed,
    /// More regions than the binary atlas format can count.
    TooManyRegions,
}

} // verus!
