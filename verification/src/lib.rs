//! Photomosaic core: a content-addressed tile-library index, a nearest-color
//! matcher, and a block-by-block compositing pipeline, all with verified
//! contracts. File and directory reading, argument parsing and image
//! encoding stay outside; the library works on plain bytes and pixel
//! buffers handed in by its caller.
use vstd::prelude::*;

pub mod codec;
pub mod color;
pub mod compose;
pub mod fingerprint;
pub mod image_data;
pub mod index;
pub mod matcher;
pub mod params;
pub mod stage;
pub mod tile;
pub mod imagery;

verus! {

/// The fatal error conditions of the pipeline. Individual library files
/// that fail to decode are skipped during indexing and never surface here.
#[derive(Clone, Copy, Debug, PartialEq, Eq, Structural)]
pub enum MosaicError {
    /// The index holds no entry at all, so no tile can be matched.
    NoTilesAvailable,
    /// The persisted index document does not follow the index format.
    MalformedIndex,
    /// The source image bytes could not be decoded.
    SourceUndecodable,
    /// A chosen tile's bytes are missing from the library snapshot or no
    /// longer decode to a usable image.
    TileUnavailable,
    /// A numeric command-line value is not a decimal number in range.
    InvalidParameter,
}

} // verus!
