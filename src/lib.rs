//! Turns a raster image into a grid of small color identifiers with a lookup
//! table of hex colors, renders that document as JSON, and rebuilds an image
//! from such a document.
use vstd::prelude::*;

pub mod color;
pub mod grid;
pub mod image;
pub mod json;
pub mod laws;
pub mod rebuild;
pub mod table;
pub mod text;

verus! {

/// Errors of the library.
#[derive(Clone, Copy, Debug, PartialEq, Eq, Structural)]
pub enum GridError {
    /// A block size of zero.
    InvalidArgument,
    /// A malformed hex color or document.
    FormatError,
}

} // verus!
