//! Extraction of textures and sprites from a mobile game's asset packs.
//!
//! The library decodes compressed texture containers into RGBA rasters,
//! parses sprite description files into polygonal regions, infers each
//! region's orientation and lays out a shared sprite canvas. Reading and
//! writing files is left to the caller.

pub mod compose;
pub mod decompress;
pub mod error;
pub mod geometry;
pub mod names;
pub mod pixel;
pub mod raster;
pub mod reader;
pub mod sc;
pub mod tex;

pub use error::Error;
pub use reader::Reader;
