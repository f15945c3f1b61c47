//! Assembly of tiled pyramidal images ("DZI" manifests): a verified manifest
//! parser, a verified tile-composition and cropping algorithm on RGBA rasters,
//! and the verified per-layer scheduling rules (scale factors, skip toggle).
//! File and image I/O live outside this crate; the library works on plain
//! bytes and pixels.

pub mod compose;
pub mod manifest;
pub mod plan;
pub mod raster;
pub mod text;
