//! A sprite "kitbashing" core: a tree of image parts and groups with
//! per-node offset/scale transforms, a deterministic flattening and
//! compositing engine, and per-part placement metadata for export.
//!
//! Positions and scales are exact fixed-point numbers in thousandths of a
//! pixel (see [`fx`]), so every transform composition, rounding step and
//! pixel of the composite is fully specified and verified.

pub mod compose;
pub mod doc;
pub mod export;
pub mod flatten;
pub mod fx;
pub mod meta;
pub mod raster;
pub mod tree;
