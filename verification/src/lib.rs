//! Integer-grid geometry for stacked silhouettes: discrete outlines are built
//! from fragments, turned into scanline regions, and regions hide one another
//! layer by layer.
//!
//! Every executable function carries a contract over the mathematical models
//! in [`model`]: a row is a sequence of column spans, a region is a run of
//! rows, and both are read as sets of cells.

pub mod area;
pub mod curve;
pub mod extract;
pub mod layers;
pub mod model;
pub mod occlusion;
pub mod point;
pub mod raster;
pub mod sorting;
