//! Escape-time fractal rasterisation: shading, band partitioning of the
//! pixel buffer, the sequential renderer and the parsing of numeric pairs.

pub mod bands;
pub mod method;
pub mod pair;
pub mod raster;
pub mod shading;
