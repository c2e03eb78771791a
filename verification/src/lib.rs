//! Verified core of an image analysis and stereo 3D generator.

pub mod analysis;
pub mod depth;
pub mod filters;
pub mod grid;
pub mod raster;
pub mod stats;
pub mod stereo;
pub mod utils;
