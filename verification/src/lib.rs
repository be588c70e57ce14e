//! Mask region extraction.
//!
//! A mask is a raster image whose pixel colors encode logical regions: the hue
//! of a fully opaque pixel names the region it belongs to, and every fully
//! opaque pixel that falls on a sampling grid is also collected as a sample
//! point. Scanning such a mask recovers, for each region identifier, the
//! smallest axis-aligned rectangle containing its sampled pixels, together
//! with the ordered list of sample points, both expressed in world
//! coordinates (origin at the image center, y axis pointing up).

pub mod color;
pub mod extract;
pub mod grid;
pub mod ident;
pub mod mask;
pub mod world;
