/// Pixels, channels, and per-channel floor-division averaging.
pub mod color;
/// The pixelation filter and its errors.
pub mod filter;
/// The block grid over an image and its exact-tiling laws.
pub mod grid;
/// The image buffer the filter reads and writes.
pub mod img;
/// One tile of the partition and how the tiles are collected.
pub mod pixel_slice;
