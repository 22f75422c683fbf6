//! Converts a raster image into a fixed-width hex stream for hardware memories:
//! nearest-neighbour resampling, per-channel quantization, and bit packing.

pub mod packing;
pub mod pipeline;
pub mod quantize;
pub mod raster;
