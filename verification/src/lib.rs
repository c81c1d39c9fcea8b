//! Spatial image filters, verified: box blur, Gaussian blur, Sobel edge
//! detection and emboss, as exact-rational convolutions of 8-bit pixel
//! planes with square kernels, under edge-clamped boundary sampling and a
//! closed set of normalization policies.

pub mod engine;
pub mod gradient;
pub mod kernels;
pub mod laws;
pub mod operator;
pub mod plane;
