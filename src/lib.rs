//! Physical page-frame accounting for early kernel bring-up: a fixed-capacity
//! bit vector and the frame allocator built on it.

pub mod bitmap;
pub mod pm;
