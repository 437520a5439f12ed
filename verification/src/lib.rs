//! Blitz3D `.b3d` to glTF 2.0 conversion: the verified core.
//!
//! Floating-point values of the model are carried as their IEEE-754 bit
//! patterns (`u32`); every operation performed on them here (sign flips,
//! reordering, copying into little-endian buffers) is exact on the bits.

pub mod b3d;
pub mod cli;
pub mod buffers;
pub mod glb;
pub mod materials;
pub mod math;
pub mod paths;
pub mod texture;
pub mod writer;
