//! Verified core of the toybox engine: resource scoping, borrow tracking,
//! audio graph scheduling, mesh building and shader import resolution.

pub mod utility;
pub mod audio;
pub mod gfx;
pub mod input;
pub mod text;
pub mod cfg;
