//! Heuristic packing of rectangular items into one rectangular bin, with
//! axis-aligned rotations only, over exact integer lengths.

pub mod free_space;
pub mod geometry;
pub mod orientation;
pub mod packer;
pub mod sorting;
pub mod packer_io;
