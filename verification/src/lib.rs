//! Adaptive triangle meshes over square height grids.
//!
//! A grid of side `2^k + 1` is read as an implicit binary tree of right
//! isosceles triangles. Every triangle that can still be bisected gets the
//! worst interpolation error that leaving out its hypotenuse midpoint would
//! cause, and a mesh is cut from the tree by bisecting exactly the triangles
//! whose error exceeds a tolerance.
//!
//! Heights are integers. A sample is an 8-bit intensity, a terrain height is
//! an intensity multiplied by an integer height scale, and errors are counted
//! in half height units so that the average of two heights needs no rounding.

pub mod error_map;
pub mod extract;
pub mod grid;
pub mod heightmaps;
pub mod selection;
pub mod terrain;
pub mod theorems;
