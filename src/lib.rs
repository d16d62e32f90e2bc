//! Move a sprite toward the last clicked point, one clamped step per frame.
//!
//! World coordinates are whole world units (one unit is one pixel under a
//! default 2D orthographic camera), so every step is exact integer arithmetic.

pub mod geometry;
pub mod mover;
pub mod tracker;
pub mod scene;
