//! Collision meshes for tile grids.
//!
//! A level is a rectangular grid of tiles, each either solid or empty. To
//! hand the solid area to a physics engine as few static colliders as the
//! row-merge scheme allows, the crate coalesces horizontally contiguous
//! solid tiles of each row into plates, then stacks vertically adjacent
//! plates of identical horizontal extent into rectangles, and finally turns
//! each rectangle into a collider descriptor (center and half-extent in
//! world units).

pub mod colliders;
pub mod grid;
pub mod plates;
pub mod rects;
