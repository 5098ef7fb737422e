//! Procedural solid meshes for a pinball table: an elliptical wedge, a
//! flipper paddle and an open-top tray.
//!
//! Each builder returns a [`mesh::MeshBuffer`] whose positions and normals
//! are symbolic: they name the sample of the shape a vertex stands on
//! (an angle step, a rim point, a box corner) rather than its coordinates.
//! The triangle lists, the winding and the way sub-meshes are stitched
//! together are fixed here and proved; turning the symbols into coordinates
//! for given dimensions is left to the caller.

pub mod mesh;
pub mod table;
pub mod wedge;
pub mod flipper;
