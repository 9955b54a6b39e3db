//! Extraction and repair of the outer shell of a triangulated surface.
//!
//! A mesh is a list of points and a list of triangles, each triangle three
//! indices into the points in winding order. The outer shell is what is left
//! when every triangle with an enclosed corner is dropped; a point is
//! enclosed when rays from it, both ways along an axis, meet the mesh. The
//! repair gives the triangles a consistent winding and drops those at
//! vertices where the surface is pinched.
//!
//! Coordinates are fixed-point numbers: an integer counts units of
//! `1 / SCALE` of a length unit, so every geometric predicate is decided
//! exactly, and is stated over the integers.
//!
//! A set of triangles is held as a list without repetition, in an order
//! that every pass defines.

pub mod buckets;
pub mod components;
pub mod cuboid;
pub mod decimal;
pub mod inside;
pub mod intersection;
pub mod mesh_text;
pub mod orient;
pub mod pipeline;
pub mod prune;
pub mod seqs;
pub mod shell;
pub mod tiles;
pub mod topology;
pub mod triangle;
pub mod vector;
pub mod walk;
