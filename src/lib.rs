//! Level sets of scalar fields sampled on regular grids, by marching tetrahedra in 3D and
//! marching triangles in 2D.
//!
//! The library decides the combinatorics of the extraction: which sample lies inside the level
//! set, how each cell is cut into simplices, which simplex edges the level set crosses, how the
//! crossings form triangles, and how the 2D segments chain into connected isolines. A crossing is
//! reported as the pair of grid nodes whose edge it lies on; where exactly it lies on that edge
//! is a linear interpolation of the two samples, which the caller evaluates in its own scalar
//! type (see [`Interpolate`]).
use vstd::prelude::*;

pub mod grid;
pub mod interpolate;
pub mod isoline;
pub mod isosurface;
pub mod square;
pub mod tetrahedron;
mod trace;

pub use grid::ExtractError;
pub use interpolate::Interpolate;
pub use isoline::{crossing_nodes, marching_triangles, marching_triangles_emit_connected_edges, Isoline};
pub use isosurface::{
    marching_tetrahedra, marching_tetrahedra_cube, marching_tetrahedra_triangles, SurfaceMesh,
};
pub use square::{square_crossings, square_table};
pub use tetrahedron::{tetrahedron, TetrahedronCut};

verus! {

} // verus!
