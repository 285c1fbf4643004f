//! Octree and Manifold Dual Contouring logic for isosurface extraction: the
//! octree's structure and its refinement decisions, the evaluation cache, the
//! connectivity of cell corners, and the integer steps of mesh extraction.
pub mod bbox;
pub mod dc;
pub mod eval;
pub mod octree;
