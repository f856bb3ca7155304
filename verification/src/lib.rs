//! Hierarchical Voronoi diagrams for a cellular world: the cells, the
//! topology recovered from a Delaunay triangulation, and the layered tree that
//! nests fine cells inside coarse ones.

pub mod error;
pub mod voronoi;
