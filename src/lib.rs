//! Discrete weighted Voronoi tessellation of an integer grid, grown by
//! wavefronts: each site claims the neighbors of the cells it claimed last
//! round, and a metric settles the cells that two sites reach.

mod discrete_voronoi;
mod grid;
pub mod reach;
pub mod metric;
mod order;
mod progress;
mod site;

pub use discrete_voronoi::{SiteOwner, VoronoiBuilder, VoronoiTesselation};
pub use grid::{BoundedCoordinatesIter, BoundingBox, Cell, Grid, GridIdx, GridIdxNeighborIter, MAX_EXTENT};
pub use site::{Point, PlainSite, Site};
