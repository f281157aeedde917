//! Spatial-join and lot-boundary engine for parcel, zoning and building-footprint data.
//!
//! All geometry is held in one planar frame of integer coordinates, measured in
//! hundredths of a US survey foot, so every distance and area is computed in the
//! same planar space and exactly. Lots and zoning districts are indexed in that
//! frame too, so a probe point computed in feet is looked up directly. Reading
//! the source formats and the geodetic transform into the frame are the
//! caller's part.
//!
//! - `geometry`: points, rings, polygons, winding and bounding boxes.
//! - `index`: the read-only R-tree index with exact point lookups.
//! - `edges`: front / side / rear labels for a lot's boundary edges.
//! - `setback`: clearance from a footprint to each labelled edge.
//! - `neighbors`: radius-bounded neighbour queries and zoning lookups.
//! - `siting`: the per-footprint pipeline over all of the above.
pub mod geometry;
pub mod index;
pub mod edges;
pub mod setback;
pub mod neighbors;
pub mod siting;
