//! Scoring of road-network extractions against a ground-truth network.
//!
//! The crate builds topologically consistent graphs from independent
//! polylines, brings two graphs into one projected coordinate reference
//! system, and computes the TOPO precision/recall/F1 metric by resampling
//! edges into evenly spaced points and matching proposal points against
//! ground-truth points within a tolerance radius.
//!
//! All geometry is carried as exact integer coordinates in scaled linear
//! units (callers choose the scale, for example millimetres or centimetres
//! per unit); geographic coordinates are carried in microdegrees.

pub mod builder;
pub mod coords;
pub mod crs;
pub mod errors;
pub mod graph;
pub mod registry;
pub mod resample;
pub mod spatial_index;
pub mod topo;
pub mod unify;
