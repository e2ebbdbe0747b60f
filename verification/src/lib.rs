//! A read-only spatial query engine for large point clouds.
//!
//! Point clouds are held in hierarchical spatial indices (an octree over an
//! axis-aligned cube, or a cell hierarchy over six quad-subdivided faces).
//! A query pairs a geometric location predicate with a set of requested
//! attribute names; the engine prunes index nodes against the predicate,
//! filters points of partially covered nodes, re-chunks the surviving points
//! into size-capped columnar batches and hands them to a consumer.

pub mod cell;
pub mod client;
pub mod data;
pub mod geom;
pub mod index;
pub mod pipeline;
pub mod query;
pub mod wire;
