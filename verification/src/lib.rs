//! Approximate nearest-neighbour indexes (NSW, HNSW, IVF-Flat) over row ids.
//!
//! Every decision these indexes take about vectors goes through an integer
//! distance key: a number that orders rows exactly as their distances do.
//! Computing those keys from vector components is left to the caller.
pub mod types;
pub mod order;
pub mod graph;
pub mod rng;
pub mod layer;
pub mod link;
pub mod dataset;
pub mod nsw;
pub mod hnsw;
pub mod topk;
pub mod ivf;
