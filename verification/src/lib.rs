//! Indexing core of a vector similarity search engine: a layered
//! proximity graph over point ids for approximate nearest-neighbor
//! search with query-time filtering, and an exact-match field index over
//! payload values that answers filters and cardinality estimates.

pub mod graph;
pub mod hnsw;
pub mod map_index;
pub mod queue;
pub mod rng;
pub mod scorer;
pub mod types;
