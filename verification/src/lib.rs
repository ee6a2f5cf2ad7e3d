//! A small in-memory vector index: named vectors, a distance metric chosen by
//! name, and exact k-nearest-neighbour queries by linear scan.
//!
//! Vectors and distances are IEEE-754 binary64 numbers, held as their 64-bit
//! patterns. The library never computes with them: it decodes a pattern into
//! an ordered key and ranks stored vectors by the keys of their distances.

pub mod distance_order;
pub mod error;
pub mod json;
pub mod metrics;
pub mod nearest_neighbours;
pub mod ranking;
pub mod text;
pub mod types;
pub mod utils;

pub use error::NnError;
pub use metrics::{metric_factory, Metric};
pub use nearest_neighbours::NearestNeighbours;
pub use types::Distance;
pub use utils::integer_decode;
