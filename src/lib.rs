pub mod adjacency;
pub mod edge;
pub mod histogram;
pub mod pipeline;

pub use adjacency::{adj_list, calc_length, AdjacencyMap};
pub use edge::{edge_from_fields, Edge};
pub use histogram::length_freq;
pub use pipeline::degree_distribution;
