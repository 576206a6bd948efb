pub mod config;
pub mod evolution;
pub mod genotype;
pub mod parsing;
pub mod rng;
pub mod weighted_graph;
