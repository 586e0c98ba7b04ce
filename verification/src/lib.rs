//! Positional hidden Markov models under per-position constraints.

pub mod algebra;
pub mod bigint;
pub mod conditioning;
pub mod constrained_hidden_markov;
pub mod constraint_parser;
pub mod constraints;
pub mod corpus;
pub mod counting;
pub mod distribution;
pub mod errors;
pub mod hidden_markov;
pub mod laws;
pub mod model;
pub mod positional;
pub mod pruning;
pub mod renormalization;
pub mod round_trip;
pub mod sampling;
pub mod satisfaction;
pub mod text;
pub mod utils;
pub mod walk;
pub mod weight;
