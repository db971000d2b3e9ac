//! Character-level Markov chain: a dense weighted transition graph, fitting
//! from a word list, top-fraction weighted generation and a binary codec.

pub mod chain;
pub mod codec;
pub mod error;
pub mod graph;
pub mod sample;

pub use chain::TextMarkovChain;
pub use error::ChainError;
pub use graph::WeightedGraph;
