//! Genome engine for NEAT (NeuroEvolution of Augmenting Topologies): the gene
//! graph of one individual, its structural mutations, the historical markings
//! that make genes of different individuals comparable, gene alignment for
//! crossover and compatibility distance, and the feed-forward activation order.
//!
//! Weights, fitness values and coefficients are single-precision floats held
//! by their IEEE-754 bit patterns (`u32`): the library moves them around but
//! never does arithmetic on them. Numeric work is done by an [`Activation`]
//! supplied by the caller.
pub mod activation;
pub mod alignment;
pub mod config;
pub mod crossover;
pub mod genes;
pub mod genome;
pub mod innov;
pub mod mutation;
pub mod population;
mod random;

pub use activation::{Activation, ActivationError};
pub use alignment::{Alignment, CompareError, MatchedPair};
pub use config::{Config, ConfigView};
pub use crossover::{CrossoverError, Fitter};
pub use genes::{ConnGene, ConnView, NodeGene, NodeKind, NodeView};
pub use genome::{FeedForwardGenome, GenomeView, GraphError, UNIT_WEIGHT};
pub use mutation::MutationError;
pub use innov::{Innov, InnovationTracker};
pub use population::{Population, Species};
