//! Set encoded topologies of artificial neural networks: genomes made of sets of node and
//! connection genes, the identity source that keeps structural innovations comparable across
//! genomes, the mutation operators and crossover, and the compatibility distance.

pub mod connections;
pub mod context;
pub mod distance;
pub mod genes;
pub mod genome;
pub mod ids;
pub mod mutations;
pub mod nodes;
pub mod parameters;
pub mod rng;

pub use connections::Connection;
pub use distance::CompatibilityDistance;
pub use genes::{Gene, Genes};
pub use genome::Genome;
pub use ids::{Id, IdGenerator, IdIter};
pub use mutations::{MutationError, MutationResult, Mutations};
pub use nodes::{Activation, Node};
pub use parameters::{Parameters, Structure};
pub use rng::{GenomeRng, PROBABILITY_ONE, WEIGHT_ONE};
