//! A generational neuro-evolution engine: fixed-topology feed-forward
//! network genomes with forward evaluation, point mutation, a pairwise
//! similarity metric, greedy speciation, and elitist generational
//! replacement under a fixed population budget.
//!
//! Scalars live on a fixed-point number line (`i64` counted in
//! millionths of `fixed::ONE`) with saturating arithmetic, so every
//! numeric step of the engine carries an exact, machine-checked
//! contract.

pub mod fixed;
pub mod individual;
pub mod matrix;
pub mod population;
pub mod rng;
pub mod sigmoid;

pub use fixed::HALF;
pub use fixed::ONE;
pub use individual::Individual;
pub use individual::Shape;
pub use individual::MUTATION_RANGE;
pub use matrix::Matrix;
pub use population::Population;
pub use population::SPECIES_THRESHOLD;
pub use rng::RandomSource;
