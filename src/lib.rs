//! An evolutionary-optimisation engine: a population of fixed-length genomes
//! evolved by selection, recombination, mutation, fitness sharing, linear
//! scaling, generation-gap and crowding replacement, and elitism.
//!
//! Fitness values and distances are fixed-point integers (see `fixed`), and
//! every randomised step draws from an explicit, seedable `StdRng`.

pub mod crossover;
pub mod fitness;
pub mod fixed;
pub mod helpers;
pub mod maze;
pub mod mutation;
pub mod operators;
pub mod population;
pub mod problems;
pub mod random;
pub mod selection;
