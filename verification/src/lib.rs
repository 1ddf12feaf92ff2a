//! Genetic programming over a tiny stack-machine language.
//!
//! The crate has two halves: a stack machine that deterministically executes
//! small loop-free programs (`lang`), and a generic evolution engine (`gene`)
//! that improves a fixed-size population of candidate solutions with
//! selection, crossover, mutation and replenishment. `prog_gene` ties the two
//! together by encoding programs as genes, and `rng` supplies the random
//! source capability that every stochastic operator draws from.

pub mod gene;
pub mod lang;
pub mod prog_gene;
pub mod rng;
