//! Metropolis Monte Carlo for the two-dimensional Ising model on a periodic
//! rectangular lattice.
//!
//! Everything is held as integers. A spin is `1` or `-1`, an energy is an
//! integer, a magnetisation is the sum of the spins (the mean per site is
//! that sum over the number of sites), and a probability is a whole number of
//! steps of `1 / RESOLUTION`.

pub mod configuration;
pub mod engine;
pub mod lattice;
pub mod observables;
pub mod physics;
pub mod rng;
pub mod schedule;
pub mod sums;
pub mod trials;
