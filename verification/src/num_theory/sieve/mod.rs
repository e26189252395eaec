//! Sieves.

pub mod eratosthenes;
