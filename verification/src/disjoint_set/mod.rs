//! Disjoint-set forests.

pub mod plain;
pub mod potential;

pub use plain::Dsu;
pub use potential::PotentialDsu;
