//! Graphs in compressed sparse row form, their strongly connected
//! components, and algorithms on rooted trees.

pub mod csr;
pub mod scc;
pub mod tree;

pub use csr::Csr;
