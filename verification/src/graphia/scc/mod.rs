//! Strongly connected components of directed graphs.

pub mod kosaraju;
pub mod reach;

pub use kosaraju::kosaraju;
