//! Algorithms on trees.

pub mod euler_tour;
pub mod lca;

pub use euler_tour::EulerTour;
pub use lca::Lca;
