//! The segment-tree family: fold-only, apply-only and fold-and-apply engines.

pub mod base;
pub mod dual;
pub mod frontier;
pub mod lazy;
pub mod laws;
pub mod layout;
pub mod monoid;
pub mod tags;

pub use base::SegmentTree;
pub use dual::DualSegmentTree;
pub use lazy::LazySegmentTree;
pub use monoid::{Action, Monoid};
