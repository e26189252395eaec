//! Algorithms on sequences.

pub mod dasg;
pub mod lis;

pub use dasg::Dasg;
pub use lis::{lis, lis_len};
