//! Generic range-query engines over caller-supplied algebraic structures:
//! the segment-tree family for point and range updates with range folds.
//! With them come the algebraic capability contracts they are generic
//! over, a few concrete structures that meet those contracts, and the peer
//! structures and utilities that accompany the engines: Fenwick trees,
//! sparse tables, disjoint-set forests, matrices, number theory, plane
//! geometry, graphs in compressed sparse row form with their strongly
//! connected components and with Euler tours and lowest common ancestors
//! of rooted trees, and sequence algorithms.

pub mod algebra;
pub mod disjoint_set;
pub mod fenwick_tree;
pub mod geome;
pub mod graphia;
pub mod linear;
pub mod modular;
pub mod monoids;
pub mod num_theory;
pub mod segment_tree;
pub mod seqenz;
pub mod sparse_table;
