//! A verified disjoint-set (union-find) structure over a fixed universe of
//! integer indices, offering a naive, non-mutating tier (`find`, `union`) and
//! a path-compressing, depth-balancing tier (`compressed_find`,
//! `compressed_union`).

pub mod model;
pub mod lemmas;
pub mod forest;

pub use forest::DisjointSet;
pub use forest::ForestError;
