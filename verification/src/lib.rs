//! Empirical validation of the expected height of a zip tree: random items
//! paired with geometric ranks are ordered by descending rank and inserted,
//! without rebalancing, into a binary search tree whose height is then
//! measured against the asymptotic bound (3/2) ln n.

pub mod experiment;
pub mod histogram;
pub mod item;
pub mod order;
pub mod sample;
pub mod tree;
