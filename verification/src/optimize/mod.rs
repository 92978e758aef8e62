//! Optimization passes over the arena: constant folding, common-subexpression
//! elimination, and dead-node elimination.

pub mod deadcode;
pub mod cse;
pub mod constfold;
pub mod preserve;
pub mod reshare;
