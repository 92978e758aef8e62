//! A differentiable expression compiler: source text is lexed, parsed with a
//! Pratt parser and lowered (with hash-consing) into an arena graph, which the
//! optimizer passes and the symbolic differentiator then rewrite.
//!
//! Every numeric payload in the graph (a constant or a `pow` exponent) is held
//! as the IEEE-754 bit pattern of an `f64`; the arithmetic on those values is
//! supplied by the caller, so the structural passes here are verified for every
//! choice of it.

pub mod api;
pub mod autodiff;
pub mod error;
pub mod graph;
pub mod optimize;
pub mod parse;
pub mod solver;
