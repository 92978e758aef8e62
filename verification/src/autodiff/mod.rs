//! Differentiation as graph transforms: symbolic (graph-to-graph)
//! differentiation and the structure of a differentiation trace.

pub mod backward;
pub mod forward;
pub mod jacobian;
pub mod outcome;
pub mod symbolic;
pub mod trace;
