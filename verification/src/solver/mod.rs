//! Solvers built on engine graphs: the forward kinematics an inverse-kinematics
//! solve differentiates.

pub mod ik;
