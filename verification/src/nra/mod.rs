//! Nonlinear real arithmetic: methods with calls of transcendental functions as
//! constraints over the reals.

pub mod encode;
pub mod engine;
pub mod meaning;
pub mod paths;
pub mod terms;
