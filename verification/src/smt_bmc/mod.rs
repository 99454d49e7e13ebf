//! Bounded model checking with an SMT solver: paths are encoded symbolically
//! and the solver is asked for inputs that violate an obligation.

pub mod array_meaning;
pub mod char_encode;
pub mod effects;
pub mod encode;
pub mod explore;
pub mod formula;
pub mod frames;
pub mod heap;
pub mod math_encode;
pub mod math_meaning;
pub mod meaning;
pub mod merge;
pub mod paths;
pub mod report;
pub mod runs;
pub mod rvalue;
pub mod sound;
pub mod state;
pub mod str_encode;
pub mod str_formula;
pub mod str_meaning;
pub mod wide;
pub mod wrap_encode;
