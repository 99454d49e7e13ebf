//! A verified core for a portfolio verifier of JVM programs.

pub mod ai;
pub mod assoc;
pub mod body_analysis;
pub mod body_shape;
pub mod chc;
pub mod classfile;
pub mod concrete;
pub mod desc;
pub mod engine;
pub mod horn;
pub mod imc;
pub mod interpolation;
pub mod interval;
pub mod ir;
pub mod kinduction;
pub mod lia;
pub mod lift;
pub mod models;
pub mod nra;
pub mod postdom;
pub mod predicate;
pub mod program;
pub mod scan;
pub mod smt_bmc;
pub mod smt_encode;
pub mod smt_runs;
pub mod smt_text;
pub mod term;
pub mod text;
pub mod verdict;
