//! The concrete interpreter: runs the program once with default values for
//! nondeterministic inputs. It finds violations that need no particular input.

pub mod entry;
pub mod laws;
pub mod machine;
pub mod probe;
pub mod run;
pub mod value;
