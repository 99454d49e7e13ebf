//! Bytecode to intermediate representation.
//!
//! Instructions are decoded, the code is cut into blocks, and each block is
//! lifted while the operand stack is simulated. At the end of a block the stack
//! is spilled into one variable for each position. The simulated stack has one
//! entry for each value, also for `long` and `double`. What is not modelled ends
//! its block with a divergence.

pub mod decode;
pub mod follows;
pub mod frame;
pub mod insn;
pub mod laws;
pub mod method;
pub mod step;
