//! A small interpreter for an eight-instruction tape language.
//!
//! [`translate::parse`] turns source bytes into a program whose loop
//! brackets already know their partner; [`machine::step`] and
//! [`machine::run`] execute such a program on a tape of 30,000 byte cells.

pub mod op;
pub mod translate;
pub mod machine;

pub use machine::{run, step, RunError, State, TAPE_LEN};
pub use op::Op;
pub use translate::{parse, SyntaxError};
