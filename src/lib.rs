//! The core of a small interactive shell: a quote-aware parser that turns a
//! line into a pipeline of commands, and the decisions of the pipeline
//! executor (built-in dispatch, stream wiring, wait order, exit status).

pub mod command;
pub mod error;
pub mod parser;

pub use error::ShellError;
pub use parser::{parse_input, Command};
