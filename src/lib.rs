//! An interpreter for a small declarative language describing desired
//! filesystem state, with a verified parser and evaluator.
pub mod ast;
pub mod errors;
pub mod lexer;
pub mod grammar;
pub mod parser;
pub mod traits;
pub mod handle_exec;
pub mod memory_exec;
