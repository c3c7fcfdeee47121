//! The errors of parsing and evaluation.
use vstd::prelude::*;

verus! {

/// What went wrong.
#[derive(Debug, PartialEq, Eq, Clone)]
pub enum ErrorType {
    /// Malformed syntax, an unterminated block or an unrecognised token, at
    /// the given character offset of the source.
    Parse(usize),
    /// A recognised construct whose execution is not defined.
    Unsupported(String),
    /// A well-formed command that breaks a precondition of the evaluator.
    Validation(String),
    /// A failure reported by the execution backend, with its cause.
    Backend(String),
}

/// An error of parsing or evaluation.
#[derive(Debug, PartialEq, Eq, Clone)]
pub struct Error {
    pub repr: ErrorType,
}

/// The result of a backend operation or of an evaluation.
pub type ExecResult<T> = core::result::Result<T, Error>;

impl Error {
    pub fn parse(pos: usize) -> (e: Error)
        ensures
            e.repr == ErrorType::Parse(pos),
    {
        Error { repr: ErrorType::Parse(pos) }
    }

    pub fn unsupported(msg: String) -> (e: Error)
        ensures
            e.repr == ErrorType::Unsupported(msg),
    {
        Error { repr: ErrorType::Unsupported(msg) }
    }

    pub fn validation(msg: String) -> (e: Error)
        ensures
            e.repr == ErrorType::Validation(msg),
    {
        Error { repr: ErrorType::Validation(msg) }
    }

    pub fn backend(msg: String) -> (e: Error)
        ensures
            e.repr == ErrorType::Backend(msg),
    {
        Error { repr: ErrorType::Backend(msg) }
    }

    /// The kind of this error.
    pub fn kind(&self) -> (k: &ErrorType)
        ensures
            *k == self.repr,
    {
        &self.repr
    }
}

} // verus!
