//! The capability interface through which the evaluator changes the world.
use vstd::prelude::*;
use crate::errors::ExecResult;

verus! {

/// What a file is to hold.
#[derive(Debug, PartialEq, Eq, Clone)]
pub enum FileContents {
    StaticString(String),
}

pub open spec fn contents_view(c: FileContents) -> Seq<char> {
    match c {
        FileContents::StaticString(s) => s@,
    }
}

/// An operation asked of a backend, with the local part it was given.
pub enum BackendCall {
    EnsureDirectory(Seq<char>),
    EnsureFile(Seq<char>),
    WriteFile(Seq<char>, Seq<char>),
}

/// An operation together with what the backend answered.
pub type Request = (BackendCall, ExecResult<()>);

/// An execution backend: idempotent filesystem operations.
///
/// A backend keeps a record of the operations it was asked for and of its
/// answers; each operation appends to it. An implementation whose methods
/// are verified gives its own record (the default records nothing, which no
/// operation's contract allows) and its own invariant, which every method
/// keeps.
///
/// Beyond what Verus checks, an implementation promises that
/// `ensure_directory` and `ensure_file_exists` succeed whether or not their
/// target already exists, that `ensure_file_exists` never alters an existing
/// file, and that after `ensure_file_contents` succeeds the file holds
/// exactly the given contents.
pub trait Exec {
    /// The operations asked for so far, in order, with the answers given.
    closed spec fn requests(&self) -> Seq<Request> {
        Seq::empty()
    }

    /// The backend's own invariant.
    closed spec fn inv(&self) -> bool {
        true
    }

    fn change_directory(&mut self, dir: &str) -> (r: ExecResult<()>)
        ensures
            final(self).requests() == old(self).requests(),
            old(self).inv() ==> final(self).inv(),
    ;

    fn ensure_directory(&mut self, local_part: &str) -> (r: ExecResult<()>)
        ensures
            final(self).requests() == old(self).requests().push(
                (BackendCall::EnsureDirectory(local_part@), r),
            ),
            old(self).inv() ==> final(self).inv(),
    ;

    fn ensure_file_exists(&mut self, local_part: &str) -> (r: ExecResult<()>)
        ensures
            final(self).requests() == old(self).requests().push(
                (BackendCall::EnsureFile(local_part@), r),
            ),
            old(self).inv() ==> final(self).inv(),
    ;

    fn ensure_file_contents(&mut self, local_part: &str, contents: FileContents) -> (r: ExecResult<
        (),
    >)
        ensures
            final(self).requests() == old(self).requests().push(
                (BackendCall::WriteFile(local_part@, contents_view(contents)), r),
            ),
            old(self).inv() ==> final(self).inv(),
    ;

    fn get_cwd(&mut self) -> (r: ExecResult<String>)
        ensures
            final(self).requests() == old(self).requests(),
            old(self).inv() ==> final(self).inv(),
    ;
}

} // verus!
