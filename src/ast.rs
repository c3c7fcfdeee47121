//! The syntax tree produced by the parser.
use vstd::prelude::*;

verus! {

/// The local part of a path: a directory (written with a trailing separator,
/// stored without it) or a file (stored exactly as written).
#[derive(Debug, PartialEq, Eq, Clone)]
pub enum IdemPathLocalPartType {
    Directory(String),
    File(String),
}

/// A path occurrence: an optional qualifier (reserved) and its local part.
#[derive(Debug, PartialEq, Eq, Clone)]
pub struct IdemPath(pub Option<String>, pub IdemPathLocalPartType);

/// The subject of a `with` block.
#[derive(Debug, PartialEq, Eq, Clone)]
pub enum IdemResourceType {
    Directory(String),
    Host(String),
    File(String),
}

/// A value: a quoted literal, an extended string (reserved), or a path.
#[derive(Debug, PartialEq, Eq, Clone)]
pub enum IdemValueType {
    LitString(String),
    ExtendedString(String),
    PathSpec(IdemPath),
}

/// A text replacement of the edit sub-language.
#[derive(Debug, PartialEq, Eq, Clone)]
pub struct IdemReplace {
    regexp: String,
    replacement: String,
    global: bool,
}

/// One command of the edit sub-language.
#[derive(Debug, PartialEq, Eq, Clone)]
pub enum IdemEditCommandType {
    InsertStart(String),
    InsertEnd(String),
    InsertAfter(String, String),
}

/// An ordered sequence of edit commands.
#[derive(Debug, PartialEq, Eq, Clone)]
pub struct IdemEdit {
    commands: Vec<IdemEditCommandType>,
}

/// A modifier attached to a command over paths.
#[derive(Debug, PartialEq, Eq, Clone)]
pub enum IdemParamType {
    FlagKeyword(String),
    ShortFlags(Vec<char>),
    KeyValue(String, IdemValueType),
}

/// One or more paths with their parameters.
#[derive(Debug, PartialEq, Eq, Clone)]
pub struct IdemRawCommandWithPaths {
    pub paths: Vec<IdemPath>,
    pub params: Vec<IdemParamType>,
}

/// A statement of a script.
#[derive(Debug, PartialEq, Eq)]
pub enum IdemRawCommandType {
    /// `each <binding> in <collection> ... end`
    Each(String, IdemValueType, Vec<Box<IdemRawCommandType>>),
    /// `<path> <path>... (<param>, ...)`
    WithPaths(IdemRawCommandWithPaths),
    /// `with <resource> [as <alias>] ... end`
    WithBlock(IdemResourceType, Option<String>, Vec<Box<IdemRawCommandType>>),
}

impl IdemPath {
    /// The stored text of the local part.
    pub open spec fn local_text(self) -> Seq<char> {
        match self.1 {
            IdemPathLocalPartType::Directory(s) => s@,
            IdemPathLocalPartType::File(s) => s@,
        }
    }
}

} // verus!
