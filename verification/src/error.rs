//! Error values reported by the library.

use vstd::prelude::*;

verus! {

/// Errors during batch processing.
#[derive(Clone, Debug)]
pub struct Error {
    /// Define the type of error.
    pub kind: ErrorKind,
    /// Value associated to the error.
    pub value: Option<String>,
}

/// Define type of error.
#[derive(Clone, Copy, Debug, PartialEq, Eq, Structural)]
pub enum ErrorKind {
    CreateBackup,
    CreateFile,
    CreateSymlink,
    EditorCommand,
    EditorLineCount,
    ExistingPath,
    JsonParse,
    ReadFile,
    Rename,
    SameFilename,
    SolveOrder,
}

/// The short description attached to each error kind.
pub open spec fn description_spec(kind: ErrorKind) -> Seq<char> {
    match kind {
        ErrorKind::CreateBackup => "Cannot create a backup of "@,
        ErrorKind::CreateFile => "Cannot create file "@,
        ErrorKind::CreateSymlink => "Cannot create symlink "@,
        ErrorKind::EditorCommand => "Cannot run editor command "@,
        ErrorKind::EditorLineCount => "Cannot parse edited line "@,
        ErrorKind::ExistingPath => "Conflict with existing path "@,
        ErrorKind::JsonParse => "Cannot parse JSON file "@,
        ErrorKind::ReadFile => "Cannot open/read file "@,
        ErrorKind::Rename => "Cannot rename "@,
        ErrorKind::SameFilename => "Files will have the same name\n"@,
        ErrorKind::SolveOrder => "Cannot solve sorting problem."@,
    }
}

impl Error {
    /// A short human-readable description of the error kind.
    pub fn description(&self) -> (r: &str)
        ensures
            r@ == description_spec(self.kind),
    {
        match self.kind {
            ErrorKind::CreateBackup => "Cannot create a backup of ",
            ErrorKind::CreateFile => "Cannot create file ",
            ErrorKind::CreateSymlink => "Cannot create symlink ",
            ErrorKind::EditorCommand => "Cannot run editor command ",
            ErrorKind::EditorLineCount => "Cannot parse edited line ",
            ErrorKind::ExistingPath => "Conflict with existing path ",
            ErrorKind::JsonParse => "Cannot parse JSON file ",
            ErrorKind::ReadFile => "Cannot open/read file ",
            ErrorKind::Rename => "Cannot rename ",
            ErrorKind::SameFilename => "Files will have the same name\n",
            ErrorKind::SolveOrder => "Cannot solve sorting problem.",
        }
    }
}

} // verus!
