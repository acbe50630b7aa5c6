//! Command-line values, as plain data.
//!
//! Argument parsing itself happens outside the library; the parsed values
//! arrive here as a [`Cli`] record, and the configuration module derives
//! the run mode and defaults from it.

use vstd::prelude::*;
use crate::strutil::{is_usize_string, parse_usize};

verus! {

/// The parsed command-line arguments.
pub struct Cli {
    pub command: Option<SubCommands>,
    /// Expression to match (can be a regex).
    pub expression: String,
    /// Expression replacement (use single quotes for capture groups).
    pub replacement: String,
    /// Only show what would be done (default mode).
    pub dry_run: bool,
    /// Make actual changes to files.
    pub force: bool,
    /// Generate file backups before renaming.
    pub backup: bool,
    /// Do not print any information.
    pub silent: bool,
    /// Set color output mode.
    pub color: Color,
    /// Force dumping operations into a file even in dry-run mode.
    pub dump: bool,
    /// Do not dump operations into a file.
    pub no_dump: bool,
    /// Target paths.
    pub paths: Vec<String>,
    /// Rename matching directories.
    pub include_dirs: bool,
    /// Recursive mode.
    pub recursive: bool,
    /// Set max depth in recursive mode.
    pub max_depth: Option<usize>,
    /// Include hidden files and directories.
    pub hidden: bool,
    /// Limit of replacements, all matches if set to 0.
    pub replace_limit: Option<usize>,
    /// Apply a transformation to replacements including captured groups.
    pub replace_transform: Option<ReplaceTransform>,
}

/// The subcommands.
pub enum SubCommands {
    /// Read operations from a dump file.
    FromFile { dumpfile: String, undo: Option<bool> },
    /// Replace file name UTF-8 chars with ASCII chars representation.
    ToASCII,
}

/// Color output mode.
#[derive(Copy, Clone, PartialEq, Eq, Structural)]
pub enum Color {
    Always,
    Never,
    Auto,
}

/// Transformation applied to replacements.
#[derive(Copy, Clone, PartialEq, Eq, Structural)]
pub enum ReplaceTransform {
    Upper,
    Lower,
    ASCII,
}

/// Validate that an argument is a decimal number that fits the machine
/// word.
pub fn is_integer(arg_value: String) -> (r: Result<(), String>)
    ensures
        r is Ok <==> is_usize_string(arg_value@),
        r matches Err(msg) ==> msg@ == "Value provided is not an integer"@,
{
    match parse_usize(&arg_value) {
        Some(_) => Ok(()),
        None => Err(String::from_str("Value provided is not an integer")),
    }
}

} // verus!
