//! Derivation of the run configuration from the parsed arguments.
//!
//! Pattern compilation, terminal detection and printing stay outside the
//! library; the decisions — which run mode the arguments select, the
//! replacement-limit default, the dump default, and the mapping from the
//! replacement-transform flag to a text transformation — are made here.

use vstd::prelude::*;
use crate::cli::{Cli, SubCommands, ReplaceTransform};
use crate::renamer::TextTransformation;

verus! {

/// How the paths to rename are obtained.
pub enum RunMode {
    Simple(Vec<String>),
    Recursive { paths: Vec<String>, max_depth: Option<usize>, hidden: bool },
    FromFile { path: String, undo: bool },
}

/// The run mode selected by the arguments: the from-file subcommand wins,
/// then the recursive flag, and a plain path list otherwise.
pub fn run_mode_of(cli: &Cli) -> (r: RunMode)
    ensures
        match cli.command {
            Some(SubCommands::FromFile { dumpfile, undo }) => r matches RunMode::FromFile {
                path,
                undo: u,
            } && path@ == dumpfile@ && u == (undo matches Some(true)),
            _ => if cli.recursive {
                r matches RunMode::Recursive { paths, max_depth, hidden } && seq_eq_strings(
                    paths@,
                    cli.paths@,
                ) && max_depth == cli.max_depth && hidden == cli.hidden
            } else {
                r matches RunMode::Simple(paths) && seq_eq_strings(paths@, cli.paths@)
            },
        },
{
    if let Some(SubCommands::FromFile { dumpfile, undo }) = &cli.command {
        let undo_flag = match undo {
            Some(u) => *u,
            None => false,
        };
        return RunMode::FromFile { path: dumpfile.clone(), undo: undo_flag };
    }
    if cli.recursive {
        RunMode::Recursive {
            paths: clone_strings(&cli.paths),
            max_depth: cli.max_depth,
            hidden: cli.hidden,
        }
    } else {
        RunMode::Simple(clone_strings(&cli.paths))
    }
}

/// Whether two string lists hold the same strings, element for element.
pub open spec fn seq_eq_strings(a: Seq<String>, b: Seq<String>) -> bool {
    a.len() == b.len() && forall|i: int| 0 <= i < a.len() ==> a[i]@ == b[i]@
}

/// Copy a list of strings.
fn clone_strings(v: &Vec<String>) -> (r: Vec<String>)
    ensures
        seq_eq_strings(r@, v@),
{
    let mut r: Vec<String> = Vec::new();
    let mut i: usize = 0;
    while i < v.len()
        invariant
            i <= v@.len(),
            r@.len() == i,
            forall|k: int| 0 <= k < i ==> r@[k]@ == v@[k]@,
        decreases v@.len() - i,
    {
        r.push(v[i].clone());
        i = i + 1;
    }
    r
}

/// The replacement limit: all matches when 0, one match by default.
pub fn replace_limit_of(cli: &Cli) -> (r: usize)
    ensures
        r == (match cli.replace_limit {
            Some(l) => l,
            None => 1usize,
        }),
{
    match cli.replace_limit {
        Some(l) => l,
        None => 1,
    }
}

/// The dump default: write a journal whenever changes are forced, unless
/// suppressed; in dry-run mode only when explicitly asked.
pub fn dump_flag(force: bool, dump: bool, no_dump: bool) -> (r: bool)
    ensures
        r == (if force {
            !no_dump
        } else {
            dump
        }),
{
    if force {
        !no_dump
    } else {
        dump
    }
}

impl From<Option<ReplaceTransform>> for TextTransformation {
    /// The text transformation selected by the replacement-transform flag.
    fn from(value: Option<ReplaceTransform>) -> (r: Self) {
        match value {
            Some(transform) => match transform {
                ReplaceTransform::Upper => TextTransformation::Upper,
                ReplaceTransform::Lower => TextTransformation::Lower,
                ReplaceTransform::ASCII => TextTransformation::ASCII,
            },
            None => TextTransformation::Unchanged,
        }
    }
}

impl vstd::std_specs::convert::FromSpecImpl<Option<ReplaceTransform>> for TextTransformation {
    open spec fn obeys_from_spec() -> bool {
        true
    }

    open spec fn from_spec(value: Option<ReplaceTransform>) -> Self {
        match value {
            Some(ReplaceTransform::Upper) => TextTransformation::Upper,
            Some(ReplaceTransform::Lower) => TextTransformation::Lower,
            Some(ReplaceTransform::ASCII) => TextTransformation::ASCII,
            None => TextTransformation::Unchanged,
        }
    }
}

} // verus!
