//! Batch-rename planning library.
//!
//! The heart of the crate is the rename-order solver: given a mapping from
//! target paths to source paths it detects collisions with pre-existing
//! filesystem entries, computes a collision-free execution order for the
//! batch, and defines the replay and undo semantics of a persisted journal.
//! Around it stand the path-hygiene pass that cleans a candidate list, the
//! conflict-map builder that detects duplicate targets, the journal codec,
//! and the small text-transformation helpers used to derive target names.
//!
//! All filesystem queries happen outside this crate: callers hand in plain
//! values (paths as strings together with the facts they observed, such as
//! which paths exist), and every function here is verified against its
//! contract for all such inputs.

pub mod strutil;
pub mod paths;
pub mod error;
pub mod solver;
pub mod renamer;
pub mod fileutils;
pub mod editor;
pub mod cli;
pub mod config;
pub mod dumpfile;
