//! A package manager for Typst: the rules by which dependencies are declared,
//! located, resolved, pinned and linked.
//!
//! Reading and writing files, talking to Git and running Typst happen outside
//! this library, which is handed what was observed and answers what to do.

pub mod commands;
pub mod completions;
pub mod context;
pub mod files;
pub mod git;
pub mod graph;
pub mod hashing;
pub mod laws;
pub mod link_path;
pub mod lists;
pub mod lockfile;
pub mod manifest;
pub mod ops;
pub mod ordered;
pub mod package;
pub mod path;
pub mod project;
pub mod raw;
pub mod resolver;
pub mod shell;
pub mod sources;
pub mod stubs;
pub mod text;
pub mod transaction;
