//! Which operation a command line asks for.

use vstd::prelude::*;

use crate::manifest::Dependency;
use crate::ops::{AddOptions, RemoveOptions};

verus! {

/// A command as it was given.
#[derive(Debug)]
pub enum Command {
    Add {
        name: Option<String>,
        git: Option<String>,
        path: Option<String>,
        branch: Option<String>,
        tag: Option<String>,
        rev: Option<String>,
        namespace: String,
    },
    Remove { names: Vec<String> },
    Sync,
    Update,
    Completions,
    Typst,
}

/// What is to be done.
#[derive(Debug)]
pub enum Task {
    /// Write shell completions, which needs no project.
    Completions,
    Add(AddOptions),
    Remove(RemoveOptions),
    Sync,
    Update,
    /// Run Typst; tells whether a manifest was named.
    Typst { explicit_manifest: bool },
}

/// What a command asks for; `explicit_manifest` tells whether a manifest was named.
pub fn run(command: Command, explicit_manifest: bool) -> (r: Task)
    ensures
        match command {
            Command::Add { name, git, path, branch, tag, rev, namespace } => r == Task::Add(
                AddOptions {
                    name,
                    dependency: Dependency { git, path, branch, tag, rev, namespace },
                },
            ),
            Command::Remove { names } => r == Task::Remove(RemoveOptions { names }),
            Command::Sync => r == Task::Sync,
            Command::Update => r == Task::Update,
            Command::Completions => r == Task::Completions,
            Command::Typst => r == (Task::Typst { explicit_manifest }),
        },
{
    match command {
        Command::Add { name, git, path, branch, tag, rev, namespace } => Task::Add(
            AddOptions {
                name,
                dependency: Dependency { git, path, branch, tag, rev, namespace },
            },
        ),
        Command::Remove { names } => Task::Remove(RemoveOptions { names }),
        Command::Sync => Task::Sync,
        Command::Update => Task::Update,
        Command::Completions => Task::Completions,
        Command::Typst => Task::Typst { explicit_manifest },
    }
}

} // verus!
