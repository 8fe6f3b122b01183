//! What may be done with the file system entry that stands at a path.

use vstd::prelude::*;

use crate::path::{parent, parent_text};
use crate::text::{plus, plus3};

verus! {

broadcast use vstd::string::group_string_axioms;

/// What stands at a path, symbolic links not followed.
#[derive(Clone, Copy, Debug, PartialEq, Eq, Structural)]
pub enum EntryKind {
    Missing,
    File,
    Directory,
    Symlink,
    Other,
}

/// Why an entry is left alone.
#[derive(Debug)]
pub enum FileError {
    /// A directory was wanted and something else is there.
    NotDirectory(String),
    /// A regular file was wanted and something else is there.
    NotFile(String),
}

/// Why an entry is left alone, with the path as text.
pub enum FileFault {
    NotDirectory(Seq<char>),
    NotFile(Seq<char>),
}

impl View for FileError {
    type V = FileFault;

    open spec fn view(&self) -> FileFault {
        match self {
            FileError::NotDirectory(path) => FileFault::NotDirectory(path@),
            FileError::NotFile(path) => FileFault::NotFile(path@),
        }
    }
}

/// The text shown for a refused entry.
pub open spec fn fault_text(fault: FileFault) -> Seq<char> {
    match fault {
        FileFault::NotDirectory(path) => "refusing to follow a symlink or non-directory at "@
            + path,
        FileFault::NotFile(path) => "refusing to replace a symlink or non-file at "@ + path,
    }
}

impl FileError {
    /// The text shown to the user.
    pub fn message(&self) -> (r: String)
        ensures
            r@ == fault_text(self@),
    {
        match self {
            FileError::NotDirectory(path) => plus(
                "refusing to follow a symlink or non-directory at ",
                path.as_str(),
            ),
            FileError::NotFile(path) => plus(
                "refusing to replace a symlink or non-file at ",
                path.as_str(),
            ),
        }
    }
}

/// Accepts a directory or nothing at `path`, where `kind` stands.
pub fn require_directory_if_present(path: &str, kind: EntryKind) -> (r: Result<(), FileError>)
    ensures
        match r {
            Ok(()) => kind is Missing || kind is Directory,
            Err(e) => !(kind is Missing) && !(kind is Directory) && e@ == FileFault::NotDirectory(
                path@,
            ),
        },
{
    match kind {
        EntryKind::Missing | EntryKind::Directory => Ok(()),
        _ => Err(FileError::NotDirectory(path.to_owned())),
    }
}

/// Accepts a regular file or nothing at `path`, where `kind` stands; tells whether it is there.
pub fn require_regular_file_if_present(path: &str, kind: EntryKind) -> (r: Result<bool, FileError>)
    ensures
        match r {
            Ok(present) => (kind is Missing || kind is File) && present == (kind is File),
            Err(e) => !(kind is Missing) && !(kind is File) && e@ == FileFault::NotFile(path@),
        },
{
    match kind {
        EntryKind::Missing => Ok(false),
        EntryKind::File => Ok(true),
        _ => Err(FileError::NotFile(path.to_owned())),
    }
}

/// Whether the directory at `path` was newly created. `created` tells whether creating it
/// succeeded; where it did not because something was there, `kind` tells what.
pub fn ensure_directory(path: &str, created: bool, kind: EntryKind) -> (r: Result<bool, FileError>)
    ensures
        match r {
            Ok(fresh) => fresh == created && (created || kind is Missing || kind is Directory),
            Err(e) => !created && !(kind is Missing) && !(kind is Directory) && e@
                == FileFault::NotDirectory(path@),
        },
{
    if created {
        return Ok(true);
    }
    match require_directory_if_present(path, kind) {
        Ok(()) => Ok(false),
        Err(e) => Err(e),
    }
}

/// How a file's contents are to be replaced.
#[derive(Debug)]
pub enum Replacement {
    /// The contents are there already.
    Unchanged,
    /// A temporary file in `directory` takes the file's place; it gets the old permissions where
    /// there was a file.
    Write { directory: String, keep_permissions: bool },
}

/// The directory for the temporary file that replaces `path`.
pub open spec fn staging_directory(path: Seq<char>) -> Seq<char> {
    match parent_text(path) {
        Some(p) => if p.len() == 0 {
            "."@
        } else {
            p
        },
        None => "."@,
    }
}

/// Whether two byte strings are the same.
pub fn same_bytes(a: &[u8], b: &[u8]) -> (r: bool)
    ensures
        r == (a@ == b@),
{
    if a.len() != b.len() {
        return false;
    }
    let mut i: usize = 0;
    while i < a.len()
        invariant
            i <= a@.len(),
            a@.len() == b@.len(),
            forall|j: int| 0 <= j < i ==> a@[j] == b@[j],
        decreases a@.len() - i,
    {
        if a[i] != b[i] {
            return false;
        }
        i = i + 1;
    }
    assert(a@ =~= b@);
    true
}

/// How to put `contents` at `path`, where `kind` stands and `current` was read if it is a file.
pub fn atomic_write(path: &str, kind: EntryKind, current: &[u8], contents: &[u8]) -> (r: Result<
    Replacement,
    FileError,
>)
    ensures
        match r {
            Ok(Replacement::Unchanged) => kind is File && current@ == contents@,
            Ok(Replacement::Write { directory, keep_permissions }) => {
                &&& kind is Missing || (kind is File && current@ != contents@)
                &&& directory@ == staging_directory(path@)
                &&& keep_permissions == (kind is File)
            },
            Err(e) => !(kind is Missing) && !(kind is File) && e@ == FileFault::NotFile(path@),
        },
{
    let present = match require_regular_file_if_present(path, kind) {
        Ok(present) => present,
        Err(e) => return Err(e),
    };
    if present && same_bytes(current, contents) {
        return Ok(Replacement::Unchanged);
    }
    let directory = match parent(path) {
        Some(p) => if p.as_str().is_empty() {
            ".".to_owned()
        } else {
            p
        },
        None => ".".to_owned(),
    };
    Ok(Replacement::Write { directory, keep_permissions: present })
}

/// The text for a link that could not be made.
pub open spec fn link_failure_text(path: Seq<char>, target: Seq<char>, denied: bool) -> Seq<char> {
    let plain = "could not link "@ + path + " to "@ + target;
    if denied {
        plain
            + "; enable Windows Developer Mode or run with permission to create symbolic links"@
    } else {
        plain
    }
}

/// The text for a link that could not be made; `denied` is the case of a missing permission on
/// Windows.
pub fn link_failure(path: &str, target: &str, denied: bool) -> (r: String)
    ensures
        r@ == link_failure_text(path@, target@, denied),
{
    let mut r = plus3("could not link ", path, " to ");
    r.append(target);
    if denied {
        r.append("; enable Windows Developer Mode or run with permission to create symbolic links");
    }
    r
}

} // verus!
