//! The options of a run, and the check made on the root path before a scan.

use vstd::prelude::*;

verus! {

/// The options of a run.
pub struct Args {
    /// Directory to analyze.
    pub path: String,
    /// Number of top files to show.
    pub top_files: usize,
    /// Number of top folders to show.
    pub top_dirs: usize,
    /// Show all files and folders, with no limit.
    pub show_all: bool,
    /// Disable colored output.
    pub no_color: bool,
    /// Show hidden files and directories.
    pub show_hidden: bool,
}

/// Why a root path cannot be scanned.
#[derive(Clone, Copy, Debug, PartialEq, Eq, Structural)]
pub enum RootError {
    /// Nothing exists at the path.
    NotFound,
    /// Something exists at the path, but it is not a directory.
    NotADirectory,
}

/// The verdict on a root path, given whether it exists and whether it is a
/// directory.
pub open spec fn root_verdict(exists: bool, is_dir: bool) -> Result<(), RootError> {
    if !exists {
        Err(RootError::NotFound)
    } else if !is_dir {
        Err(RootError::NotADirectory)
    } else {
        Ok(())
    }
}

/// Decides whether a root path can be scanned, from what the file system
/// reported of it.
pub fn check_root(exists: bool, is_dir: bool) -> (r: Result<(), RootError>)
    ensures
        r == root_verdict(exists, is_dir),
{
    if !exists {
        Err(RootError::NotFound)
    } else if !is_dir {
        Err(RootError::NotADirectory)
    } else {
        Ok(())
    }
}

/// Relies on std::path::Path::exists: whether the file system has an entry at
/// the path now. Nothing is promised, since the answer depends on the disk.
#[verifier::external_body]
fn path_exists(p: &String) -> (r: bool) {
    std::path::Path::new(p).exists()
}

/// Relies on std::path::Path::is_dir: whether the path names a directory now.
/// Nothing is promised, since the answer depends on the disk.
#[verifier::external_body]
fn path_is_dir(p: &String) -> (r: bool) {
    std::path::Path::new(p).is_dir()
}

impl Args {
    /// Checks that the path exists and is a directory; the verdict is the one
    /// that `check_root` gives on what the file system reported.
    pub fn validate_path(&self) -> (r: Result<(), RootError>)
        ensures
            r is Ok || r == Err::<(), RootError>(RootError::NotFound) || r == Err::<(), RootError>(
                RootError::NotADirectory,
            ),
    {
        let exists = path_exists(&self.path);
        let is_dir = path_is_dir(&self.path);
        check_root(exists, is_dir)
    }
}

/// Whether a file or directory name marks a hidden entry: it begins with a dot.
pub fn is_hidden_name(name: &str) -> (r: bool)
    ensures
        r == (name@.len() > 0 && name@[0] == '.'),
{
    broadcast use vstd::string::axiom_spec_iter, vstd::string::next_postcondition;

    let mut it = name.chars();
    match it.next() {
        Some(c) => c == '.',
        None => false,
    }
}

/// Whether a scan goes into an entry met at `depth` below the root (the root
/// itself at depth 0): always for the root and when hidden entries are shown,
/// otherwise only when its name is not hidden. A hidden directory left out
/// takes everything beneath it along.
pub fn keeps_entry(name: &str, depth: usize, show_hidden: bool) -> (r: bool)
    ensures
        r == (show_hidden || depth == 0 || !(name@.len() > 0 && name@[0] == '.')),
{
    show_hidden || depth == 0 || !is_hidden_name(name)
}

} // verus!
