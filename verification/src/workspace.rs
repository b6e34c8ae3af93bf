//! Workspaces and content hashes.

use crate::{paths, text};
use sha2::{Digest, Sha256};
use vstd::prelude::*;

verus! {

/// The SHA-256 digest of a text, in lowercase hexadecimal notation.
pub uninterp spec fn sha256(value: Seq<char>) -> Seq<char>;

/// Calls `sha2::Sha256::digest` on the UTF-8 bytes of a text and writes the digest in
/// lowercase hexadecimal notation. What the digest is is named, not stated.
#[verifier::external_body]
pub fn hash(value: &str) -> (r: String)
    ensures
        r@ == sha256(value@),
{
    format!("{:x}", Sha256::digest(value.as_bytes()))
}

/// A directory that is searched.
#[derive(Debug)]
pub struct Workspace {
    pub id: String,
    pub path: String,
}

/// Why a directory cannot be a workspace.
#[derive(Debug, Clone, Copy, PartialEq, Eq, Structural)]
pub enum WorkspaceError {
    NotADirectory,
    /// The data directory lies in the workspace, or the workspace in it.
    Overlap,
}

impl WorkspaceError {
    /// The text of the error.
    pub open spec fn text(self) -> Seq<char> {
        match self {
            WorkspaceError::NotADirectory => "workspace must be a directory"@,
            WorkspaceError::Overlap => "data directory and workspace must not contain one another"@,
        }
    }

    /// The text of the error.
    pub fn message(&self) -> (r: &'static str)
        ensures
            r@ == self.text(),
    {
        match self {
            WorkspaceError::NotADirectory => "workspace must be a directory",
            WorkspaceError::Overlap => "data directory and workspace must not contain one another",
        }
    }
}

/// The two directories contain one another, or are the same.
pub open spec fn overlap(path: Seq<char>, data_dir: Seq<char>) -> bool {
    paths::is_within(data_dir, path) || paths::is_within(path, data_dir)
}

impl Clone for Workspace {
    fn clone(&self) -> (r: Self)
        ensures
            r.id@ == self.id@,
            r.path@ == self.path@,
    {
        Workspace { id: self.id.clone(), path: self.path.clone() }
    }
}

impl Workspace {
    /// Identify a workspace by its canonical path. `data_dir` is the canonical path of
    /// the data directory, and `is_directory` tells whether the workspace is one.
    pub fn resolve(path: &str, is_directory: bool, data_dir: &str) -> (r: Result<
        Self,
        WorkspaceError,
    >)
        ensures
            match r {
                Ok(workspace) => {
                    &&& is_directory
                    &&& !overlap(path@, data_dir@)
                    &&& workspace.id@ == sha256(path@)
                    &&& workspace.path@ == path@
                },
                Err(WorkspaceError::NotADirectory) => !is_directory,
                Err(WorkspaceError::Overlap) => is_directory && overlap(path@, data_dir@),
            },
    {
        if !is_directory {
            return Err(WorkspaceError::NotADirectory);
        }
        if paths::lies_within(data_dir, path) || paths::lies_within(path, data_dir) {
            return Err(WorkspaceError::Overlap);
        }
        Ok(Workspace { id: hash(path), path: path.to_owned() })
    }

    /// The name of the table that holds the workspace's index.
    pub fn table_name(&self) -> (r: String)
        ensures
            r@ == "ws_"@ + self.id@,
    {
        text::concat2("ws_", self.id.as_str())
    }
}

/// Directories overlap whichever is named first, a directory overlaps with itself, and with
/// whatever lies below it.
pub proof fn law_overlaps_have_no_direction(a: Seq<char>, b: Seq<char>, name: Seq<char>)
    ensures
        overlap(a, b) == overlap(b, a),
        overlap(a, a),
        a.len() > 0 && name.len() > 0 && !name.contains('/') ==> overlap(a, a + seq!['/'] + name)
            && overlap(a + seq!['/'] + name, a),
{
    paths::law_within_is_an_order(a, b, a);
    if a.len() > 0 && name.len() > 0 && !name.contains('/') {
        paths::law_steps_are_the_names_of_a_path(a, name);
    }
}

} // verus!
