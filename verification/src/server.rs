//! The arguments of the tools that the service offers.

use crate::filter::FilterRequest;
use vstd::prelude::*;

verus! {

/// A workspace.
#[derive(Debug)]
pub struct WorkspaceArgs {
    /// The directory of the workspace.
    pub workspace_path: String,
}

/// A search.
#[derive(Debug)]
pub struct SearchArgs {
    pub workspace_path: String,
    pub query: String,
    /// How many results are wanted; `None` is the configured number.
    pub top_k: Option<usize>,
    pub languages: Option<Vec<String>>,
    pub include_paths: Option<Vec<String>>,
    pub exclude_paths: Option<Vec<String>>,
    pub source_roles: Option<Vec<String>>,
}

impl SearchArgs {
    /// The filters of the search.
    pub fn into_filters(self) -> (r: FilterRequest)
        ensures
            r.languages == self.languages,
            r.include_paths == self.include_paths,
            r.exclude_paths == self.exclude_paths,
            r.source_roles == self.source_roles,
    {
        FilterRequest {
            languages: self.languages,
            include_paths: self.include_paths,
            exclude_paths: self.exclude_paths,
            source_roles: self.source_roles,
        }
    }
}

/// A search for symbols.
#[derive(Debug)]
pub struct SymbolArgs {
    pub workspace_path: String,
    pub query: String,
}

/// A place in a source file.
#[derive(Debug)]
pub struct PositionArgs {
    pub workspace_path: String,
    pub relative_file_path: String,
    /// One-based.
    pub line: u32,
    /// Zero-based, in UTF-16 code units.
    pub character: u32,
}

/// A place in a source file whose references are wanted.
#[derive(Debug)]
pub struct ReferencesArgs {
    pub workspace_path: String,
    pub relative_file_path: String,
    /// One-based.
    pub line: u32,
    /// Zero-based, in UTF-16 code units.
    pub character: u32,
    pub include_declaration: bool,
}

} // verus!
