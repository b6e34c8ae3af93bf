//! Language servers.

use crate::paths;
use vstd::prelude::*;

pub mod adapter;
pub mod clangd;
pub mod csharp;
pub mod go;
pub mod java;
pub mod locations;
pub mod python;
pub mod rust;
pub mod sessions;
pub mod transport;
pub mod typescript;

verus! {

/// A place in a source file that a language server reported. Lines are one-based,
/// characters are zero-based.
#[derive(Debug, PartialEq, Eq, Hash)]
pub struct Location {
    pub file_path: String,
    pub relative_file_path: Option<String>,
    pub start_line: u32,
    pub start_character: u32,
    pub end_line: u32,
    pub end_character: u32,
    pub name: Option<String>,
    pub kind: Option<u64>,
    pub language: Option<String>,
    pub provider: Option<String>,
}

/// What a [`Location`] says.
pub struct LocationView {
    pub file_path: Seq<char>,
    pub relative_file_path: Option<Seq<char>>,
    pub start_line: u32,
    pub start_character: u32,
    pub end_line: u32,
    pub end_character: u32,
    pub name: Option<Seq<char>>,
    pub kind: Option<u64>,
    pub language: Option<Seq<char>>,
    pub provider: Option<Seq<char>>,
}

impl View for Location {
    type V = LocationView;

    open spec fn view(&self) -> LocationView {
        LocationView {
            file_path: self.file_path@,
            relative_file_path: paths::opt_view(self.relative_file_path),
            start_line: self.start_line,
            start_character: self.start_character,
            end_line: self.end_line,
            end_character: self.end_character,
            name: paths::opt_view(self.name),
            kind: self.kind,
            language: paths::opt_view(self.language),
            provider: paths::opt_view(self.provider),
        }
    }
}

/// What a list of locations says.
pub open spec fn location_views(list: Seq<Location>) -> Seq<LocationView> {
    list.map_values(|location: Location| location@)
}

} // verus!
