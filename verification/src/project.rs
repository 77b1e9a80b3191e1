//! The project manifest `kicodex.yaml`: which libraries a project owns.
//! Parsing the file is the caller's business; the shape lives here.
use vstd::prelude::*;

verus! {

/// What can go wrong reading a project manifest.
#[derive(Debug)]
pub enum ProjectError {
    /// An input/output failure.
    Io(String),
    /// A manifest that did not parse.
    Yaml(String),
}

/// The top level of `kicodex.yaml`.
pub struct ProjectConfig {
    /// The libraries the project owns.
    pub libraries: Vec<LibraryRef>,
}

/// One library a project points at.
pub struct LibraryRef {
    /// The library's name.
    pub name: String,
    /// Its directory, relative to the project.
    pub path: String,
}

} // verus!
