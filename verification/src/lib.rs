//! Core logic of a performance-profiling helper library.
//!
//! Two pure components form the heart of the crate: a flame-graph builder
//! that turns flat call records into a forest of annotated nodes, and a
//! snapshot comparator that classifies per-method timing changes between
//! two aggregated snapshots.  Around them stand small verified helpers for
//! locating class declarations in source text, searching a parsed module
//! for a method, and framing compressed snapshot payloads.
//!
//! All fractional quantities (durations, thresholds) are carried as
//! integers scaled by [`SCALE`]; callers convert at the boundary.

use vstd::prelude::*;

pub mod comparison;
pub mod flame_graph;
pub mod parser;
pub mod file_locator;
pub mod storage;
pub mod text;

verus! {

/// Fixed-point scale: a duration or threshold of `x` units stands for the
/// real quantity `x / SCALE`.
pub const SCALE: u64 = 1000;

/// Outcome of a class-location search: the path found, or empty when the
/// search came up empty.
pub struct FileLocation {
    pub file_path: String,
    pub found: bool,
}

/// Outcome of a method-line search: the 1-based line, or 0 when the method
/// was not found.
pub struct MethodLocation {
    pub line: u32,
    pub found: bool,
}

/// Turns the result of a class search into a `FileLocation`.
pub fn file_location_of(path: Option<String>) -> (r: FileLocation)
    ensures
        match path {
            Some(p) => r.found && r.file_path@ == p@,
            None => !r.found && r.file_path@ == Seq::<char>::empty(),
        },
{
    match path {
        Some(p) => FileLocation { file_path: p, found: true },
        None => FileLocation { file_path: String::new(), found: false },
    }
}

/// Turns the result of a method-line search into a `MethodLocation`.
pub fn method_location_of(line: Option<u32>) -> (r: MethodLocation)
    ensures
        match line {
            Some(l) => r.found && r.line == l,
            None => !r.found && r.line == 0,
        },
{
    match line {
        Some(l) => MethodLocation { line: l, found: true },
        None => MethodLocation { line: 0, found: false },
    }
}

} // verus!
