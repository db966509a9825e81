//! Validation reports and the diagnostics they carry.

use vstd::prelude::*;

use crate::data::ContentMatchPair;

verus! {

/// The kinds of failure a validation can report.
#[derive(Clone, Copy, Debug, PartialEq, Eq, Structural)]
pub enum ErrorKind {
    /// A mandatory prescription node has no satisfying document node.
    MissingMandatory,
    /// A leaf content string does not align with its prescription content.
    ContentMismatch,
    /// Document siblings remain after the prescription is exhausted.
    SuperfluousNode,
    /// The prescription itself is malformed.
    RxStructure,
}

/// One reported problem. Content mismatches carry the full match pair
/// sequence so a renderer can highlight the mismatched segments.
#[derive(Clone, Debug)]
pub struct Diagnostic {
    pub kind: ErrorKind,
    pub pairs: Option<Vec<ContentMatchPair>>,
}

/// The problems found by one validation pass: absent when none were found; a
/// list, never left empty, when validation failed.
pub type ValidationProblems = Option<Vec<Diagnostic>>;

/// The outcome of validating a document against a prescription. Absent
/// errors mean the document conforms; a present error list means it does
/// not.
#[derive(Clone, Debug)]
pub struct ValidationReport {
    pub errors: Option<Vec<Diagnostic>>,
    pub warnings: Option<Vec<Diagnostic>>,
}

impl ValidationReport {
    /// Builds a report from the collected problems.
    pub fn new(errors: ValidationProblems, warnings: ValidationProblems) -> (r: ValidationReport)
        ensures
            r.errors == errors,
            r.warnings == warnings,
    {
        ValidationReport { errors, warnings }
    }
}

} // verus!
