//! Validation of CommonMark-style documents against prescriptions: template
//! documents annotated with prompt tokens that mark where content is
//! required, where it is optional, and which elements may repeat.
//!
//! The matching engine has four layers. The content matcher aligns a leaf's
//! text against prescription text holding prompt tokens; the element
//! comparator decides whether two elements agree; the sibling matcher walks
//! sibling lists right to left with a bookmark for backtracking; and the
//! validator ties them together into a report.

pub mod content;
pub mod data;
pub mod document;
pub mod errors;
pub mod laws;
pub mod validator;
