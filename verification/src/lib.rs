//! Fetch-and-parse support for Debian-style `Packages` index documents.
//!
//! The heart of the crate is a verified parser for the control-file format:
//! paragraphs of `Key: value` fields separated by blank lines, with
//! whitespace-prefixed continuation lines extending the previous field.
//! Parsed paragraphs are mapped into [`packages::Package`] records with
//! tolerant field coercion, and a whole document into a
//! [`packages::Packages`] collection.

use vstd::prelude::*;

pub mod arch;
pub mod control;
pub mod decimal;
pub mod fetch;
pub mod packages;
pub mod xz;

verus! {

/// True of the characters that count as horizontal whitespace in the
/// control-file format: a space or a tab.
pub open spec fn is_ws(c: char) -> bool {
    c == ' ' || c == '\t'
}

} // verus!
