//! A version-constraint engine: parses semantic-version strings and
//! version-range expressions, compares and orders versions, and decides which
//! versions satisfy, intersect, or maximise against a range.

pub mod error;
pub mod order;
pub mod range;
pub mod semver;
pub mod text;
