//! Extraction of a version identifier from a noisy label, and a comparable
//! version value built from it.

pub mod grammar;
pub mod shape;
pub mod version;

pub use grammar::{extract_text, find_version, find_version_bytes};
pub use shape::Shape;
pub use version::{convert_to_semver, parse_version, CompareOp, RsVersion};
