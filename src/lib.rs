//! Adds a locale prefix to internal documentation links that lack one.
//!
//! Everything here works on plain values: app code reads the documentation
//! tree, hands file contents and directory names in, and writes back what
//! comes out.

pub mod text;
pub mod exclude;
pub mod markdown;
pub mod card;
pub mod rewrite;
pub mod locale;
pub mod tally;
