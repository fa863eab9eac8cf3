//! Vertical alignment of trailing punctuation.
//!
//! The library splits text into lines, computes a single target column from
//! the longest line, and pads each line whose right-trimmed form ends in one
//! of `{`, `}`, `;`, `,` so that the symbol lands at the target column.

pub mod aligner;
pub mod laws;
pub mod text;

pub use aligner::transform_code;
