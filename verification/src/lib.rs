//! Metadata extraction for image files.
//!
//! The library decodes two kinds of embedded metadata from a file's bytes:
//! container tag records (decoded by the exif crate behind a trusted
//! wrapper) and PNG textual chunks (`tEXt`, `zTXt`, `iTXt`), parsed here at
//! the byte level. Both are merged into one field list, sorted by section
//! and tag. Helpers locate an embedded aesthetic score value and decide
//! which file extensions count as images.

pub mod collect;
pub mod container;
pub mod fields;
pub mod order;
pub mod png;
pub mod score;
pub mod text;
